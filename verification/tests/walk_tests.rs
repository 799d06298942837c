//! Walker tests over an in-memory snapshot of the fixture tree.

use std::collections::BTreeSet;

use sd_core::rules::{IndexerRule, ParametersPerKind, RuleKind, RulesByKind};
use sd_core::walk::{walk, walk_single_dir, FilePathMetadata, FsEntry, IndexerError, Snapshot};

fn md() -> FilePathMetadata {
    FilePathMetadata { inode: 0, device: 0, size_in_bytes: 0, created_at: 0, modified_at: 0 }
}

fn seg(path: &str) -> Vec<String> {
    path.split('/').map(|s| s.to_string()).collect()
}

fn entry(path: &str, is_dir: bool) -> FsEntry {
    FsEntry { rel_path: seg(path), is_dir, is_symlink: false, metadata: md() }
}

fn prepare_location() -> Snapshot {
    let entries = vec![
        entry("rust_project", true),
        entry("rust_project/.git", true),
        entry("rust_project/Cargo.toml", false),
        entry("rust_project/src", true),
        entry("rust_project/src/main.rs", false),
        entry("rust_project/target", true),
        entry("rust_project/target/debug", true),
        entry("rust_project/target/debug/main", false),
        entry("inner", true),
        entry("inner/node_project", true),
        entry("inner/node_project/.git", true),
        entry("inner/node_project/package.json", false),
        entry("inner/node_project/src", true),
        entry("inner/node_project/src/App.tsx", false),
        entry("inner/node_project/node_modules", true),
        entry("inner/node_project/node_modules/react", true),
        entry("inner/node_project/node_modules/react/package.json", false),
        entry("photos", true),
        entry("photos/photo1.png", false),
        entry("photos/photo2.jpg", false),
        entry("photos/photo3.jpeg", false),
        entry("photos/text.txt", false),
    ];
    Snapshot { root_path: "/location".to_string(), root_metadata: md(), entries }
}

/// The returned relative paths, as a set; the root is the empty vector.
fn rel_set(out: &[sd_core::walk::WalkEntry]) -> BTreeSet<Vec<String>> {
    out.iter().map(|w| w.rel_path.clone()).collect()
}

fn expected_set(paths: &[&str], include_root: bool) -> BTreeSet<Vec<String>> {
    let mut set: BTreeSet<Vec<String>> = paths.iter().map(|p| seg(p)).collect();
    if include_root {
        set.insert(Vec::new());
    }
    set
}

fn glob_rule(name: &str, kind: RuleKind, glob: &str) -> IndexerRule {
    let params = match kind {
        RuleKind::AcceptFilesByGlob => ParametersPerKind::AcceptFilesByGlob(glob.to_string()),
        RuleKind::RejectFilesByGlob => ParametersPerKind::RejectFilesByGlob(glob.to_string()),
        _ => panic!("not a glob kind"),
    };
    IndexerRule::new(kind, name.to_string(), params).expect("glob must compile")
}

fn children_rule(name: &str, kind: RuleKind, children: &[&str]) -> IndexerRule {
    let names: Vec<String> = children.iter().map(|s| s.to_string()).collect();
    let params = match kind {
        RuleKind::AcceptIfChildrenDirectoriesArePresent => {
            ParametersPerKind::AcceptIfChildrenDirectoriesArePresent(names)
        }
        RuleKind::RejectIfChildrenDirectoriesArePresent => {
            ParametersPerKind::RejectIfChildrenDirectoriesArePresent(names)
        }
        _ => panic!("not a children kind"),
    };
    IndexerRule::new(kind, name.to_string(), params).expect("children rule")
}

#[test]
fn test_walk_without_rules() {
    let root = prepare_location();
    let actual = walk(&root, &RulesByKind::empty(), true).unwrap();
    let expected = expected_set(
        &[
            "rust_project",
            "rust_project/.git",
            "rust_project/Cargo.toml",
            "rust_project/src",
            "rust_project/src/main.rs",
            "rust_project/target",
            "rust_project/target/debug",
            "rust_project/target/debug/main",
            "inner",
            "inner/node_project",
            "inner/node_project/.git",
            "inner/node_project/package.json",
            "inner/node_project/src",
            "inner/node_project/src/App.tsx",
            "inner/node_project/node_modules",
            "inner/node_project/node_modules/react",
            "inner/node_project/node_modules/react/package.json",
            "photos",
            "photos/photo1.png",
            "photos/photo2.jpg",
            "photos/photo3.jpeg",
            "photos/text.txt",
        ],
        true,
    );
    assert_eq!(rel_set(&actual), expected);
}

#[test]
fn test_only_photos() {
    let root = prepare_location();
    let mut rules = RulesByKind::empty();
    assert!(rules.add(glob_rule(
        "only photos",
        RuleKind::AcceptFilesByGlob,
        "{*.png,*.jpg,*.jpeg}",
    )));
    let actual = walk(&root, &rules, true).unwrap();
    let expected = expected_set(
        &["photos", "photos/photo1.png", "photos/photo2.jpg", "photos/photo3.jpeg"],
        true,
    );
    assert_eq!(rel_set(&actual), expected);
}

#[test]
fn test_git_repos() {
    let root = prepare_location();
    let mut rules = RulesByKind::empty();
    assert!(rules.add(children_rule(
        "git repos",
        RuleKind::AcceptIfChildrenDirectoriesArePresent,
        &[".git"],
    )));
    let actual = walk(&root, &rules, true).unwrap();
    let expected = expected_set(
        &[
            "rust_project",
            "rust_project/.git",
            "rust_project/Cargo.toml",
            "rust_project/src",
            "rust_project/src/main.rs",
            "rust_project/target",
            "rust_project/target/debug",
            "rust_project/target/debug/main",
            "inner",
            "inner/node_project",
            "inner/node_project/.git",
            "inner/node_project/package.json",
            "inner/node_project/src",
            "inner/node_project/src/App.tsx",
            "inner/node_project/node_modules",
            "inner/node_project/node_modules/react",
            "inner/node_project/node_modules/react/package.json",
        ],
        true,
    );
    assert_eq!(rel_set(&actual), expected);
}

#[test]
fn git_repos_without_deps_or_build_dirs() {
    let root = prepare_location();
    let mut rules = RulesByKind::empty();
    assert!(rules.add(children_rule(
        "git repos",
        RuleKind::AcceptIfChildrenDirectoriesArePresent,
        &[".git"],
    )));
    assert!(rules.add(glob_rule(
        "reject node_modules",
        RuleKind::RejectFilesByGlob,
        "{**/node_modules/*,**/node_modules}",
    )));
    assert!(rules.add(glob_rule(
        "reject rust build dir",
        RuleKind::RejectFilesByGlob,
        "{**/target/*,**/target}",
    )));
    let actual = walk(&root, &rules, true).unwrap();
    let expected = expected_set(
        &[
            "rust_project",
            "rust_project/.git",
            "rust_project/Cargo.toml",
            "rust_project/src",
            "rust_project/src/main.rs",
            "inner",
            "inner/node_project",
            "inner/node_project/.git",
            "inner/node_project/package.json",
            "inner/node_project/src",
            "inner/node_project/src/App.tsx",
        ],
        true,
    );
    assert_eq!(rel_set(&actual), expected);
}

#[test]
fn walk_is_sorted_and_free_of_duplicates() {
    let root = prepare_location();
    let out = walk(&root, &RulesByKind::empty(), true).unwrap();
    for w in out.windows(2) {
        assert!(w[0].rel_path < w[1].rel_path, "not strictly ascending");
    }
    let set = rel_set(&out);
    assert_eq!(set.len(), out.len());
    // every entry's parent is the root or listed
    for w in &out {
        if w.rel_path.len() > 1 {
            let parent = w.rel_path[..w.rel_path.len() - 1].to_vec();
            assert!(set.contains(&parent), "parent of {:?} missing", w.rel_path);
        }
    }
}

#[test]
fn walk_is_deterministic() {
    let root = prepare_location();
    let mut rules = RulesByKind::empty();
    assert!(rules.add(glob_rule("only photos", RuleKind::AcceptFilesByGlob, "{*.png,*.jpg,*.jpeg}")));
    let a = walk(&root, &rules, true).unwrap();
    let b = walk(&root, &rules, true).unwrap();
    let pa: Vec<_> = a.iter().map(|w| w.path.clone()).collect();
    let pb: Vec<_> = b.iter().map(|w| w.path.clone()).collect();
    assert_eq!(pa, pb);
}

#[test]
fn reject_rules_shrink_the_admitted_set() {
    let root = prepare_location();
    let base = RulesByKind::empty();
    let mut more = RulesByKind::empty();
    assert!(more.add(glob_rule("reject rust build dir", RuleKind::RejectFilesByGlob, "{**/target/*,**/target}")));
    let with_rule = rel_set(&walk(&root, &more, true).unwrap());
    let without = rel_set(&walk(&root, &base, true).unwrap());
    assert!(with_rule.is_subset(&without));
    assert!(with_rule.len() < without.len());
}

#[test]
fn walk_single_dir_lists_direct_children_only() {
    let root = prepare_location();
    let out = walk_single_dir(&root, &RulesByKind::empty()).unwrap();
    let expected = expected_set(&["rust_project", "inner", "photos"], false);
    assert_eq!(rel_set(&out), expected);
}

#[test]
fn walk_rejects_a_malformed_snapshot() {
    // a child without its parent entry
    let snapshot = Snapshot {
        root_path: "/location".to_string(),
        root_metadata: md(),
        entries: vec![entry("a/b", false)],
    };
    assert!(walk(&snapshot, &RulesByKind::empty(), true).is_err());
}

#[test]
fn symlinks_are_skipped() {
    let mut snapshot = prepare_location();
    snapshot.entries.push(FsEntry {
        rel_path: seg("photos/link.png"),
        is_dir: false,
        is_symlink: true,
        metadata: md(),
    });
    let out = walk(&snapshot, &RulesByKind::empty(), true).unwrap();
    assert!(!rel_set(&out).contains(&seg("photos/link.png")));
}

#[test]
fn invalid_glob_is_refused_at_rule_construction() {
    assert!(IndexerRule::new(
        RuleKind::AcceptFilesByGlob,
        "broken".to_string(),
        ParametersPerKind::AcceptFilesByGlob("{unclosed".to_string()),
    )
    .is_none());
    // mismatched kind and parameters
    assert!(IndexerRule::new(
        RuleKind::RejectFilesByGlob,
        "mismatch".to_string(),
        ParametersPerKind::AcceptFilesByGlob("*.png".to_string()),
    )
    .is_none());
}

#[test]
fn walk_rejects_a_malformed_rule_set() {
    let root = prepare_location();
    // a rule whose glob does not compile, smuggled past the constructor
    let mut rules = RulesByKind::empty();
    rules.reject_glob.push(IndexerRule {
        kind: RuleKind::RejectFilesByGlob,
        name: "broken".to_string(),
        parameters: ParametersPerKind::RejectFilesByGlob("{unclosed".to_string()),
    });
    assert!(matches!(walk(&root, &rules, true), Err(IndexerError::InvalidRules)));
}
