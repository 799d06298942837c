//! Rule-driven walker over a directory snapshot.
//!
//! The filesystem is taken as a value: a [`Snapshot`] holds the location's
//! root path and one entry per path under it, each a vector of path segments
//! relative to the root together with its stat data. `walk` applies the
//! admission rules to every entry exactly as a breadth-first traversal
//! would: reject-globs prune an entry and its subtree, children-present
//! rules accept or reject a directory subtree, accept-globs filter single
//! entries, and every ancestor of an admitted entry is admitted with it.
//! The result is de-duplicated and sorted by path.

use vstd::prelude::*;

use crate::rules::{glob_match, glob_matches, IndexerRule, ParametersPerKind, RulesByKind};
use crate::strutil::{is_seg_prefix, is_strict_seg_prefix, join_full_path, join_path, seg_lt, str_eq};
use vstd::multiset::Multiset;

verus! {

/// Stat data carried for each admitted path.
#[derive(Clone, Copy, PartialEq, Eq, Structural, Debug)]
pub struct FilePathMetadata {
    pub inode: u64,
    pub device: u64,
    pub size_in_bytes: u64,
    pub created_at: i64,
    pub modified_at: i64,
}

/// One filesystem entry of a snapshot: its path relative to the snapshot
/// root as a vector of segments, and its stat data.
#[derive(Clone, Debug)]
pub struct FsEntry {
    pub rel_path: Vec<String>,
    pub is_dir: bool,
    pub is_symlink: bool,
    pub metadata: FilePathMetadata,
}

impl FsEntry {
    /// The entry's relative path as a sequence of segment views.
    pub open spec fn rel(self) -> Seq<Seq<char>> {
        self.rel_path.deep_view()
    }
}

/// A fixed snapshot of the directory tree under one location root.
#[derive(Clone, Debug)]
pub struct Snapshot {
    pub root_path: String,
    pub root_metadata: FilePathMetadata,
    pub entries: Vec<FsEntry>,
}

impl Snapshot {
    /// Some entry has exactly the relative path `p`.
    pub open spec fn has_entry(self, p: Seq<Seq<char>>) -> bool {
        exists|j: int| 0 <= j < self.entries@.len() && (#[trigger] self.entries@[j]).rel() == p
    }

    /// The entry whose relative path is `p`.
    pub open spec fn entry_of(self, p: Seq<Seq<char>>) -> FsEntry {
        self.entries@[choose|j: int|
            0 <= j < self.entries@.len() && (#[trigger] self.entries@[j]).rel() == p]
    }

    /// Entries name non-root paths with non-empty segments, no two entries
    /// share a path, and the parent of every deeper entry is present as a
    /// non-symlink directory entry.
    pub open spec fn wf(self) -> bool {
        &&& forall|i: int|
            0 <= i < self.entries@.len() ==> (#[trigger] self.entries@[i]).rel().len() >= 1
        &&& forall|i: int, k: int|
            0 <= i < self.entries@.len() && 0 <= k < self.entries@[i].rel().len() ==> (
            #[trigger] self.entries@[i].rel()[k]).len() >= 1
        &&& forall|i: int, j: int|
            0 <= i < self.entries@.len() && 0 <= j < self.entries@.len() && i != j ==> (
            #[trigger] self.entries@[i]).rel() != (#[trigger] self.entries@[j]).rel()
        &&& forall|i: int|
            0 <= i < self.entries@.len() && (#[trigger] self.entries@[i]).rel().len() > 1 ==> {
                let parent = self.entries@[i].rel().drop_last();
                self.has_entry(parent) && self.entry_of(parent).is_dir && !self.entry_of(
                    parent,
                ).is_symlink
            }
    }

    /// An entry equals `entry_of` at its own path, under uniqueness.
    pub proof fn lemma_entry_at_index(self, j: int)
        requires
            self.wf(),
            0 <= j < self.entries@.len(),
        ensures
            self.has_entry(self.entries@[j].rel()),
            self.entry_of(self.entries@[j].rel()) == self.entries@[j],
    {
        assert(self.has_entry(self.entries@[j].rel()));
        let k = choose|k: int|
            0 <= k < self.entries@.len() && (#[trigger] self.entries@[k]).rel()
                == self.entries@[j].rel();
        assert(k == j);
    }

    /// Uniqueness of entry paths, the first half of `wf`.
    pub open spec fn paths_unique(self) -> bool {
        forall|i: int, j: int|
            0 <= i < self.entries@.len() && 0 <= j < self.entries@.len() && i != j ==> (
            #[trigger] self.entries@[i]).rel() != (#[trigger] self.entries@[j]).rel()
    }

    /// Validates `wf` executably.
    pub fn is_wf(&self) -> (r: bool)
        ensures
            r == self.wf(),
    {
        let n = self.entries.len();
        // first pass: path shape and uniqueness
        let mut i: usize = 0;
        while i < n
            invariant
                0 <= i <= n,
                n == self.entries@.len(),
                forall|a: int| 0 <= a < i ==> (#[trigger] self.entries@[a]).rel().len() >= 1,
                forall|a: int, k: int|
                    0 <= a < i && 0 <= k < self.entries@[a].rel().len() ==> (
                    #[trigger] self.entries@[a].rel()[k]).len() >= 1,
                forall|a: int, b: int|
                    0 <= a < i && 0 <= b < self.entries@.len() && a != b ==> (
                    #[trigger] self.entries@[a]).rel() != (#[trigger] self.entries@[b]).rel(),
            decreases n - i,
        {
            let e = &self.entries[i];
            let ghost ev = e.rel();
            proof {
                assert(ev.len() == e.rel_path@.len());
            }
            if e.rel_path.len() == 0 {
                return false;
            }
            let mut k: usize = 0;
            while k < e.rel_path.len()
                invariant
                    0 <= k <= e.rel_path@.len(),
                    ev == e.rel(),
                    ev.len() == e.rel_path@.len(),
                    e == &self.entries@[i as int],
                    0 <= i < self.entries@.len(),
                    forall|m: int| 0 <= m < k ==> (#[trigger] ev[m]).len() >= 1,
                decreases e.rel_path@.len() - k,
            {
                proof {
                    assert(ev[k as int] == e.rel_path@[k as int]@);
                }
                if e.rel_path[k].as_str().unicode_len() == 0 {
                    return false;
                }
                k += 1;
            }
            let mut j: usize = 0;
            while j < n
                invariant
                    0 <= j <= n,
                    n == self.entries@.len(),
                    0 <= i < n,
                    e == &self.entries@[i as int],
                    ev == e.rel(),
                    forall|b: int|
                        0 <= b < j && i as int != b ==> ev != (#[trigger] self.entries@[b]).rel(),
                decreases n - j,
            {
                if j != i {
                    if crate::strutil::seg_eq(&e.rel_path, &self.entries[j].rel_path) {
                        return false;
                    }
                }
                j += 1;
            }
            i += 1;
        }
        // second pass: every deeper entry's parent is a walkable directory
        assert(self.paths_unique());
        let mut i: usize = 0;
        while i < n
            invariant
                0 <= i <= n,
                n == self.entries@.len(),
                self.paths_unique(),
                forall|a: int| 0 <= a < n ==> (#[trigger] self.entries@[a]).rel().len() >= 1,
                forall|a: int, k: int|
                    0 <= a < n && 0 <= k < self.entries@[a].rel().len() ==> (
                    #[trigger] self.entries@[a].rel()[k]).len() >= 1,
                forall|a: int|
                    0 <= a < i && (#[trigger] self.entries@[a]).rel().len() > 1 ==> {
                        let parent = self.entries@[a].rel().drop_last();
                        self.has_entry(parent) && self.entry_of(parent).is_dir && !self.entry_of(
                            parent,
                        ).is_symlink
                    },
            decreases n - i,
        {
            let e = &self.entries[i];
            let ghost ev = e.rel();
            if e.rel_path.len() > 1 {
                let plen = e.rel_path.len() - 1;
                proof {
                    assert(ev.len() == e.rel_path@.len());
                    assert(ev.take(plen as int) =~= ev.drop_last());
                }
                match find_entry_prefix(self, &e.rel_path, plen) {
                    Some(pj) => {
                        proof {
                            let parent = ev.drop_last();
                            assert(self.has_entry(parent));
                            let k0 = choose|k0: int|
                                0 <= k0 < self.entries@.len() && (#[trigger] self.entries@[k0]).rel()
                                    == parent;
                            assert(k0 == pj as int);
                        }
                        let pe = &self.entries[pj];
                        if !pe.is_dir || pe.is_symlink {
                            return false;
                        }
                    },
                    None => {
                        return false;
                    },
                }
            }
            i += 1;
        }
        true
    }
}

/// Every reject-glob rule keeps the path: rejection is conjunctive, any
/// single match rejects.
pub open spec fn passes_reject_glob(rules: RulesByKind, full: Seq<char>) -> bool {
    forall|i: int|
        0 <= i < rules.reject_glob@.len() ==> !glob_match(
            (#[trigger] rules.reject_glob@[i]).glob_pattern(),
            full,
        )
}

/// Some accept-glob rule admits the path, or no accept-glob rule exists:
/// acceptance is disjunctive.
pub open spec fn accept_glob_ok(rules: RulesByKind, full: Seq<char>) -> bool {
    rules.accept_glob@.len() == 0 || exists|i: int|
        0 <= i < rules.accept_glob@.len() && glob_match(
            (#[trigger] rules.accept_glob@[i]).glob_pattern(),
            full,
        )
}

/// The directory `p` has a child directory entry named `name`.
pub open spec fn child_dir_present(snap: Snapshot, p: Seq<Seq<char>>, name: Seq<char>) -> bool {
    snap.has_entry(p.push(name)) && snap.entry_of(p.push(name)).is_dir
}

/// Some marker name of the rule exists as a child directory of `p`.
pub open spec fn children_fire(snap: Snapshot, names: Seq<Seq<char>>, p: Seq<Seq<char>>) -> bool {
    exists|k: int| 0 <= k < names.len() && child_dir_present(snap, p, #[trigger] names[k])
}

/// No reject-children rule fires on directory `p`.
pub open spec fn reject_children_pass(snap: Snapshot, rules: RulesByKind, p: Seq<Seq<char>>) -> bool {
    forall|i: int|
        0 <= i < rules.reject_children@.len() ==> !children_fire(
            snap,
            (#[trigger] rules.reject_children@[i]).child_names(),
            p,
        )
}

/// The subtree-accepted state of directory `p`, given the state inherited
/// from its parent: the first accept-children rule that fires sets it to
/// accepted; if such rules exist, none fires and nothing was inherited, the
/// subtree is marked rejected; otherwise the inherited state is kept.
pub open spec fn accept_children_state(
    snap: Snapshot,
    rules: RulesByKind,
    inherited: Option<bool>,
    p: Seq<Seq<char>>,
) -> Option<bool> {
    if rules.accept_children@.len() == 0 {
        inherited
    } else if exists|i: int|
        0 <= i < rules.accept_children@.len() && children_fire(
            snap,
            (#[trigger] rules.accept_children@[i]).child_names(),
            p,
        ) {
        Some(true)
    } else if inherited is None {
        Some(false)
    } else {
        inherited
    }
}

/// The walk state of directory `p`: `None` when the traversal never reaches
/// (enqueues) `p`, otherwise `Some` of its subtree-accepted state. The root
/// (the empty path) starts the walk with no inherited state.
pub open spec fn dir_state(snap: Snapshot, rules: RulesByKind, p: Seq<Seq<char>>) -> Option<
    Option<bool>,
>
    decreases p.len(),
{
    if p.len() == 0 {
        Some(Option::<bool>::None)
    } else {
        match dir_state(snap, rules, p.drop_last()) {
            Option::None => Option::None,
            Option::Some(inh) => {
                let e = snap.entry_of(p);
                if snap.has_entry(p) && e.is_dir && !e.is_symlink && passes_reject_glob(
                    rules,
                    join_path(snap.root_path@, p),
                ) && reject_children_pass(snap, rules, p) {
                    Some(accept_children_state(snap, rules, inh, p))
                } else {
                    Option::None
                }
            },
        }
    }
}

/// A subtree-accepted state that lets an entry be admitted.
pub open spec fn state_admits(s: Option<bool>) -> bool {
    s is None || s == Some(true)
}

/// The walker admits the entry at path `p` on its own account (not merely
/// as an ancestor of an admitted entry).
pub open spec fn directly_admitted(snap: Snapshot, rules: RulesByKind, p: Seq<Seq<char>>) -> bool {
    &&& p.len() > 0
    &&& snap.has_entry(p)
    &&& match dir_state(snap, rules, p.drop_last()) {
        Option::None => false,
        Option::Some(inh) => {
            let e = snap.entry_of(p);
            let full = join_path(snap.root_path@, p);
            &&& !e.is_symlink
            &&& passes_reject_glob(rules, full)
            &&& accept_glob_ok(rules, full)
            &&& if e.is_dir {
                reject_children_pass(snap, rules, p) && state_admits(
                    accept_children_state(snap, rules, inh, p),
                )
            } else {
                state_admits(inh)
            }
        },
    }
}

/// `p` is a strict ancestor of some directly admitted entry.
pub open spec fn ancestor_admitted(snap: Snapshot, rules: RulesByKind, p: Seq<Seq<char>>) -> bool {
    p.len() > 0 && exists|j: int|
        0 <= j < snap.entries@.len() && p.len() < (#[trigger] snap.entries@[j]).rel().len()
            && is_seg_prefix(p, snap.entries@[j].rel()) && directly_admitted(
            snap,
            rules,
            snap.entries@[j].rel(),
        )
}

/// The walker's final admission of path `p` (other than the root): admitted
/// on its own account, or as an ancestor of an admitted entry.
pub open spec fn admitted(snap: Snapshot, rules: RulesByKind, p: Seq<Seq<char>>) -> bool {
    directly_admitted(snap, rules, p) || ancestor_admitted(snap, rules, p)
}

/// Finds the entry whose relative path equals the first `plen` segments of
/// `target`.
fn find_entry_prefix(snap: &Snapshot, target: &Vec<String>, plen: usize) -> (r: Option<usize>)
    requires
        plen <= target@.len(),
    ensures
        match r {
            Some(j) => 0 <= j < snap.entries@.len() && snap.entries@[j as int].rel()
                == target.deep_view().take(plen as int),
            None => !snap.has_entry(target.deep_view().take(plen as int)),
        },
{
    let ghost p = target.deep_view().take(plen as int);
    let n = snap.entries.len();
    let mut j: usize = 0;
    while j < n
        invariant
            0 <= j <= n,
            n == snap.entries@.len(),
            plen <= target@.len(),
            p == target.deep_view().take(plen as int),
            forall|b: int| 0 <= b < j ==> (#[trigger] snap.entries@[b]).rel() != p,
        decreases n - j,
    {
        if rel_matches_prefix(&snap.entries[j].rel_path, target, plen) {
            return Some(j);
        }
        j += 1;
    }
    None
}

/// Whether `e_rel` equals the first `plen` segments of `target`.
fn rel_matches_prefix(e_rel: &Vec<String>, target: &Vec<String>, plen: usize) -> (r: bool)
    requires
        plen <= target@.len(),
    ensures
        r == (e_rel.deep_view() == target.deep_view().take(plen as int)),
{
    let ghost ev = e_rel.deep_view();
    let ghost p = target.deep_view().take(plen as int);
    proof {
        assert(ev.len() == e_rel@.len());
        assert(target.deep_view().len() == target@.len());
    }
    if e_rel.len() != plen {
        proof {
            assert(ev != p) by {
                if ev == p {
                    assert(ev.len() == p.len());
                }
            }
        }
        return false;
    }
    let mut k: usize = 0;
    while k < plen
        invariant
            0 <= k <= plen,
            plen <= target@.len(),
            plen == e_rel@.len(),
            ev == e_rel.deep_view(),
            p == target.deep_view().take(plen as int),
            ev.len() == plen,
            p.len() == plen,
            forall|m: int| 0 <= m < k ==> ev[m] == p[m],
        decreases plen - k,
    {
        proof {
            assert(ev[k as int] == e_rel@[k as int]@);
            assert(p[k as int] == target.deep_view()[k as int]);
            assert(target.deep_view()[k as int] == target@[k as int]@);
        }
        if !str_eq(e_rel[k].as_str(), target[k].as_str()) {
            proof {
                assert(ev != p) by {
                    if ev == p {
                        assert(ev[k as int] == p[k as int]);
                    }
                }
            }
            return false;
        }
        k += 1;
    }
    proof {
        assert(ev =~= p);
    }
    true
}

/// Whether `e_rel` equals the first `plen` segments of `target` followed by
/// `name`.
fn rel_matches_child(e_rel: &Vec<String>, target: &Vec<String>, plen: usize, name: &String) -> (r:
    bool)
    requires
        plen <= target@.len(),
    ensures
        r == (e_rel.deep_view() == target.deep_view().take(plen as int).push(name@)),
{
    let ghost ev = e_rel.deep_view();
    let ghost p = target.deep_view().take(plen as int).push(name@);
    proof {
        assert(ev.len() == e_rel@.len());
        assert(target.deep_view().len() == target@.len());
    }
    if e_rel.len() == 0 || e_rel.len() - 1 != plen {
        proof {
            assert(ev != p) by {
                if ev == p {
                    assert(ev.len() == p.len());
                }
            }
        }
        return false;
    }
    let mut k: usize = 0;
    while k < plen
        invariant
            0 <= k <= plen,
            plen <= target@.len(),
            plen + 1 == e_rel@.len(),
            plen < usize::MAX,
            ev == e_rel.deep_view(),
            p == target.deep_view().take(plen as int).push(name@),
            ev.len() == plen + 1,
            p.len() == plen + 1,
            forall|m: int| 0 <= m < k ==> ev[m] == p[m],
        decreases plen - k,
    {
        proof {
            assert(ev[k as int] == e_rel@[k as int]@);
            assert(p[k as int] == target.deep_view()[k as int]);
            assert(target.deep_view()[k as int] == target@[k as int]@);
        }
        if !str_eq(e_rel[k].as_str(), target[k].as_str()) {
            proof {
                assert(ev != p) by {
                    if ev == p {
                        assert(ev[k as int] == p[k as int]);
                    }
                }
            }
            return false;
        }
        k += 1;
    }
    proof {
        assert(ev[plen as int] == e_rel@[plen as int]@);
        assert(p[plen as int] == name@);
    }
    if !str_eq(e_rel[plen].as_str(), name.as_str()) {
        proof {
            assert(ev != p) by {
                if ev == p {
                    assert(ev[plen as int] == p[plen as int]);
                }
            }
        }
        return false;
    }
    proof {
        assert(ev =~= p);
    }
    true
}

/// Whether the first `plen` segments of `target` name a directory with a
/// child directory entry named `name`.
fn child_dir_exists(snap: &Snapshot, target: &Vec<String>, plen: usize, name: &String) -> (r: bool)
    requires
        snap.wf(),
        plen <= target@.len(),
    ensures
        r == child_dir_present(*snap, target.deep_view().take(plen as int), name@),
{
    let ghost p = target.deep_view().take(plen as int);
    let ghost c = p.push(name@);
    let n = snap.entries.len();
    let mut j: usize = 0;
    while j < n
        invariant
            0 <= j <= n,
            n == snap.entries@.len(),
            snap.wf(),
            plen <= target@.len(),
            p == target.deep_view().take(plen as int),
            c == p.push(name@),
            forall|b: int| 0 <= b < j ==> (#[trigger] snap.entries@[b]).rel() != c,
        decreases n - j,
    {
        if rel_matches_child(&snap.entries[j].rel_path, target, plen, name) {
            proof {
                snap.lemma_entry_at_index(j as int);
            }
            return snap.entries[j].is_dir;
        }
        j += 1;
    }
    false
}

/// Whether some name in `names` is present as a child directory of the
/// first `plen` segments of `target`.
fn names_fire(snap: &Snapshot, names: &Vec<String>, target: &Vec<String>, plen: usize) -> (r: bool)
    requires
        snap.wf(),
        plen <= target@.len(),
    ensures
        r == children_fire(*snap, names.deep_view(), target.deep_view().take(plen as int)),
{
    let ghost nv = names.deep_view();
    let ghost p = target.deep_view().take(plen as int);
    proof {
        assert(nv.len() == names@.len());
    }
    let mut k: usize = 0;
    while k < names.len()
        invariant
            0 <= k <= names@.len(),
            snap.wf(),
            plen <= target@.len(),
            nv == names.deep_view(),
            nv.len() == names@.len(),
            p == target.deep_view().take(plen as int),
            forall|m: int| 0 <= m < k ==> !child_dir_present(*snap, p, #[trigger] nv[m]),
        decreases names@.len() - k,
    {
        proof {
            assert(nv[k as int] == names@[k as int]@);
        }
        if child_dir_exists(snap, target, plen, &names[k]) {
            return true;
        }
        k += 1;
    }
    false
}

/// Evaluates every reject-glob rule on the full path string.
fn eval_reject_glob(rules: &RulesByKind, full: &str) -> (r: bool)
    requires
        rules.wf(),
    ensures
        r == passes_reject_glob(*rules, full@),
{
    let n = rules.reject_glob.len();
    let mut i: usize = 0;
    while i < n
        invariant
            0 <= i <= n,
            n == rules.reject_glob@.len(),
            rules.wf(),
            forall|b: int|
                0 <= b < i ==> !glob_match(
                    (#[trigger] rules.reject_glob@[b]).glob_pattern(),
                    full@,
                ),
        decreases n - i,
    {
        let rule = &rules.reject_glob[i];
        match &rule.parameters {
            ParametersPerKind::RejectFilesByGlob(g) => {
                if glob_matches(g.as_str(), full) {
                    return false;
                }
            },
            _ => {
                proof {
                    assert(false);
                }
            },
        }
        i += 1;
    }
    true
}

/// Evaluates the accept-glob rules on the full path string.
fn eval_accept_glob(rules: &RulesByKind, full: &str) -> (r: bool)
    requires
        rules.wf(),
    ensures
        r == accept_glob_ok(*rules, full@),
{
    let n = rules.accept_glob.len();
    if n == 0 {
        return true;
    }
    let mut i: usize = 0;
    while i < n
        invariant
            0 <= i <= n,
            n == rules.accept_glob@.len(),
            rules.wf(),
            forall|b: int|
                0 <= b < i ==> !glob_match(
                    (#[trigger] rules.accept_glob@[b]).glob_pattern(),
                    full@,
                ),
        decreases n - i,
    {
        let rule = &rules.accept_glob[i];
        match &rule.parameters {
            ParametersPerKind::AcceptFilesByGlob(g) => {
                if glob_matches(g.as_str(), full) {
                    return true;
                }
            },
            _ => {
                proof {
                    assert(false);
                }
            },
        }
        i += 1;
    }
    false
}

/// Evaluates the reject-children rules on the directory named by the first
/// `plen` segments of `target`.
fn eval_reject_children(snap: &Snapshot, rules: &RulesByKind, target: &Vec<String>, plen: usize) -> (r:
    bool)
    requires
        snap.wf(),
        rules.wf(),
        plen <= target@.len(),
    ensures
        r == reject_children_pass(*snap, *rules, target.deep_view().take(plen as int)),
{
    let ghost p = target.deep_view().take(plen as int);
    let n = rules.reject_children.len();
    let mut i: usize = 0;
    while i < n
        invariant
            0 <= i <= n,
            n == rules.reject_children@.len(),
            snap.wf(),
            rules.wf(),
            plen <= target@.len(),
            p == target.deep_view().take(plen as int),
            forall|b: int|
                0 <= b < i ==> !children_fire(
                    *snap,
                    (#[trigger] rules.reject_children@[b]).child_names(),
                    p,
                ),
        decreases n - i,
    {
        let rule = &rules.reject_children[i];
        match &rule.parameters {
            ParametersPerKind::RejectIfChildrenDirectoriesArePresent(names) => {
                if names_fire(snap, names, target, plen) {
                    return false;
                }
            },
            _ => {
                proof {
                    assert(false);
                }
            },
        }
        i += 1;
    }
    true
}

/// Evaluates the accept-children rules on the directory named by the first
/// `plen` segments of `target`, given the inherited subtree state.
fn eval_accept_children(
    snap: &Snapshot,
    rules: &RulesByKind,
    inherited: Option<bool>,
    target: &Vec<String>,
    plen: usize,
) -> (r: Option<bool>)
    requires
        snap.wf(),
        rules.wf(),
        plen <= target@.len(),
    ensures
        r == accept_children_state(*snap, *rules, inherited, target.deep_view().take(plen as int)),
{
    let ghost p = target.deep_view().take(plen as int);
    let n = rules.accept_children.len();
    if n == 0 {
        return inherited;
    }
    let mut i: usize = 0;
    while i < n
        invariant
            0 <= i <= n,
            n == rules.accept_children@.len(),
            snap.wf(),
            rules.wf(),
            plen <= target@.len(),
            p == target.deep_view().take(plen as int),
            forall|b: int|
                0 <= b < i ==> !children_fire(
                    *snap,
                    (#[trigger] rules.accept_children@[b]).child_names(),
                    p,
                ),
        decreases n - i,
    {
        let rule = &rules.accept_children[i];
        match &rule.parameters {
            ParametersPerKind::AcceptIfChildrenDirectoriesArePresent(names) => {
                if names_fire(snap, names, target, plen) {
                    return Some(true);
                }
            },
            _ => {
                proof {
                    assert(false);
                }
            },
        }
        i += 1;
    }
    if inherited.is_none() {
        Some(false)
    } else {
        inherited
    }
}

/// Computes the walk state of the directory named by the first `upto`
/// segments of `target`, iterating down from the root.
#[verifier::rlimit(100)]
#[verifier::spinoff_prover]
fn dir_state_exec(snap: &Snapshot, rules: &RulesByKind, target: &Vec<String>, upto: usize) -> (r:
    Option<Option<bool>>)
    requires
        snap.wf(),
        rules.wf(),
        upto <= target@.len(),
    ensures
        r == dir_state(*snap, *rules, target.deep_view().take(upto as int)),
{
    let ghost dv = target.deep_view();
    proof {
        assert(dv.len() == target@.len());
        assert(dv.take(0) =~= Seq::<Seq<char>>::empty());
    }
    let mut st: Option<Option<bool>> = Some(Option::<bool>::None);
    let mut full = String::from_str(snap.root_path.as_str());
    let mut k: usize = 0;
    while k < upto
        invariant
            0 <= k <= upto,
            upto <= target@.len(),
            snap.wf(),
            rules.wf(),
            dv == target.deep_view(),
            dv.len() == target@.len(),
            full@ == join_path(snap.root_path@, dv.take(k as int)),
            st == dir_state(*snap, *rules, dv.take(k as int)),
        decreases upto - k,
    {
        let ghost tk = dv.take(k as int);
        let ghost tk1 = dv.take(k as int + 1);
        proof {
            assert(tk1.drop_last() =~= tk);
            assert(tk1.last() == dv[k as int]);
            assert(dv[k as int] == target@[k as int]@);
        }
        full.append("/");
        full.append(target[k].as_str());
        proof {
            reveal_strlit("/");
            assert(full@ =~= join_path(snap.root_path@, tk1));
        }
        st = match st {
            Option::None => Option::None,
            Option::Some(inh) => {
                match find_entry_prefix(snap, target, k + 1) {
                    Option::None => Option::None,
                    Option::Some(j) => {
                        proof {
                            snap.lemma_entry_at_index(j as int);
                        }
                        let e = &snap.entries[j];
                        if !e.is_dir || e.is_symlink {
                            Option::None
                        } else if !eval_reject_glob(rules, full.as_str()) {
                            Option::None
                        } else if !eval_reject_children(snap, rules, target, k + 1) {
                            Option::None
                        } else {
                            Some(eval_accept_children(snap, rules, inh, target, k + 1))
                        }
                    },
                }
            },
        };
        k += 1;
    }
    st
}

/// Decides whether the snapshot entry at `idx` is directly admitted by the
/// rules.
#[verifier::rlimit(100)]
#[verifier::spinoff_prover]
fn directly_admitted_exec(snap: &Snapshot, rules: &RulesByKind, idx: usize) -> (r: bool)
    requires
        snap.wf(),
        rules.wf(),
        idx < snap.entries@.len(),
    ensures
        r == directly_admitted(*snap, *rules, snap.entries@[idx as int].rel()),
{
    let e = &snap.entries[idx];
    let ghost p = e.rel();
    proof {
        snap.lemma_entry_at_index(idx as int);
        assert(p.len() == e.rel_path@.len());
    }
    let plen = e.rel_path.len();
    proof {
        assert(e.rel_path.deep_view().take(plen as int) =~= p);
    }
    let parent_state = dir_state_exec(snap, rules, &e.rel_path, plen - 1);
    proof {
        assert(e.rel_path.deep_view().take(plen - 1) =~= p.drop_last());
    }
    match parent_state {
        Option::None => false,
        Option::Some(inh) => {
            let full = join_full_path(snap.root_path.as_str(), &e.rel_path);
            if e.is_symlink {
                return false;
            }
            if !eval_reject_glob(rules, full.as_str()) {
                return false;
            }
            if !eval_accept_glob(rules, full.as_str()) {
                return false;
            }
            if e.is_dir {
                if !eval_reject_children(snap, rules, &e.rel_path, plen) {
                    return false;
                }
                let st = eval_accept_children(snap, rules, inh, &e.rel_path, plen);
                st.is_none() || st == Some(true)
            } else {
                inh.is_none() || inh == Some(true)
            }
        },
    }
}

/// One admitted path, as returned by the walker: the absolute path, the
/// same path as segments relative to the root, and the entry's stat data.
/// The root itself is the entry with an empty segment vector.
#[derive(Clone, Debug)]
pub struct WalkEntry {
    pub path: String,
    pub rel_path: Vec<String>,
    pub is_dir: bool,
    pub metadata: FilePathMetadata,
}

impl WalkEntry {
    /// The entry's relative path as a sequence of segment views.
    pub open spec fn rel(self) -> Seq<Seq<char>> {
        self.rel_path.deep_view()
    }
}

/// The fields of a returned entry agree with the snapshot at its path.
pub open spec fn entry_matches(snap: Snapshot, w: WalkEntry) -> bool {
    &&& w.path@ == join_path(snap.root_path@, w.rel())
    &&& if w.rel().len() == 0 {
        w.is_dir && w.metadata == snap.root_metadata
    } else {
        &&& snap.has_entry(w.rel())
        &&& w.is_dir == snap.entry_of(w.rel()).is_dir
        &&& w.metadata == snap.entry_of(w.rel()).metadata
    }
}

/// Some returned entry has the relative path `p`.
pub open spec fn output_has(out: Seq<WalkEntry>, p: Seq<Seq<char>>) -> bool {
    exists|i: int| 0 <= i < out.len() && (#[trigger] out[i]).rel() == p
}

/// What `walk` guarantees of its output: every entry reflects the
/// snapshot, entries are exactly the admitted paths (plus the root when
/// requested), and the list is strictly sorted by path, hence free of
/// duplicates.
pub open spec fn walk_post(
    snap: Snapshot,
    rules: RulesByKind,
    include_root: bool,
    out: Seq<WalkEntry>,
) -> bool {
    &&& forall|i: int| 0 <= i < out.len() ==> entry_matches(snap, #[trigger] out[i])
    &&& forall|i: int|
        0 <= i < out.len() ==> ((#[trigger] out[i]).rel().len() == 0 && include_root) || admitted(
            snap,
            rules,
            out[i].rel(),
        )
    &&& forall|j: int|
        0 <= j < snap.entries@.len() && admitted(
            snap,
            rules,
            (#[trigger] snap.entries@[j]).rel(),
        ) ==> output_has(out, snap.entries@[j].rel())
    &&& (include_root ==> output_has(out, Seq::empty()))
    &&& forall|i: int, j: int|
        0 <= i < j < out.len() ==> seg_lt((#[trigger] out[i]).rel(), (#[trigger] out[j]).rel())
}

/// Walk failure: the snapshot or the rule set failed validation.
#[derive(Clone, Copy, PartialEq, Eq, Structural, Debug)]
pub enum IndexerError {
    InvalidSnapshot,
    InvalidRules,
}

/// Sorts entries with pairwise distinct relative paths into strictly
/// ascending path order.
fn sort_entries(input: Vec<WalkEntry>) -> (r: Vec<WalkEntry>)
    requires
        forall|i: int, j: int|
            0 <= i < input@.len() && 0 <= j < input@.len() && i != j ==> (
            #[trigger] input@[i]).rel() != (#[trigger] input@[j]).rel(),
    ensures
        r@.to_multiset() == input@.to_multiset(),
        r@.len() == input@.len(),
        forall|i: int, j: int|
            0 <= i < j < r@.len() ==> seg_lt((#[trigger] r@[i]).rel(), (#[trigger] r@[j]).rel()),
{
    broadcast use vstd::seq_lib::group_to_multiset_ensures;

    let ghost orig = input@;
    let mut rem = input;
    let mut out: Vec<WalkEntry> = Vec::new();
    proof {
        assert(out@.to_multiset().add(rem@.to_multiset()) =~= orig.to_multiset());
    }
    while rem.len() > 0
        invariant
            out@.len() + rem@.len() == orig.len(),
            out@.to_multiset().add(rem@.to_multiset()) == orig.to_multiset(),
            forall|i: int, j: int|
                0 <= i < j < out@.len() ==> seg_lt(
                    (#[trigger] out@[i]).rel(),
                    (#[trigger] out@[j]).rel(),
                ),
            forall|i: int, j: int|
                0 <= i < out@.len() && 0 <= j < rem@.len() ==> seg_lt(
                    (#[trigger] out@[i]).rel(),
                    (#[trigger] rem@[j]).rel(),
                ),
            forall|i: int, j: int|
                0 <= i < rem@.len() && 0 <= j < rem@.len() && i != j ==> (
                #[trigger] rem@[i]).rel() != (#[trigger] rem@[j]).rel(),
        decreases rem@.len(),
    {
        // select the least remaining entry
        let mut min: usize = 0;
        let mut t: usize = 1;
        while t < rem.len()
            invariant
                0 <= min < t <= rem@.len(),
                rem@.len() > 0,
                forall|k: int|
                    0 <= k < t && k != min ==> seg_lt(
                        rem@[min as int].rel(),
                        (#[trigger] rem@[k]).rel(),
                    ),
                forall|i: int, j: int|
                    0 <= i < rem@.len() && 0 <= j < rem@.len() && i != j ==> (
                    #[trigger] rem@[i]).rel() != (#[trigger] rem@[j]).rel(),
            decreases rem@.len() - t,
        {
            let c = crate::strutil::seg_cmp(&rem[t].rel_path, &rem[min].rel_path);
            if c < 0 {
                proof {
                    assert forall|k: int| 0 <= k < t + 1 && k != t as int implies seg_lt(
                        rem@[t as int].rel(),
                        (#[trigger] rem@[k]).rel(),
                    ) by {
                        if k == min as int {
                        } else {
                            crate::strutil::lemma_seg_lt_trans(
                                rem@[t as int].rel(),
                                rem@[min as int].rel(),
                                rem@[k].rel(),
                            );
                        }
                    }
                }
                min = t;
            } else {
                proof {
                    if c == 0 {
                        assert(rem@[t as int].rel() == rem@[min as int].rel());
                        assert(false);
                    }
                }
            }
            t += 1;
        }
        let ghost old_rem = rem@;
        let ghost old_out = out@;
        let m = rem.remove(min);
        proof {
            assert(rem@ == old_rem.remove(min as int));
            assert(m == old_rem[min as int]);
            old_rem.to_multiset_ensures();
            assert(old_rem.remove(min as int).to_multiset() =~= old_rem.to_multiset().remove(m));
            assert(rem@.to_multiset() =~= old_rem.to_multiset().remove(m));
            assert forall|j: int| 0 <= j < rem@.len() implies seg_lt(
                m.rel(),
                (#[trigger] rem@[j]).rel(),
            ) by {
                if j < min as int {
                    assert(rem@[j] == old_rem[j]);
                } else {
                    assert(rem@[j] == old_rem[j + 1]);
                }
            }
            assert forall|i: int, j: int|
                0 <= i < rem@.len() && 0 <= j < rem@.len() && i != j implies (
            #[trigger] rem@[i]).rel() != (#[trigger] rem@[j]).rel() by {
                let oi = if i < min as int {
                    i
                } else {
                    i + 1
                };
                let oj = if j < min as int {
                    j
                } else {
                    j + 1
                };
                assert(rem@[i] == old_rem[oi]);
                assert(rem@[j] == old_rem[oj]);
            }
            assert forall|i: int, j: int|
                0 <= i < old_out.len() && 0 <= j < rem@.len() implies seg_lt(
                (#[trigger] old_out[i]).rel(),
                (#[trigger] rem@[j]).rel(),
            ) by {
                let oj = if j < min as int {
                    j
                } else {
                    j + 1
                };
                assert(rem@[j] == old_rem[oj]);
            }
        }
        out.push(m);
        proof {
            assert(out@ == old_out.push(m));
            old_out.to_multiset_ensures();
            assert(old_out.push(m).to_multiset() =~= old_out.to_multiset().insert(m));
            assert(out@.to_multiset() =~= old_out.to_multiset().insert(m));
            assert(out@.to_multiset().add(rem@.to_multiset()) =~= orig.to_multiset()) by {
                assert(old_rem.to_multiset().count(m) > 0) by {
                    old_rem.to_multiset_ensures();
                    assert(old_rem.contains(m));
                }
            }
            assert forall|i: int, j: int| 0 <= i < j < out@.len() implies seg_lt(
                (#[trigger] out@[i]).rel(),
                (#[trigger] out@[j]).rel(),
            ) by {
                if j < out@.len() - 1 {
                    assert(out@[i] == old_out[i] && out@[j] == old_out[j]);
                } else {
                    assert(out@[j] == m);
                    if i < out@.len() - 1 {
                        assert(out@[i] == old_out[i]);
                    }
                }
            }
        }
    }
    proof {
        assert(rem@.to_multiset() =~= Multiset::empty());
        assert(out@.to_multiset() =~= orig.to_multiset());
    }
    out
}

/// Scans for a directly admitted entry strictly below the entry at `idx`,
/// using the precomputed direct-admission flags.
fn ancestor_admitted_exec(snap: &Snapshot, rules: &RulesByKind, direct: &Vec<bool>, idx: usize) -> (r:
    bool)
    requires
        snap.wf(),
        rules.wf(),
        idx < snap.entries@.len(),
        direct@.len() == snap.entries@.len(),
        forall|b: int|
            0 <= b < snap.entries@.len() ==> direct@[b] == directly_admitted(
                *snap,
                *rules,
                (#[trigger] snap.entries@[b]).rel(),
            ),
    ensures
        r == ancestor_admitted(*snap, *rules, snap.entries@[idx as int].rel()),
{
    let e = &snap.entries[idx];
    let ghost p = e.rel();
    let n = snap.entries.len();
    let mut j: usize = 0;
    while j < n
        invariant
            0 <= j <= n,
            n == snap.entries@.len(),
            snap.wf(),
            rules.wf(),
            0 <= idx < n,
            e == &snap.entries@[idx as int],
            p == e.rel(),
            p.len() > 0,
            direct@.len() == n,
            forall|b: int|
                0 <= b < n ==> direct@[b] == directly_admitted(
                    *snap,
                    *rules,
                    (#[trigger] snap.entries@[b]).rel(),
                ),
            forall|b: int|
                0 <= b < j ==> !(p.len() < (#[trigger] snap.entries@[b]).rel().len()
                    && is_seg_prefix(p, snap.entries@[b].rel()) && directly_admitted(
                    *snap,
                    *rules,
                    snap.entries@[b].rel(),
                )),
        decreases n - j,
    {
        if direct[j] {
            if is_strict_seg_prefix(&e.rel_path, &snap.entries[j].rel_path) {
                proof {
                    assert(ancestor_admitted(*snap, *rules, p));
                }
                return true;
            }
        }
        j += 1;
    }
    false
}

/// Walks the whole snapshot: evaluates direct admission for every entry,
/// closes the admitted set under ancestors strictly below the root, adds
/// the root itself when `include_root` is set, and returns the entries
/// sorted by path. Fails exactly when the snapshot or the rules fail
/// validation.
pub fn walk(snap: &Snapshot, rules: &RulesByKind, include_root: bool) -> (r: Result<
    Vec<WalkEntry>,
    IndexerError,
>)
    ensures
        (snap.wf() && rules.wf()) == (r is Ok),
        r matches Ok(out) ==> walk_post(*snap, *rules, include_root, out@),
{
    if !snap.is_wf() {
        return Err(IndexerError::InvalidSnapshot);
    }
    if !rules.is_wf() {
        return Err(IndexerError::InvalidRules);
    }
    let n = snap.entries.len();
    let mut direct: Vec<bool> = Vec::new();
    let mut idx: usize = 0;
    while idx < n
        invariant
            0 <= idx <= n,
            n == snap.entries@.len(),
            snap.wf(),
            rules.wf(),
            direct@.len() == idx,
            forall|b: int|
                0 <= b < idx ==> direct@[b] == directly_admitted(
                    *snap,
                    *rules,
                    (#[trigger] snap.entries@[b]).rel(),
                ),
        decreases n - idx,
    {
        let d = directly_admitted_exec(snap, rules, idx);
        direct.push(d);
        idx += 1;
    }
    let mut out: Vec<WalkEntry> = Vec::new();
    let mut idx: usize = 0;
    while idx < n
        invariant
            0 <= idx <= n,
            n == snap.entries@.len(),
            snap.wf(),
            rules.wf(),
            direct@.len() == n,
            forall|b: int|
                0 <= b < n ==> direct@[b] == directly_admitted(
                    *snap,
                    *rules,
                    (#[trigger] snap.entries@[b]).rel(),
                ),
            forall|i: int| 0 <= i < out@.len() ==> entry_matches(*snap, #[trigger] out@[i]),
            forall|i: int|
                0 <= i < out@.len() ==> (#[trigger] out@[i]).rel().len() > 0 && admitted(
                    *snap,
                    *rules,
                    out@[i].rel(),
                ),
            forall|j: int|
                0 <= j < idx && admitted(*snap, *rules, (#[trigger] snap.entries@[j]).rel())
                    ==> output_has(out@, snap.entries@[j].rel()),
            forall|i: int, j: int|
                0 <= i < out@.len() && 0 <= j < out@.len() && i != j ==> (
                #[trigger] out@[i]).rel() != (#[trigger] out@[j]).rel(),
            forall|i: int|
                0 <= i < out@.len() ==> exists|b: int|
                    0 <= b < idx && (#[trigger] out@[i]).rel() == snap.entries@[b].rel(),
        decreases n - idx,
    {
        let e = &snap.entries[idx];
        let ghost p = e.rel();
        proof {
            snap.lemma_entry_at_index(idx as int);
        }
        let adm = direct[idx] || ancestor_admitted_exec(snap, rules, &direct, idx);
        if adm {
            let full = join_full_path(snap.root_path.as_str(), &e.rel_path);
            let rel_copy = e.rel_path.clone();
            proof {
                assert(rel_copy.deep_view() =~= e.rel_path.deep_view()) by {
                    assert(forall|k: int|
                        0 <= k < e.rel_path@.len() ==> rel_copy@[k] == #[trigger] e.rel_path@[k]);
                }
            }
            let w = WalkEntry {
                path: full,
                rel_path: rel_copy,
                is_dir: e.is_dir,
                metadata: e.metadata,
            };
            let ghost old_out = out@;
            out.push(w);
            proof {
                assert(w.rel() == p);
                assert(entry_matches(*snap, w));
                assert forall|j2: int|
                    0 <= j2 < idx + 1 && admitted(
                        *snap,
                        *rules,
                        (#[trigger] snap.entries@[j2]).rel(),
                    ) implies output_has(out@, snap.entries@[j2].rel()) by {
                    if j2 < idx as int {
                        assert(output_has(old_out, snap.entries@[j2].rel()));
                        let w2 = choose|i2: int|
                            0 <= i2 < old_out.len() && (#[trigger] old_out[i2]).rel()
                                == snap.entries@[j2].rel();
                        assert(out@[w2].rel() == snap.entries@[j2].rel());
                    } else {
                        assert(out@[out@.len() - 1].rel() == p);
                    }
                }
            }
        } else {
            proof {
                assert(!admitted(*snap, *rules, p));
                assert forall|j2: int|
                    0 <= j2 < idx + 1 && admitted(
                        *snap,
                        *rules,
                        (#[trigger] snap.entries@[j2]).rel(),
                    ) implies output_has(out@, snap.entries@[j2].rel()) by {}
            }
        }
        idx += 1;
    }
    let ghost collected = out@;
    if include_root {
        let w = WalkEntry {
            path: snap.root_path.clone(),
            rel_path: Vec::new(),
            is_dir: true,
            metadata: snap.root_metadata,
        };
        proof {
            assert(w.rel() =~= Seq::<Seq<char>>::empty());
            assert(w.path@ == join_path(snap.root_path@, w.rel()));
        }
        out.push(w);
        proof {
            assert(out@[out@.len() - 1].rel().len() == 0);
            assert(output_has(out@, Seq::empty()));
            assert(entry_matches(*snap, out@[out@.len() - 1]));
        }
    }
    let ghost pre = out@;
    proof {
        assert forall|i: int, j: int|
            0 <= i < pre.len() && 0 <= j < pre.len() && i != j implies (
        #[trigger] pre[i]).rel() != (#[trigger] pre[j]).rel() by {
            if pre[i].rel().len() == 0 && pre[j].rel().len() == 0 {
                assert(include_root);
                assert(i == pre.len() - 1 || pre[i].rel().len() > 0);
                assert(false);
            }
        }
    }
    let sorted = sort_entries(out);
    proof {
        broadcast use vstd::seq_lib::group_to_multiset_ensures;

        pre.to_multiset_ensures();
        sorted@.to_multiset_ensures();

        assert forall|i: int| 0 <= i < sorted@.len() implies entry_matches(
            *snap,
            #[trigger] sorted@[i],
        ) && (sorted@[i].rel().len() == 0 && include_root || admitted(
            *snap,
            *rules,
            sorted@[i].rel(),
        )) by {
            assert(sorted@.to_multiset().count(sorted@[i]) > 0);
            assert(out@.contains(sorted@[i]));
        }
        assert forall|j: int|
            0 <= j < snap.entries@.len() && admitted(
                *snap,
                *rules,
                (#[trigger] snap.entries@[j]).rel(),
            ) implies output_has(sorted@, snap.entries@[j].rel()) by {
            assert(output_has(collected, snap.entries@[j].rel()));
            let iw = choose|iw: int|
                0 <= iw < collected.len() && (#[trigger] collected[iw]).rel()
                    == snap.entries@[j].rel();
            assert(pre[iw] == collected[iw]);
            assert(output_has(pre, snap.entries@[j].rel()));
            let i2 = choose|i2: int|
                0 <= i2 < pre.len() && (#[trigger] pre[i2]).rel() == snap.entries@[j].rel();
            assert(pre.contains(pre[i2]));
            assert(pre.to_multiset().count(pre[i2]) > 0);
            assert(sorted@.to_multiset().count(pre[i2]) > 0);
            assert(sorted@.contains(pre[i2]));
            let i3 = choose|i3: int| 0 <= i3 < sorted@.len() && sorted@[i3] == pre[i2];
            assert(sorted@[i3].rel() == snap.entries@[j].rel());
        }
        if include_root {
            assert(output_has(pre, Seq::empty()));
            let rooti = choose|i2: int|
                0 <= i2 < pre.len() && (#[trigger] pre[i2]).rel() == Seq::<Seq<char>>::empty();
            assert(pre.contains(pre[rooti]));
            assert(pre.to_multiset().count(pre[rooti]) > 0);
            assert(sorted@.to_multiset().count(pre[rooti]) > 0);
            assert(sorted@.contains(pre[rooti]));
            let i3 = choose|i3: int| 0 <= i3 < sorted@.len() && sorted@[i3] == pre[rooti];
            assert(sorted@[i3].rel() == Seq::<Seq<char>>::empty());
            assert(output_has(sorted@, Seq::empty()));
        }
    }
    Ok(sorted)
}

/// What `walk_single_dir` guarantees: exactly the admitted direct children
/// of the root, sorted by path, without the root itself.
pub open spec fn single_dir_post(snap: Snapshot, rules: RulesByKind, out: Seq<WalkEntry>) -> bool {
    &&& forall|i: int| 0 <= i < out.len() ==> entry_matches(snap, #[trigger] out[i])
    &&& forall|i: int|
        0 <= i < out.len() ==> (#[trigger] out[i]).rel().len() == 1 && directly_admitted(
            snap,
            rules,
            out[i].rel(),
        )
    &&& forall|j: int|
        0 <= j < snap.entries@.len() && (#[trigger] snap.entries@[j]).rel().len() == 1
            && directly_admitted(snap, rules, snap.entries@[j].rel()) ==> output_has(
            out,
            snap.entries@[j].rel(),
        )
    &&& forall|i: int, j: int|
        0 <= i < j < out.len() ==> seg_lt((#[trigger] out[i]).rel(), (#[trigger] out[j]).rel())
}

/// The non-recursive walk used for shallow re-indexing: only the direct
/// children of the root are considered, nothing is enqueued, and the root
/// is not returned.
pub fn walk_single_dir(snap: &Snapshot, rules: &RulesByKind) -> (r: Result<
    Vec<WalkEntry>,
    IndexerError,
>)
    ensures
        (snap.wf() && rules.wf()) == (r is Ok),
        r matches Ok(out) ==> single_dir_post(*snap, *rules, out@),
{
    if !snap.is_wf() {
        return Err(IndexerError::InvalidSnapshot);
    }
    if !rules.is_wf() {
        return Err(IndexerError::InvalidRules);
    }
    let n = snap.entries.len();
    let mut out: Vec<WalkEntry> = Vec::new();
    let mut idx: usize = 0;
    while idx < n
        invariant
            0 <= idx <= n,
            n == snap.entries@.len(),
            snap.wf(),
            rules.wf(),
            forall|i: int| 0 <= i < out@.len() ==> entry_matches(*snap, #[trigger] out@[i]),
            forall|i: int|
                0 <= i < out@.len() ==> (#[trigger] out@[i]).rel().len() == 1 && directly_admitted(
                    *snap,
                    *rules,
                    out@[i].rel(),
                ),
            forall|j: int|
                0 <= j < idx && (#[trigger] snap.entries@[j]).rel().len() == 1 && directly_admitted(
                    *snap,
                    *rules,
                    snap.entries@[j].rel(),
                ) ==> output_has(out@, snap.entries@[j].rel()),
            forall|i: int, j: int|
                0 <= i < out@.len() && 0 <= j < out@.len() && i != j ==> (
                #[trigger] out@[i]).rel() != (#[trigger] out@[j]).rel(),
            forall|i: int|
                0 <= i < out@.len() ==> exists|b: int|
                    0 <= b < idx && (#[trigger] out@[i]).rel() == snap.entries@[b].rel(),
        decreases n - idx,
    {
        let e = &snap.entries[idx];
        let ghost p = e.rel();
        proof {
            snap.lemma_entry_at_index(idx as int);
            assert(p.len() == e.rel_path@.len());
        }
        if e.rel_path.len() == 1 {
            if directly_admitted_exec(snap, rules, idx) {
                let full = join_full_path(snap.root_path.as_str(), &e.rel_path);
                let rel_copy = e.rel_path.clone();
                proof {
                    assert(rel_copy.deep_view() =~= e.rel_path.deep_view()) by {
                        assert(forall|k: int|
                            0 <= k < e.rel_path@.len() ==> rel_copy@[k] == #[trigger] e.rel_path@[k]);
                    }
                }
                let w = WalkEntry {
                    path: full,
                    rel_path: rel_copy,
                    is_dir: e.is_dir,
                    metadata: e.metadata,
                };
                let ghost old_out = out@;
                out.push(w);
                proof {
                    assert(w.rel() == p);
                    assert forall|j2: int|
                        0 <= j2 < idx + 1 && (#[trigger] snap.entries@[j2]).rel().len() == 1
                            && directly_admitted(*snap, *rules, snap.entries@[j2].rel()) implies
                        output_has(out@, snap.entries@[j2].rel()) by {
                        if j2 < idx as int {
                            assert(output_has(old_out, snap.entries@[j2].rel()));
                            let w2 = choose|i2: int|
                                0 <= i2 < old_out.len() && (#[trigger] old_out[i2]).rel()
                                    == snap.entries@[j2].rel();
                            assert(out@[w2].rel() == snap.entries@[j2].rel());
                        } else {
                            assert(out@[out@.len() - 1].rel() == p);
                        }
                    }
                }
            }
        }
        idx += 1;
    }
    let ghost pre = out@;
    let sorted = sort_entries(out);
    proof {
        broadcast use vstd::seq_lib::group_to_multiset_ensures;

        pre.to_multiset_ensures();
        sorted@.to_multiset_ensures();
        assert forall|i: int| 0 <= i < sorted@.len() implies entry_matches(
            *snap,
            #[trigger] sorted@[i],
        ) && sorted@[i].rel().len() == 1 && directly_admitted(*snap, *rules, sorted@[i].rel()) by {
            assert(sorted@.contains(sorted@[i]));
            assert(sorted@.to_multiset().count(sorted@[i]) > 0);
            assert(pre.to_multiset().count(sorted@[i]) > 0);
            assert(pre.contains(sorted@[i]));
        }
        assert forall|j: int|
            0 <= j < snap.entries@.len() && (#[trigger] snap.entries@[j]).rel().len() == 1
                && directly_admitted(*snap, *rules, snap.entries@[j].rel()) implies output_has(
            sorted@,
            snap.entries@[j].rel(),
        ) by {
            assert(output_has(pre, snap.entries@[j].rel()));
            let i2 = choose|i2: int|
                0 <= i2 < pre.len() && (#[trigger] pre[i2]).rel() == snap.entries@[j].rel();
            assert(pre.contains(pre[i2]));
            assert(pre.to_multiset().count(pre[i2]) > 0);
            assert(sorted@.to_multiset().count(pre[i2]) > 0);
            assert(sorted@.contains(pre[i2]));
            let i3 = choose|i3: int| 0 <= i3 < sorted@.len() && sorted@[i3] == pre[i2];
            assert(sorted@[i3].rel() == snap.entries@[j].rel());
        }
    }
    Ok(sorted)
}

/// Two strictly sorted entry lists with the same path membership list the
/// same paths in the same order.
proof fn lemma_sorted_unique(a: Seq<WalkEntry>, b: Seq<WalkEntry>)
    requires
        forall|i: int, j: int|
            0 <= i < j < a.len() ==> seg_lt((#[trigger] a[i]).rel(), (#[trigger] a[j]).rel()),
        forall|i: int, j: int|
            0 <= i < j < b.len() ==> seg_lt((#[trigger] b[i]).rel(), (#[trigger] b[j]).rel()),
        forall|p: Seq<Seq<char>>| output_has(a, p) == output_has(b, p),
    ensures
        a.len() == b.len(),
        forall|i: int| 0 <= i < a.len() ==> (#[trigger] a[i]).rel() == b[i].rel(),
    decreases a.len(),
{
    if a.len() == 0 {
        if b.len() > 0 {
            assert(output_has(b, b[0].rel()));
            assert(output_has(a, b[0].rel()));
            assert(false);
        }
    } else if b.len() == 0 {
        assert(output_has(a, a[0].rel()));
        assert(output_has(b, a[0].rel()));
        assert(false);
    } else {
        // the heads carry the same path
        assert(output_has(a, a[0].rel()));
        assert(output_has(b, a[0].rel()));
        let k = choose|k: int| 0 <= k < b.len() && (#[trigger] b[k]).rel() == a[0].rel();
        assert(output_has(b, b[0].rel()));
        assert(output_has(a, b[0].rel()));
        let m = choose|m: int| 0 <= m < a.len() && (#[trigger] a[m]).rel() == b[0].rel();
        if k > 0 {
            assert(seg_lt(b[0].rel(), b[k].rel()));
            if m > 0 {
                assert(seg_lt(a[0].rel(), a[m].rel()));
                crate::strutil::lemma_seg_lt_trans(a[0].rel(), b[0].rel(), a[0].rel());
                crate::strutil::lemma_seg_lt_asym(a[0].rel(), a[0].rel());
            } else {
                crate::strutil::lemma_seg_lt_asym(b[0].rel(), b[k].rel());
            }
        }
        assert(b[0].rel() == a[0].rel());
        // the tails satisfy the same hypotheses
        let at = a.drop_first();
        let bt = b.drop_first();
        assert forall|p: Seq<Seq<char>>| output_has(at, p) == output_has(bt, p) by {
            if output_has(at, p) {
                let i = choose|i: int| 0 <= i < at.len() && (#[trigger] at[i]).rel() == p;
                assert(at[i] == a[i + 1]);
                assert(seg_lt(a[0].rel(), p));
                assert(output_has(a, p));
                let j = choose|j: int| 0 <= j < b.len() && (#[trigger] b[j]).rel() == p;
                crate::strutil::lemma_seg_lt_asym(a[0].rel(), p);
                assert(j != 0);
                assert(bt[j - 1] == b[j]);
                assert(output_has(bt, p));
            }
            if output_has(bt, p) {
                let i = choose|i: int| 0 <= i < bt.len() && (#[trigger] bt[i]).rel() == p;
                assert(bt[i] == b[i + 1]);
                assert(seg_lt(b[0].rel(), p));
                assert(output_has(b, p));
                let j = choose|j: int| 0 <= j < a.len() && (#[trigger] a[j]).rel() == p;
                crate::strutil::lemma_seg_lt_asym(b[0].rel(), p);
                assert(j != 0);
                assert(at[j - 1] == a[j]);
                assert(output_has(at, p));
            }
        }
        assert forall|i: int, j: int|
            0 <= i < j < at.len() implies seg_lt((#[trigger] at[i]).rel(), (#[trigger] at[j]).rel()) by {
            assert(at[i] == a[i + 1] && at[j] == a[j + 1]);
        }
        assert forall|i: int, j: int|
            0 <= i < j < bt.len() implies seg_lt((#[trigger] bt[i]).rel(), (#[trigger] bt[j]).rel()) by {
            assert(bt[i] == b[i + 1] && bt[j] == b[j + 1]);
        }
        lemma_sorted_unique(at, bt);
        assert forall|i: int| 0 <= i < a.len() implies (#[trigger] a[i]).rel() == b[i].rel() by {
            if i > 0 {
                assert(at[i - 1] == a[i] && bt[i - 1] == b[i]);
                assert(at[i - 1].rel() == bt[i - 1].rel());
            }
        }
    }
}

/// Walker determinism: for one snapshot and one rule set, any two outputs
/// that satisfy the walk contract agree entry for entry in every
/// observable field.
pub proof fn lemma_walk_deterministic(
    snap: Snapshot,
    rules: RulesByKind,
    include_root: bool,
    out1: Seq<WalkEntry>,
    out2: Seq<WalkEntry>,
)
    requires
        walk_post(snap, rules, include_root, out1),
        walk_post(snap, rules, include_root, out2),
    ensures
        out1.len() == out2.len(),
        forall|i: int|
            0 <= i < out1.len() ==> {
                &&& (#[trigger] out1[i]).rel() == out2[i].rel()
                &&& out1[i].path@ == out2[i].path@
                &&& out1[i].is_dir == out2[i].is_dir
                &&& out1[i].metadata == out2[i].metadata
            },
{
    assert forall|p: Seq<Seq<char>>| output_has(out1, p) == output_has(out2, p) by {
        if output_has(out1, p) {
            lemma_walk_membership(snap, rules, include_root, out1, out2, p);
        }
        if output_has(out2, p) {
            lemma_walk_membership(snap, rules, include_root, out2, out1, p);
        }
    }
    lemma_sorted_unique(out1, out2);
    assert forall|i: int| 0 <= i < out1.len() implies {
        &&& (#[trigger] out1[i]).rel() == out2[i].rel()
        &&& out1[i].path@ == out2[i].path@
        &&& out1[i].is_dir == out2[i].is_dir
        &&& out1[i].metadata == out2[i].metadata
    } by {
        assert(entry_matches(snap, out1[i]));
        assert(entry_matches(snap, out2[i]));
    }
}

/// If one contract-conforming output lists `p`, so does any other.
proof fn lemma_walk_membership(
    snap: Snapshot,
    rules: RulesByKind,
    include_root: bool,
    out1: Seq<WalkEntry>,
    out2: Seq<WalkEntry>,
    p: Seq<Seq<char>>,
)
    requires
        walk_post(snap, rules, include_root, out1),
        walk_post(snap, rules, include_root, out2),
        output_has(out1, p),
    ensures
        output_has(out2, p),
{
    let i = choose|i: int| 0 <= i < out1.len() && (#[trigger] out1[i]).rel() == p;
    assert(entry_matches(snap, out1[i]));
    if p.len() == 0 {
        assert(include_root);
    } else {
        assert(admitted(snap, rules, p));
        assert(snap.has_entry(p));
        let j = choose|j: int|
            0 <= j < snap.entries@.len() && (#[trigger] snap.entries@[j]).rel() == p;
        assert(output_has(out2, snap.entries@[j].rel()));
    }
}

/// Walker dedup: a contract-conforming output lists no path twice, and the
/// parent directory of every listed path is the root or is itself listed.
pub proof fn lemma_walk_dedup_and_parents(
    snap: Snapshot,
    rules: RulesByKind,
    include_root: bool,
    out: Seq<WalkEntry>,
)
    requires
        snap.wf(),
        walk_post(snap, rules, include_root, out),
    ensures
        forall|i: int, j: int|
            0 <= i < out.len() && 0 <= j < out.len() && i != j ==> (#[trigger] out[i]).rel() != (
            #[trigger] out[j]).rel(),
        forall|i: int|
            0 <= i < out.len() && (#[trigger] out[i]).rel().len() > 1 ==> output_has(
                out,
                out[i].rel().drop_last(),
            ),
{
    assert forall|i: int, j: int|
        0 <= i < out.len() && 0 <= j < out.len() && i != j implies (#[trigger] out[i]).rel() != (
    #[trigger] out[j]).rel() by {
        if i < j {
            crate::strutil::lemma_seg_lt_asym(out[i].rel(), out[j].rel());
        } else {
            crate::strutil::lemma_seg_lt_asym(out[j].rel(), out[i].rel());
        }
    }
    assert forall|i: int|
        0 <= i < out.len() && (#[trigger] out[i]).rel().len() > 1 implies output_has(
        out,
        out[i].rel().drop_last(),
    ) by {
        let p = out[i].rel();
        let q = p.drop_last();
        assert(entry_matches(snap, out[i]));
        assert(admitted(snap, rules, p));
        // the parent path is admitted as an ancestor
        if directly_admitted(snap, rules, p) {
            let j = choose|j: int|
                0 <= j < snap.entries@.len() && (#[trigger] snap.entries@[j]).rel() == p;
            assert(is_seg_prefix(q, snap.entries@[j].rel()));
            assert(ancestor_admitted(snap, rules, q));
        } else {
            let j = choose|j: int|
                0 <= j < snap.entries@.len() && q.len() < p.len() < (
                #[trigger] snap.entries@[j]).rel().len() && is_seg_prefix(p, snap.entries@[j].rel())
                    && directly_admitted(snap, rules, snap.entries@[j].rel());
            assert(ancestor_admitted(snap, rules, p));
            let j2 = choose|j2: int|
                0 <= j2 < snap.entries@.len() && p.len() < (#[trigger] snap.entries@[j2]).rel().len()
                    && is_seg_prefix(p, snap.entries@[j2].rel()) && directly_admitted(
                    snap,
                    rules,
                    snap.entries@[j2].rel(),
                );
            assert(is_seg_prefix(q, snap.entries@[j2].rel()));
            assert(ancestor_admitted(snap, rules, q));
        }
        // and the parent path is an entry of the snapshot
        let pj = choose|pj: int|
            0 <= pj < snap.entries@.len() && (#[trigger] snap.entries@[pj]).rel() == p;
        assert(snap.has_entry(q));
        let qj = choose|qj: int|
            0 <= qj < snap.entries@.len() && (#[trigger] snap.entries@[qj]).rel() == q;
        assert(admitted(snap, rules, snap.entries@[qj].rel()));
        assert(output_has(out, snap.entries@[qj].rel()));
    }
}

/// `rules2` extends `rules1`: the accept-glob and children-present rules
/// are the same, and every reject-glob pattern of `rules1` also occurs in
/// `rules2` (which may add more).
pub open spec fn extends_reject_globs(rules1: RulesByKind, rules2: RulesByKind) -> bool {
    &&& rules2.accept_glob == rules1.accept_glob
    &&& rules2.accept_children == rules1.accept_children
    &&& rules2.reject_children == rules1.reject_children
    &&& forall|i: int|
        0 <= i < rules1.reject_glob@.len() ==> exists|j: int|
            0 <= j < rules2.reject_glob@.len() && (#[trigger] rules2.reject_glob@[j]).glob_pattern()
                == (#[trigger] rules1.reject_glob@[i]).glob_pattern()
}

proof fn lemma_reject_glob_pass_monotone(rules1: RulesByKind, rules2: RulesByKind, full: Seq<char>)
    requires
        extends_reject_globs(rules1, rules2),
        passes_reject_glob(rules2, full),
    ensures
        passes_reject_glob(rules1, full),
{
    assert forall|i: int| 0 <= i < rules1.reject_glob@.len() implies !glob_match(
        (#[trigger] rules1.reject_glob@[i]).glob_pattern(),
        full,
    ) by {
        let j = choose|j: int|
            0 <= j < rules2.reject_glob@.len() && (#[trigger] rules2.reject_glob@[j]).glob_pattern()
                == rules1.reject_glob@[i].glob_pattern();
        assert(!glob_match(rules2.reject_glob@[j].glob_pattern(), full));
    }
}

proof fn lemma_dir_state_monotone(
    snap: Snapshot,
    rules1: RulesByKind,
    rules2: RulesByKind,
    p: Seq<Seq<char>>,
)
    requires
        extends_reject_globs(rules1, rules2),
    ensures
        dir_state(snap, rules2, p) matches Some(st) ==> dir_state(snap, rules1, p) == Some(st),
    decreases p.len(),
{
    if p.len() == 0 {
    } else {
        lemma_dir_state_monotone(snap, rules1, rules2, p.drop_last());
        if dir_state(snap, rules2, p) is Some {
            let inh = dir_state(snap, rules2, p.drop_last())->0;
            assert(dir_state(snap, rules1, p.drop_last()) == Some(inh));
            lemma_reject_glob_pass_monotone(rules1, rules2, join_path(snap.root_path@, p));
            assert(reject_children_pass(snap, rules1, p) == reject_children_pass(snap, rules2, p));
            assert(accept_children_state(snap, rules1, inh, p) == accept_children_state(
                snap,
                rules2,
                inh,
                p,
            ));
        }
    }
}

proof fn lemma_directly_admitted_monotone(
    snap: Snapshot,
    rules1: RulesByKind,
    rules2: RulesByKind,
    p: Seq<Seq<char>>,
)
    requires
        extends_reject_globs(rules1, rules2),
        directly_admitted(snap, rules2, p),
    ensures
        directly_admitted(snap, rules1, p),
{
    lemma_dir_state_monotone(snap, rules1, rules2, p.drop_last());
    let inh = dir_state(snap, rules2, p.drop_last())->0;
    let full = join_path(snap.root_path@, p);
    lemma_reject_glob_pass_monotone(rules1, rules2, full);
    assert(accept_glob_ok(rules1, full) == accept_glob_ok(rules2, full));
    assert(reject_children_pass(snap, rules1, p) == reject_children_pass(snap, rules2, p));
    assert(accept_children_state(snap, rules1, inh, p) == accept_children_state(
        snap,
        rules2,
        inh,
        p,
    ));
}

/// Walker rule monotonicity: adding reject-glob rules can only shrink the
/// admitted set. Every path admitted under the extended rule set `rules2`
/// is admitted under `rules1`.
pub proof fn lemma_walk_reject_monotone(
    snap: Snapshot,
    rules1: RulesByKind,
    rules2: RulesByKind,
    p: Seq<Seq<char>>,
)
    requires
        extends_reject_globs(rules1, rules2),
        admitted(snap, rules2, p),
    ensures
        admitted(snap, rules1, p),
{
    if directly_admitted(snap, rules2, p) {
        lemma_directly_admitted_monotone(snap, rules1, rules2, p);
    } else {
        let j = choose|j: int|
            0 <= j < snap.entries@.len() && p.len() < (#[trigger] snap.entries@[j]).rel().len()
                && is_seg_prefix(p, snap.entries@[j].rel()) && directly_admitted(
                snap,
                rules2,
                snap.entries@[j].rel(),
            );
        lemma_directly_admitted_monotone(snap, rules1, rules2, snap.entries@[j].rel());
        assert(ancestor_admitted(snap, rules1, p));
    }
}

/// The output form of rule monotonicity: with the same snapshot, every
/// path a walk under the extended rules returns is also returned by a walk
/// under the original rules.
pub proof fn lemma_walk_reject_monotone_output(
    snap: Snapshot,
    rules1: RulesByKind,
    rules2: RulesByKind,
    include_root: bool,
    out1: Seq<WalkEntry>,
    out2: Seq<WalkEntry>,
)
    requires
        extends_reject_globs(rules1, rules2),
        walk_post(snap, rules1, include_root, out1),
        walk_post(snap, rules2, include_root, out2),
    ensures
        forall|p: Seq<Seq<char>>| output_has(out2, p) ==> output_has(out1, p),
{
    assert forall|p: Seq<Seq<char>>| output_has(out2, p) implies output_has(out1, p) by {
        let i = choose|i: int| 0 <= i < out2.len() && (#[trigger] out2[i]).rel() == p;
        assert(entry_matches(snap, out2[i]));
        if p.len() == 0 {
            assert(include_root);
        } else {
            assert(admitted(snap, rules2, p));
            lemma_walk_reject_monotone(snap, rules1, rules2, p);
            let j = choose|j: int|
                0 <= j < snap.entries@.len() && (#[trigger] snap.entries@[j]).rel() == p;
            assert(admitted(snap, rules1, snap.entries@[j].rel()));
            assert(output_has(out1, snap.entries@[j].rel()));
        }
    }
}

} // verus!
