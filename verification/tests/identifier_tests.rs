//! Identifier pipeline tests over an in-memory catalog and file store.

use sd_core::cas::{generate_cas_id, kind_from_extension, ObjectKind};
use sd_core::catalog::{Catalog, FilePathRecord, FilePathWhereParam, LocationRecord};
use sd_core::errors::{FilePathError, JobError};
use sd_core::file_identifier::FilePathIdCursor;
use sd_core::file_identifier_job::{
    count_orphan_file_paths, get_orphan_file_paths, orphan_path_filters, run_file_identifier_job,
    FileIdentifierJob, FileIdentifierJobInit,
};
use sd_core::shallow_file_identifier_job::{
    orphan_path_filters as shallow_orphan_path_filters, ShallowFileIdentifierJob,
    ShallowFileIdentifierJobInit,
};
use sd_core::sync::{CrdtOp, CrdtValue, SyncModel};
use sd_core::vfs::FileStore;

fn location() -> LocationRecord {
    LocationRecord { id: 1, pub_id: 11, path: "/loc".to_string() }
}

fn file_record(id: i32, name: &str, ext: &str, parent: Option<i32>) -> FilePathRecord {
    FilePathRecord {
        id,
        pub_id: 1000 + id as u128,
        location_id: 1,
        materialized_path: "/".to_string(),
        name: name.to_string(),
        extension: ext.to_string(),
        is_dir: false,
        parent_id: parent,
        object_id: None,
        cas_id: None,
        inode: 0,
        device: 0,
        size_in_bytes: 0,
        date_created: 7,
        date_modified: 7,
    }
}

fn root_record() -> FilePathRecord {
    FilePathRecord {
        id: 1,
        pub_id: 1001,
        location_id: 1,
        materialized_path: "/".to_string(),
        name: "".to_string(),
        extension: "".to_string(),
        is_dir: true,
        parent_id: None,
        object_id: None,
        cas_id: None,
        inode: 0,
        device: 0,
        size_in_bytes: 0,
        date_created: 7,
        date_modified: 7,
    }
}

fn fixture() -> (Catalog, FileStore) {
    let catalog = Catalog {
        locations: vec![location()],
        file_paths: vec![
            root_record(),
            file_record(2, "a", "txt", Some(1)),
            file_record(3, "b", "png", Some(1)),
        ],
        objects: Vec::new(),
        next_object_id: 0,
    };
    let mut files = FileStore::empty();
    assert!(files.add("/loc/a.txt".to_string(), vec![1, 2, 3]));
    assert!(files.add("/loc/b.png".to_string(), vec![9, 9]));
    (catalog, files)
}

#[test]
fn cas_id_is_a_function_of_the_bytes() {
    assert_eq!(generate_cas_id(&vec![1, 2, 3]), "be7a577751656c78");
    assert_eq!(generate_cas_id(&vec![9, 9]), "160e03188e811f6f");
    assert_eq!(generate_cas_id(&Vec::new()), "af63bd4c8601b7df");
    assert_eq!(generate_cas_id(&vec![1, 2, 3]), generate_cas_id(&vec![1, 2, 3]));
    assert_ne!(generate_cas_id(&vec![1, 2, 3]), generate_cas_id(&vec![3, 2, 1]));
}

#[test]
fn kinds_follow_the_extension_allow_list() {
    assert_eq!(kind_from_extension("png"), ObjectKind::Image);
    assert_eq!(kind_from_extension("mp4"), ObjectKind::Video);
    assert_eq!(kind_from_extension("mp3"), ObjectKind::Audio);
    assert_eq!(kind_from_extension("pdf"), ObjectKind::Document);
    assert_eq!(kind_from_extension("txt"), ObjectKind::Unknown);
    assert_eq!(ObjectKind::Image.int_value(), 2);
    assert_eq!(ObjectKind::Unknown.int_value(), 0);
}

#[test]
fn deep_orphan_filters_have_the_documented_shape() {
    let ps = orphan_path_filters(1, Some(5), &Some("/photos/".to_string()));
    assert_eq!(
        ps,
        vec![
            FilePathWhereParam::ObjectIdEquals(None),
            FilePathWhereParam::IsDirEquals(false),
            FilePathWhereParam::LocationIdEquals(1),
            FilePathWhereParam::IdGte(5),
            FilePathWhereParam::MaterializedPathStartsWith("/photos/".to_string()),
        ]
    );
    let base = orphan_path_filters(1, None, &None);
    assert_eq!(base.len(), 3);
}

#[test]
fn shallow_orphan_filters_scope_by_parent() {
    let ps = shallow_orphan_path_filters(1, Some(5), 42);
    assert_eq!(
        ps,
        vec![
            FilePathWhereParam::ObjectIdEquals(None),
            FilePathWhereParam::IsDirEquals(false),
            FilePathWhereParam::LocationIdEquals(1),
            FilePathWhereParam::ParentIdEquals(Some(42)),
            FilePathWhereParam::IdGte(5),
        ]
    );
}

#[test]
fn orphan_queries_count_and_page() {
    let (catalog, _files) = fixture();
    assert_eq!(count_orphan_file_paths(&catalog, 1, &None), 2);
    let chunk = get_orphan_file_paths(&catalog, 1, &FilePathIdCursor { file_path_id: -1 }, &None);
    assert_eq!(chunk.len(), 2);
    assert_eq!(chunk[0].id, 2);
    assert_eq!(chunk[1].id, 3);
    // the cursor filter is id >= cursor
    let from3 = get_orphan_file_paths(&catalog, 1, &FilePathIdCursor { file_path_id: 3 }, &None);
    assert_eq!(from3.len(), 1);
    assert_eq!(from3[0].id, 3);
}

#[test]
fn identifier_run_links_every_orphan_with_a_file() {
    let (mut catalog, files) = fixture();
    let job = FileIdentifierJob {};
    let init = FileIdentifierJobInit { location: location(), sub_path: None };
    let (mut state, task_count) = job.init(&catalog, &init, true).unwrap();
    assert_eq!(task_count, 1);
    assert_eq!(state.report.total_orphan_paths, 2);
    assert_eq!(state.cursor.file_path_id, 2);
    let ops = job.execute_step(&mut catalog, &files, &init, &mut state, 1).unwrap();
    // both entries got content ids and fresh Objects
    let a = &catalog.file_paths[1];
    let b = &catalog.file_paths[2];
    assert_eq!(a.cas_id.as_deref(), Some("be7a577751656c78"));
    assert_eq!(b.cas_id.as_deref(), Some("160e03188e811f6f"));
    assert!(a.object_id.is_some());
    assert!(b.object_id.is_some());
    assert_ne!(a.object_id, b.object_id);
    assert_eq!(catalog.objects.len(), 2);
    assert_eq!(state.report.total_objects_created, 2);
    assert_eq!(state.report.total_objects_linked, 0);
    // the ops mirror the writes: two cas updates, two object creations
    // with three field updates each, and two connects
    assert_eq!(ops.len(), 2 + 4 * 2 + 2);
    match &ops[0] {
        CrdtOp::SharedUpdate { model, field, .. } => {
            assert_eq!(*model, SyncModel::FilePath);
            assert_eq!(field, "cas_id");
        }
        other => panic!("unexpected first op: {:?}", other),
    }
    let (report, invalidated) = job.finalize(&state);
    assert!(invalidated);
    assert_eq!(report.unwrap().total_objects_created, 2);
}

#[test]
fn identifier_is_idempotent_once_everything_is_linked() {
    let (mut catalog, files) = fixture();
    let job = FileIdentifierJob {};
    let init = FileIdentifierJobInit { location: location(), sub_path: None };
    let (mut state, _) = job.init(&catalog, &init, true).unwrap();
    job.execute_step(&mut catalog, &files, &init, &mut state, 1).unwrap();
    let before = catalog.clone();
    // a second run finds no orphans and changes nothing
    match job.init(&catalog, &init, true) {
        Err(JobError::EarlyFinish { name, reason }) => {
            assert_eq!(name, "file_identifier");
            assert_eq!(reason, "Found no orphan file paths to process");
        }
        other => panic!("expected an early finish, got {:?}", other.is_ok()),
    }
    assert_eq!(catalog, before);
}

#[test]
fn identical_contents_share_an_object_across_runs() {
    let (mut catalog, files) = fixture();
    let job = FileIdentifierJob {};
    let init = FileIdentifierJobInit { location: location(), sub_path: None };
    let (mut state, _) = job.init(&catalog, &init, true).unwrap();
    job.execute_step(&mut catalog, &files, &init, &mut state, 1).unwrap();
    let first_object = catalog.file_paths[1].object_id;
    // a new entry whose file has the same bytes as the first one
    let mut files2 = files.clone();
    assert!(files2.add("/loc/c.txt".to_string(), vec![1, 2, 3]));
    catalog.file_paths.push(file_record(4, "c", "txt", Some(1)));
    let (mut state2, _) = job.init(&catalog, &init, true).unwrap();
    job.execute_step(&mut catalog, &files2, &init, &mut state2, 1).unwrap();
    let new_entry = &catalog.file_paths[3];
    assert_eq!(new_entry.cas_id.as_deref(), Some("be7a577751656c78"));
    assert_eq!(new_entry.object_id, first_object);
    assert_eq!(state2.report.total_objects_linked, 1);
    assert_eq!(state2.report.total_objects_created, 0);
    assert_eq!(catalog.objects.len(), 2);
}

#[test]
fn entries_without_a_file_are_dropped_from_the_step() {
    let (mut catalog, files) = fixture();
    catalog.file_paths.push(file_record(4, "missing", "txt", Some(1)));
    let job = FileIdentifierJob {};
    let init = FileIdentifierJobInit { location: location(), sub_path: None };
    let (mut state, _) = job.init(&catalog, &init, true).unwrap();
    assert_eq!(state.report.total_orphan_paths, 3);
    job.execute_step(&mut catalog, &files, &init, &mut state, 1).unwrap();
    let dropped = &catalog.file_paths[3];
    assert_eq!(dropped.cas_id, None);
    assert_eq!(dropped.object_id, None);
    assert_eq!(state.report.total_objects_created, 2);
}

#[test]
fn deep_job_rejects_a_malformed_sub_path() {
    let (catalog, _files) = fixture();
    let job = FileIdentifierJob {};
    let init = FileIdentifierJobInit {
        location: location(),
        sub_path: Some("photos".to_string()),
    };
    match job.init(&catalog, &init, true) {
        Err(JobError::FilePath(FilePathError::SubPathNotInLocation(p))) => {
            assert_eq!(p, "photos");
        }
        other => panic!("expected a sub-path error, got ok={}", other.is_ok()),
    }
    let init2 = FileIdentifierJobInit {
        location: location(),
        sub_path: Some("/photos/".to_string()),
    };
    match job.init(&catalog, &init2, false) {
        Err(JobError::FilePath(FilePathError::SubPathNotDirectory(_))) => {}
        other => panic!("expected a not-a-directory error, got ok={}", other.is_ok()),
    }
}

#[test]
fn shallow_job_identifies_direct_children_of_the_root() {
    let (mut catalog, files) = fixture();
    let job = ShallowFileIdentifierJob {};
    let init = ShallowFileIdentifierJobInit { location: location(), sub_path: "".to_string() };
    let (mut state, task_count) = job.init(&catalog, &init, true).unwrap();
    assert_eq!(task_count, 1);
    assert_eq!(state.sub_path_id, 1);
    assert_eq!(state.report.total_orphan_paths, 2);
    job.execute_step(&mut catalog, &files, &init, &mut state, 1).unwrap();
    assert!(catalog.file_paths[1].object_id.is_some());
    assert!(catalog.file_paths[2].object_id.is_some());
    let (report, invalidated) = job.finalize(&state);
    assert!(invalidated);
    assert_eq!(report.unwrap().total_objects_created, 2);
}

#[test]
fn shallow_job_skips_deeper_descendants() {
    let (mut catalog, files) = fixture();
    // a sub-directory with its own child
    let mut subdir = root_record();
    subdir.id = 4;
    subdir.pub_id = 1004;
    subdir.name = "photos".to_string();
    subdir.parent_id = Some(1);
    catalog.file_paths.push(subdir);
    let mut nested = file_record(5, "deep", "txt", Some(4));
    nested.materialized_path = "/photos/".to_string();
    catalog.file_paths.push(nested);
    let mut files = files;
    assert!(files.add("/loc/photos/deep.txt".to_string(), vec![5]));
    let job = ShallowFileIdentifierJob {};
    let init = ShallowFileIdentifierJobInit { location: location(), sub_path: "".to_string() };
    let (mut state, _) = job.init(&catalog, &init, true).unwrap();
    // only the two direct children of the root are orphans in scope
    assert_eq!(state.report.total_orphan_paths, 2);
    job.execute_step(&mut catalog, &files, &init, &mut state, 1).unwrap();
    assert_eq!(catalog.file_paths[4].object_id, None);
}

#[test]
fn object_pub_ids_are_fresh_uuids() {
    let (mut catalog, files) = fixture();
    let job = FileIdentifierJob {};
    let init = FileIdentifierJobInit { location: location(), sub_path: None };
    let (mut state, _) = job.init(&catalog, &init, true).unwrap();
    job.execute_step(&mut catalog, &files, &init, &mut state, 1).unwrap();
    assert_eq!(catalog.objects.len(), 2);
    assert_ne!(catalog.objects[0].pub_id, catalog.objects[1].pub_id);
    assert_ne!(catalog.objects[0].pub_id, 0);
}

#[test]
fn full_run_links_everything_and_is_idempotent() {
    let (mut catalog, files) = fixture();
    let init = FileIdentifierJobInit { location: location(), sub_path: None };
    let (report, ops, invalidated) =
        run_file_identifier_job(&mut catalog, &files, &init, true).unwrap();
    assert!(invalidated);
    assert_eq!(report.total_orphan_paths, 2);
    assert_eq!(report.total_objects_created + report.total_objects_linked, 2);
    assert!(!ops.is_empty());
    assert_eq!(count_orphan_file_paths(&catalog, 1, &None), 0);
    // the second run finds nothing to do and leaves the catalog alone
    let before = catalog.clone();
    match run_file_identifier_job(&mut catalog, &files, &init, true) {
        Err(JobError::EarlyFinish { .. }) => {}
        other => panic!("expected an early finish, ok={}", other.is_ok()),
    }
    assert_eq!(catalog, before);
    assert_eq!(catalog.objects.len(), 2);
}

#[test]
fn step_ops_follow_the_phase_order() {
    let (mut catalog, files) = fixture();
    let job = FileIdentifierJob {};
    let init = FileIdentifierJobInit { location: location(), sub_path: None };
    let (mut state, _) = job.init(&catalog, &init, true).unwrap();
    let ops = job.execute_step(&mut catalog, &files, &init, &mut state, 1).unwrap();
    // two cas updates, two create groups of four, two connects
    assert_eq!(ops.len(), 12);
    for (t, pub_id, cas) in [(0, 1002u128, "be7a577751656c78"), (1, 1003, "160e03188e811f6f")] {
        match &ops[t] {
            CrdtOp::SharedUpdate { model, record_pub_id, field, value } => {
                assert_eq!(*model, SyncModel::FilePath);
                assert_eq!(*record_pub_id, pub_id);
                assert_eq!(field, "cas_id");
                assert_eq!(*value, CrdtValue::Text(cas.to_string()));
            }
            other => panic!("expected a cas update, got {:?}", other),
        }
    }
    for (u, obj) in catalog.objects.iter().enumerate() {
        let base = 2 + 4 * u;
        match &ops[base] {
            CrdtOp::SharedCreate { model, record_pub_id } => {
                assert_eq!(*model, SyncModel::Object);
                assert_eq!(*record_pub_id, obj.pub_id);
            }
            other => panic!("expected a create, got {:?}", other),
        }
        let expected = [
            ("date_created", CrdtValue::Number(7)),
            ("kind", CrdtValue::Number(obj.kind as i64)),
            ("size_in_bytes", CrdtValue::Text(obj.size_in_bytes.to_string())),
        ];
        for (s, (f, v)) in expected.iter().enumerate() {
            match &ops[base + 1 + s] {
                CrdtOp::SharedUpdate { model, record_pub_id, field, value } => {
                    assert_eq!(*model, SyncModel::Object);
                    assert_eq!(*record_pub_id, obj.pub_id);
                    assert_eq!(field, f);
                    assert_eq!(value, v);
                }
                other => panic!("expected a field update, got {:?}", other),
            }
        }
    }
    for (u, (fp_pub, obj)) in [(0usize, 1002u128), (1, 1003)]
        .iter()
        .zip(catalog.objects.iter())
        .enumerate()
    {
        match &ops[10 + u] {
            CrdtOp::SharedUpdate { model, record_pub_id, field, value } => {
                assert_eq!(*model, SyncModel::FilePath);
                assert_eq!(*record_pub_id, fp_pub.1);
                assert_eq!(field, "object");
                assert_eq!(*value, CrdtValue::Id(obj.pub_id));
            }
            other => panic!("expected a connect, got {:?}", other),
        }
    }
}

#[test]
fn shallow_init_early_finishes_only_without_orphans() {
    let (mut catalog, files) = fixture();
    // link everything first through the shallow job
    let job = ShallowFileIdentifierJob {};
    let init = ShallowFileIdentifierJobInit { location: location(), sub_path: "".to_string() };
    let (mut state, _) = job.init(&catalog, &init, true).unwrap();
    job.execute_step(&mut catalog, &files, &init, &mut state, 1).unwrap();
    // now the root has no orphan children left
    match job.init(&catalog, &init, true) {
        Err(JobError::EarlyFinish { name, reason }) => {
            assert_eq!(name, "shallow_file_identifier");
            assert_eq!(reason, "Found no orphan file paths to process");
        }
        other => panic!("expected an early finish, ok={}", other.is_ok()),
    }
}
