//! The file-identifier pipeline: assembling metadata for orphan catalog
//! entries, writing their content-addressed ids, and linking them to
//! existing or newly created Objects. Every catalog mutation is mirrored
//! as a CRDT operation on the synchronization channel.

use vstd::prelude::*;

use crate::cas::{cas_of, generate_cas_id, kind_from_extension, kind_of_extension, ObjectKind};
use crate::catalog::{
    filter_matches, filtered, filters_match, find_fp_index, lemma_filtered_prefix,
    lemma_filtered_sorted, lemma_filtered_sound, Catalog, FilePathRecord, FilePathWhereParam,
    LocationRecord, ObjectRecord,
};
use crate::errors::{FilePathError, JobError};
use crate::strutil::{str_concat, u64_to_dec};
use crate::sync::{CrdtOp, CrdtValue, SyncModel};
use crate::vfs::FileStore;

verus! {

/// The jobs process orphans in chunks of this many entries.
pub const CHUNK_SIZE: usize = 100;

/// The errors of the identifier jobs' own argument handling, wrapped into
/// job errors where a run ends.
#[derive(Clone, PartialEq, Eq, Debug)]
pub enum FileIdentifierJobError {
    FilePathError(FilePathError),
}

impl FileIdentifierJobError {
    /// The job error a run surfaces this error as.
    pub fn into_job_error(self) -> (r: JobError)
        ensures
            self matches FileIdentifierJobError::FilePathError(e) && r == JobError::FilePath(e),
    {
        match self {
            FileIdentifierJobError::FilePathError(e) => JobError::FilePath(e),
        }
    }
}

/// The smallest entry id not yet processed by a job.
#[derive(Clone, Copy, PartialEq, Eq, Structural, Debug)]
pub struct FilePathIdCursor {
    pub file_path_id: i32,
}

/// The counters a finished identifier run reports.
#[derive(Clone, PartialEq, Eq, Debug)]
pub struct FileIdentifierReport {
    pub location_path: String,
    pub total_orphan_paths: usize,
    pub total_objects_created: usize,
    pub total_objects_linked: usize,
    pub total_objects_ignored: usize,
}

impl FileIdentifierReport {
    /// A zeroed report for the given location path.
    pub fn new(location_path: String) -> (r: FileIdentifierReport)
        ensures
            r.location_path == location_path,
            r.total_orphan_paths == 0,
            r.total_objects_created == 0,
            r.total_objects_linked == 0,
            r.total_objects_ignored == 0,
    {
        FileIdentifierReport {
            location_path,
            total_orphan_paths: 0,
            total_objects_created: 0,
            total_objects_linked: 0,
            total_objects_ignored: 0,
        }
    }
}

/// The metadata assembled for one file on disk.
#[derive(Clone, PartialEq, Eq, Debug)]
pub struct FileMetadata {
    pub cas_id: String,
    pub kind: ObjectKind,
    pub size_in_bytes: u64,
}

/// The absolute on-disk path of a file entry: the location path, the
/// entry's materialized path and name, and its dotted extension when one
/// is present.
pub open spec fn abs_file_path(location: LocationRecord, fp: FilePathRecord) -> Seq<char> {
    location.path@ + fp.materialized_path@ + fp.name@ + (if fp.extension@.len() > 0 {
        seq!['.'] + fp.extension@
    } else {
        Seq::empty()
    })
}

/// Whether metadata assembly succeeds for the entry: its file is on disk.
pub open spec fn file_assembles(files: FileStore, location: LocationRecord, fp: FilePathRecord) -> bool {
    files.has_file(abs_file_path(location, fp))
}

/// The content-addressed id assembly yields for the entry.
pub open spec fn assembled_cas(files: FileStore, location: LocationRecord, fp: FilePathRecord) -> Seq<
    char,
> {
    cas_of(files.file_at(abs_file_path(location, fp)))
}

/// Builds the absolute on-disk path of a file entry.
pub fn build_abs_file_path(location: &LocationRecord, fp: &FilePathRecord) -> (r: String)
    ensures
        r@ == abs_file_path(*location, *fp),
{
    let mut s = str_concat(location.path.as_str(), fp.materialized_path.as_str());
    s.append(fp.name.as_str());
    if fp.extension.as_str().unicode_len() > 0 {
        s.append(".");
        s.append(fp.extension.as_str());
        proof {
            reveal_strlit(".");
            assert(s@ =~= abs_file_path(*location, *fp));
        }
    } else {
        proof {
            assert(s@ =~= abs_file_path(*location, *fp));
        }
    }
    s
}

impl FileMetadata {
    /// Assembles the metadata of the file at `abs_path`: its
    /// content-addressed id, its kind by extension, and its size. Returns
    /// nothing when no such file is on disk.
    pub fn new(files: &FileStore, abs_path: &str, extension: &str) -> (r: Option<FileMetadata>)
        requires
            files.wf(),
        ensures
            r is Some <==> files.has_file(abs_path@),
            r matches Some(m) ==> {
                &&& m.cas_id@ == cas_of(files.file_at(abs_path@))
                &&& m.kind == kind_of_extension(extension@)
                &&& m.size_in_bytes == files.file_at(abs_path@).len()
            },
    {
        match files.lookup(abs_path) {
            Some(contents) => {
                let cas_id = generate_cas_id(contents);
                let kind = kind_from_extension(extension);
                Some(FileMetadata { cas_id, kind, size_in_bytes: contents.len() as u64 })
            },
            None => None,
        }
    }
}

/// Relies on uuid::Uuid::new_v4 and uuid::Uuid::as_u128: draws a fresh
/// version-4 identifier and hands back its sixteen bytes as one integer.
/// Nothing is promised of a random value.
#[verifier::external_body]
pub(crate) fn new_object_pub_id() -> u128 {
    uuid::Uuid::new_v4().as_u128()
}

/// The CRDT operation and catalog update that connect a file path to an
/// Object, both addressed by public id.
pub fn file_path_object_connect_ops(file_path_id: i32, file_path_pub_id: u128, object_pub_id: u128) -> (r:
    (CrdtOp, ConnectUpdate))
    ensures
        r.0 is SharedUpdate,
        r.0->SharedUpdate_model == SyncModel::FilePath,
        r.0->SharedUpdate_record_pub_id == file_path_pub_id,
        r.0->SharedUpdate_field@ == "object"@,
        r.0->SharedUpdate_value == CrdtValue::Id(object_pub_id),
        r.1.file_path_id == file_path_id,
        r.1.object_pub_id == object_pub_id,
{
    let op = CrdtOp::SharedUpdate {
        model: SyncModel::FilePath,
        record_pub_id: file_path_pub_id,
        field: new_strlit_string("object"),
        value: CrdtValue::Id(object_pub_id),
    };
    (op, ConnectUpdate { file_path_id, object_pub_id })
}

/// A pending catalog update connecting a file path to an Object.
#[derive(Clone, PartialEq, Eq, Debug)]
pub struct ConnectUpdate {
    pub file_path_id: i32,
    pub object_pub_id: u128,
}

/// A `String` whose view is the given literal's view.
fn new_strlit_string(s: &str) -> (r: String)
    ensures
        r@ == s@,
{
    String::from_str(s)
}

/// Every chunk entry is one of the catalog's records.
pub open spec fn chunk_from_catalog(chunk: Seq<FilePathRecord>, fps: Seq<FilePathRecord>) -> bool {
    forall|t: int|
        0 <= t < chunk.len() ==> exists|k: int|
            0 <= k < fps.len() && (#[trigger] chunk[t]) == fps[k]
}

/// No two chunk entries share an id.
pub open spec fn distinct_ids(chunk: Seq<FilePathRecord>) -> bool {
    forall|t1: int, t2: int|
        0 <= t1 < t2 < chunk.len() ==> (#[trigger] chunk[t1]).id != (#[trigger] chunk[t2]).id
}

/// Some chunk entry has this record's id and assembles.
pub open spec fn chunk_hit(
    chunk: Seq<FilePathRecord>,
    files: FileStore,
    location: LocationRecord,
    fp: FilePathRecord,
) -> bool {
    exists|t: int|
        0 <= t < chunk.len() && (#[trigger] chunk[t]).id == fp.id && file_assembles(
            files,
            location,
            chunk[t],
        )
}

/// How many chunk entries assemble.
pub open spec fn count_assembled(
    files: FileStore,
    location: LocationRecord,
    chunk: Seq<FilePathRecord>,
) -> int
    decreases chunk.len(),
{
    if chunk.len() == 0 {
        0
    } else {
        count_assembled(files, location, chunk.drop_last()) + if file_assembles(
            files,
            location,
            chunk.last(),
        ) {
            1int
        } else {
            0int
        }
    }
}

/// The chunk entries whose file is on disk, in chunk order.
pub open spec fn assembled_entries(
    files: FileStore,
    location: LocationRecord,
    chunk: Seq<FilePathRecord>,
) -> Seq<FilePathRecord>
    decreases chunk.len(),
{
    if chunk.len() == 0 {
        Seq::empty()
    } else {
        let pre = assembled_entries(files, location, chunk.drop_last());
        if file_assembles(files, location, chunk.last()) {
            pre.push(chunk.last())
        } else {
            pre
        }
    }
}

/// There are as many assembled entries as the assembled count.
pub proof fn lemma_assembled_entries_count(
    files: FileStore,
    location: LocationRecord,
    chunk: Seq<FilePathRecord>,
)
    ensures
        assembled_entries(files, location, chunk).len() == count_assembled(files, location, chunk),
    decreases chunk.len(),
{
    if chunk.len() > 0 {
        lemma_assembled_entries_count(files, location, chunk.drop_last());
    }
}

/// When no chunk entry's file is on disk, nothing assembles.
pub proof fn lemma_count_assembled_none(
    files: FileStore,
    location: LocationRecord,
    chunk: Seq<FilePathRecord>,
)
    requires
        forall|t: int|
            0 <= t < chunk.len() ==> !file_assembles(files, location, #[trigger] chunk[t]),
    ensures
        count_assembled(files, location, chunk) == 0,
    decreases chunk.len(),
{
    if chunk.len() > 0 {
        let d = chunk.drop_last();
        assert(forall|t: int| 0 <= t < d.len() ==> d[t] == #[trigger] chunk[t]);
        lemma_count_assembled_none(files, location, d);
    }
}

/// Some Object of the catalog already carries the entry's content id.
pub open spec fn entry_has_existing_match(
    cat: Catalog,
    files: FileStore,
    location: LocationRecord,
    fp: FilePathRecord,
) -> bool {
    exists|j: int|
        0 <= j < cat.objects@.len() && cas_matches_object(
            cat,
            (#[trigger] cat.objects@[j]).id,
            assembled_cas(files, location, fp),
        )
}

/// The assembled chunk entries whose content id some Object of `cat`
/// already carries, in chunk order: the entries the match phase connects.
pub open spec fn linked_entries(
    cat: Catalog,
    files: FileStore,
    location: LocationRecord,
    chunk: Seq<FilePathRecord>,
) -> Seq<FilePathRecord>
    decreases chunk.len(),
{
    if chunk.len() == 0 {
        Seq::empty()
    } else {
        let pre = linked_entries(cat, files, location, chunk.drop_last());
        if file_assembles(files, location, chunk.last()) && entry_has_existing_match(
            cat,
            files,
            location,
            chunk.last(),
        ) {
            pre.push(chunk.last())
        } else {
            pre
        }
    }
}

/// The assembled chunk entries with no existing Object for their content
/// id, in chunk order: the entries the creation phase mints Objects for.
pub open spec fn created_entries(
    cat: Catalog,
    files: FileStore,
    location: LocationRecord,
    chunk: Seq<FilePathRecord>,
) -> Seq<FilePathRecord>
    decreases chunk.len(),
{
    if chunk.len() == 0 {
        Seq::empty()
    } else {
        let pre = created_entries(cat, files, location, chunk.drop_last());
        if file_assembles(files, location, chunk.last()) && !entry_has_existing_match(
            cat,
            files,
            location,
            chunk.last(),
        ) {
            pre.push(chunk.last())
        } else {
            pre
        }
    }
}

/// The operation that writes an entry's content id: a shared update of
/// the entry's `cas_id` field to the content id of its file.
pub open spec fn is_cas_update_op(
    op: CrdtOp,
    fp: FilePathRecord,
    files: FileStore,
    location: LocationRecord,
) -> bool {
    &&& op is SharedUpdate
    &&& op->SharedUpdate_model == SyncModel::FilePath
    &&& op->SharedUpdate_record_pub_id == fp.pub_id
    &&& op->SharedUpdate_field@ == "cas_id"@
    &&& (op->SharedUpdate_value matches CrdtValue::Text(s) && s@ == assembled_cas(
        files,
        location,
        fp,
    ))
}

/// The operation that connects an entry to the Object with this public
/// id: a shared update of the entry's `object` field.
pub open spec fn is_connect_op(op: CrdtOp, fp: FilePathRecord, object_pub_id: u128) -> bool {
    &&& op is SharedUpdate
    &&& op->SharedUpdate_model == SyncModel::FilePath
    &&& op->SharedUpdate_record_pub_id == fp.pub_id
    &&& op->SharedUpdate_field@ == "object"@
    &&& op->SharedUpdate_value == CrdtValue::Id(object_pub_id)
}

/// The operation connects the entry to the first Object of `cat` that
/// carries its content id.
pub open spec fn connects_first_match(
    cat: Catalog,
    files: FileStore,
    location: LocationRecord,
    fp: FilePathRecord,
    op: CrdtOp,
) -> bool {
    exists|j: int|
        0 <= j < cat.objects@.len() && first_match_links(
            cat,
            (#[trigger] cat.objects@[j]).id,
            assembled_cas(files, location, fp),
        ) && is_connect_op(op, fp, cat.objects@[j].pub_id)
}

/// The four operations that announce a new Object for entry `fp`: its
/// shared create, then shared updates of `date_created`, `kind` and
/// `size_in_bytes`, all addressed to the Object's public id.
pub open spec fn is_create_group(
    ops: Seq<CrdtOp>,
    base: int,
    obj: ObjectRecord,
    fp: FilePathRecord,
    files: FileStore,
    location: LocationRecord,
) -> bool {
    &&& 0 <= base
    &&& base + 4 <= ops.len()
    &&& ops[base] == (CrdtOp::SharedCreate { model: SyncModel::Object, record_pub_id: obj.pub_id })
    &&& (ops[base + 1] is SharedUpdate && ops[base + 1]->SharedUpdate_model == SyncModel::Object
        && ops[base + 1]->SharedUpdate_record_pub_id == obj.pub_id && ops[base
        + 1]->SharedUpdate_field@ == "date_created"@ && ops[base + 1]->SharedUpdate_value
        == CrdtValue::Number(fp.date_created))
    &&& (ops[base + 2] is SharedUpdate && ops[base + 2]->SharedUpdate_model == SyncModel::Object
        && ops[base + 2]->SharedUpdate_record_pub_id == obj.pub_id && ops[base
        + 2]->SharedUpdate_field@ == "kind"@ && ops[base + 2]->SharedUpdate_value
        == CrdtValue::Number(
        crate::cas::kind_int_spec(crate::cas::kind_of_extension(fp.extension@)) as i64,
    ))
    &&& (ops[base + 3] is SharedUpdate && ops[base + 3]->SharedUpdate_model == SyncModel::Object
        && ops[base + 3]->SharedUpdate_record_pub_id == obj.pub_id && ops[base
        + 3]->SharedUpdate_field@ == "size_in_bytes"@ && (ops[base + 3]->SharedUpdate_value matches
        CrdtValue::Text(s) && s@ == crate::strutil::dec_str(
        files.file_at(abs_file_path(location, fp)).len() as int,
    )))
}

/// A newly created Object row: its id as allocated, and its kind, date
/// and size taken from the entry and its file.
pub open spec fn created_object_ok(
    obj: ObjectRecord,
    fp: FilePathRecord,
    id: int,
    files: FileStore,
    location: LocationRecord,
) -> bool {
    &&& obj.id == id
    &&& obj.kind == crate::cas::kind_int_spec(crate::cas::kind_of_extension(fp.extension@))
    &&& obj.date_created == fp.date_created
    &&& obj.size_in_bytes == files.file_at(abs_file_path(location, fp)).len()
}

/// The operation list one step emits, phase by phase, and the Object rows
/// it appends: one content-id update per assembled entry in chunk order;
/// one connect per entry whose content id an Object already carried,
/// joining it to the first such Object; then, per remaining entry, the
/// new Object's create group; then the connects to the new Objects, whose
/// rows sit appended to the catalog with ids allocated in order.
pub open spec fn step_ops_description(
    old_cat: Catalog,
    new_cat: Catalog,
    files: FileStore,
    location: LocationRecord,
    chunk: Seq<FilePathRecord>,
    ops: Seq<CrdtOp>,
) -> bool {
    let aseq = assembled_entries(files, location, chunk);
    let lseq = linked_entries(old_cat, files, location, chunk);
    let cseq = created_entries(old_cat, files, location, chunk);
    let a = aseq.len() as int;
    let l = lseq.len() as int;
    let c = cseq.len() as int;
    &&& new_cat.objects@.len() == old_cat.objects@.len() + c
    &&& ops.len() == a + l + 5 * c
    &&& forall|t: int| 0 <= t < a ==> is_cas_update_op(#[trigger] ops[t], aseq[t], files, location)
    &&& forall|t: int|
        0 <= t < l ==> connects_first_match(old_cat, files, location, #[trigger] lseq[t], ops[a + t])
    &&& forall|u: int|
        0 <= u < c ==> is_create_group(
            ops,
            a + l + 4 * u,
            new_cat.objects@[old_cat.objects@.len() + u],
            #[trigger] cseq[u],
            files,
            location,
        )
    &&& forall|u: int|
        0 <= u < c ==> is_connect_op(
            ops[a + l + 4 * c + u],
            #[trigger] cseq[u],
            new_cat.objects@[old_cat.objects@.len() + u].pub_id,
        )
    &&& forall|u: int|
        0 <= u < c ==> created_object_ok(
            new_cat.objects@[old_cat.objects@.len() + u],
            #[trigger] cseq[u],
            old_cat.next_object_id + u,
            files,
            location,
        )
}

/// `n` equals `o` in every field but the content id and the Object link.
pub open spec fn only_ident_fields_changed(o: FilePathRecord, n: FilePathRecord) -> bool {
    n == FilePathRecord { cas_id: n.cas_id, object_id: n.object_id, ..o }
}

/// Some Object of the catalog has this id.
pub open spec fn object_id_exists(cat: Catalog, oid: i32) -> bool {
    exists|j: int| 0 <= j < cat.objects@.len() && (#[trigger] cat.objects@[j]).id == oid
}

/// Object `oid` is the first Object of the catalog some of whose linked
/// file paths carry the content id `cas`.
pub open spec fn first_match_links(cat: Catalog, oid: i32, cas: Seq<char>) -> bool {
    exists|j: int|
        0 <= j < cat.objects@.len() && (#[trigger] cat.objects@[j]).id == oid
            && cas_matches_object(cat, oid, cas) && (forall|j2: int|
            0 <= j2 < j ==> !cas_matches_object(cat, (#[trigger] cat.objects@[j2]).id, cas))
}

/// Some file path of the catalog links Object `oid` and carries the
/// content id `cas`.
pub open spec fn cas_matches_object(cat: Catalog, oid: i32, cas: Seq<char>) -> bool {
    exists|x: int|
        0 <= x < cat.file_paths@.len() && (#[trigger] cat.file_paths@[x]).object_id == Some(oid)
            && cat.file_paths@[x].cas_id is Some && cat.file_paths@[x].cas_id->0@ == cas
}

/// Whether some file path linking Object `oid` carries the content id
/// `cas`.
fn object_has_cas(catalog: &Catalog, oid: i32, cas: &str) -> (r: bool)
    ensures
        r == cas_matches_object(*catalog, oid, cas@),
{
    let n = catalog.file_paths.len();
    let mut x: usize = 0;
    while x < n
        invariant
            0 <= x <= n,
            n == catalog.file_paths@.len(),
            forall|b: int|
                0 <= b < x ==> !((#[trigger] catalog.file_paths@[b]).object_id == Some(oid)
                    && catalog.file_paths@[b].cas_id is Some && catalog.file_paths@[b].cas_id->0@
                    == cas@),
        decreases n - x,
    {
        let fp = &catalog.file_paths[x];
        let oid_match = match &fp.object_id {
            Some(v) => *v == oid,
            None => false,
        };
        if oid_match {
            match &fp.cas_id {
                Some(c) => {
                    if crate::strutil::str_eq(c.as_str(), cas) {
                        return true;
                    }
                },
                None => {},
            }
        }
        x += 1;
    }
    false
}

/// Finds the first Object some of whose linked file paths carry the
/// content id `cas`, returning its id and public id.
fn find_object_for_cas(catalog: &Catalog, cas: &str) -> (r: Option<(i32, u128)>)
    ensures
        match r {
            Some(p) => first_match_links(*catalog, p.0, cas@) && exists|j: int|
                0 <= j < catalog.objects@.len() && (#[trigger] catalog.objects@[j]).id == p.0
                    && catalog.objects@[j].pub_id == p.1,
            None => forall|j: int|
                0 <= j < catalog.objects@.len() ==> !cas_matches_object(
                    *catalog,
                    (#[trigger] catalog.objects@[j]).id,
                    cas@,
                ),
        },
{
    let n = catalog.objects.len();
    let mut j: usize = 0;
    while j < n
        invariant
            0 <= j <= n,
            n == catalog.objects@.len(),
            forall|b: int|
                0 <= b < j ==> !cas_matches_object(
                    *catalog,
                    (#[trigger] catalog.objects@[b]).id,
                    cas@,
                ),
        decreases n - j,
    {
        let o = &catalog.objects[j];
        if object_has_cas(catalog, o.id, cas) {
            proof {
                assert(first_match_links(*catalog, o.id, cas@));
            }
            return Some((o.id, o.pub_id));
        }
        j += 1;
    }
    None
}

/// One identifier step over a chunk of orphan entries, in four phases:
/// metadata is assembled for every entry whose file is on disk (the rest
/// are dropped), content ids are written, entries whose content id some
/// Object already carries are connected to it, and the remaining entries
/// each get a newly created Object. Returns the number of Objects
/// created, the number linked to existing Objects, and the CRDT
/// operations mirroring every write, in phase order.
#[verifier::rlimit(100)]
#[verifier::spinoff_prover]
pub fn identifier_job_step(
    catalog: &mut Catalog,
    files: &FileStore,
    location: &LocationRecord,
    file_paths: &Vec<FilePathRecord>,
) -> (r: (usize, usize, Vec<CrdtOp>))
    requires
        old(catalog).wf(),
        files.wf(),
        chunk_from_catalog(file_paths@, old(catalog).file_paths@),
        distinct_ids(file_paths@),
        forall|i: int| 0 <= i < file_paths@.len() ==> (#[trigger] file_paths@[i]).object_id is None,
        old(catalog).next_object_id + file_paths@.len() <= i32::MAX,
    ensures
        step_catalog_effect(*old(catalog), *final(catalog), *files, *location, file_paths@),
        step_ops_description(
            *old(catalog),
            *final(catalog),
            *files,
            *location,
            file_paths@,
            r.2@,
        ),
        r.0 == final(catalog).objects@.len() - old(catalog).objects@.len(),
        final(catalog).next_object_id == old(catalog).next_object_id + r.0,
        r.0 + r.1 == count_assembled(*files, *location, file_paths@),
        r.2@.len() == count_assembled(*files, *location, file_paths@) + r.1 + 5 * r.0,
{
    let m = file_paths.len();
    let ghost chunk = file_paths@;
    let ghost fps0 = catalog.file_paths@;
    let n0 = catalog.file_paths.len();

    // Phase A: assemble metadata; entries without a file on disk drop out.
    let mut metas: Vec<Option<FileMetadata>> = Vec::new();
    let mut i: usize = 0;
    while i < m
        invariant
            0 <= i <= m,
            m == chunk.len(),
            chunk == file_paths@,
            files.wf(),
            metas@.len() == i,
            forall|t: int|
                0 <= t < i ==> ((#[trigger] metas@[t]) is Some <==> file_assembles(
                    *files,
                    *location,
                    chunk[t],
                )),
            forall|t: int|
                0 <= t < i ==> ((#[trigger] metas@[t]) matches Some(mm) ==> {
                    &&& mm.cas_id@ == assembled_cas(*files, *location, chunk[t])
                    &&& mm.kind == crate::cas::kind_of_extension(chunk[t].extension@)
                    &&& mm.size_in_bytes == files.file_at(
                        abs_file_path(*location, chunk[t]),
                    ).len()
                }),
        decreases m - i,
    {
        let abs = build_abs_file_path(location, &file_paths[i]);
        let meta = FileMetadata::new(files, abs.as_str(), file_paths[i].extension.as_str());
        metas.push(meta);
        i += 1;
    }

    // Phase B: write content ids, one shared update per assembled entry.
    proof {
        assert(chunk_from_catalog(chunk, fps0));
        assert(distinct_ids(chunk));
    }
    let mut ops: Vec<CrdtOp> = Vec::new();
    let mut cat_idx: Vec<usize> = Vec::new();
    let mut i: usize = 0;
    while i < m
        invariant
            0 <= i <= m,
            m == chunk.len(),
            chunk == file_paths@,
            files.wf(),
            n0 == fps0.len(),
            fps0 == old(catalog).file_paths@,
            old(catalog).wf(),
            chunk_from_catalog(chunk, fps0),
            distinct_ids(chunk),
            metas@.len() == m,
            forall|t: int|
                0 <= t < m ==> ((#[trigger] metas@[t]) is Some <==> file_assembles(
                    *files,
                    *location,
                    chunk[t],
                )),
            forall|t: int|
                0 <= t < m ==> ((#[trigger] metas@[t]) matches Some(mm) ==> mm.cas_id@
                    == assembled_cas(*files, *location, chunk[t])),
            catalog.locations == old(catalog).locations,
            catalog.objects == old(catalog).objects,
            catalog.next_object_id == old(catalog).next_object_id,
            catalog.file_paths@.len() == n0,
            forall|k: int|
                0 <= k < n0 ==> (#[trigger] catalog.file_paths@[k]) == (FilePathRecord {
                    cas_id: catalog.file_paths@[k].cas_id,
                    ..fps0[k]
                }),
            forall|k: int|
                0 <= k < n0 && chunk_hit(chunk.take(i as int), *files, *location, fps0[k]) ==> {
                    &&& (#[trigger] catalog.file_paths@[k]).cas_id is Some
                    &&& catalog.file_paths@[k].cas_id->0@ == assembled_cas(
                        *files,
                        *location,
                        fps0[k],
                    )
                },
            forall|k: int|
                0 <= k < n0 && !chunk_hit(chunk.take(i as int), *files, *location, fps0[k])
                    ==> (#[trigger] catalog.file_paths@[k]).cas_id == fps0[k].cas_id,
            cat_idx@.len() == i,
            forall|t: int|
                0 <= t < i && (#[trigger] metas@[t]) is Some ==> 0 <= cat_idx@[t] < n0 && fps0[
                    cat_idx@[t] as int
                ] == chunk[t],
            ops@.len() == count_assembled(*files, *location, chunk.take(i as int)),
            ops@.len() == assembled_entries(*files, *location, chunk.take(i as int)).len(),
            forall|t: int|
                0 <= t < ops@.len() ==> is_cas_update_op(
                    #[trigger] ops@[t],
                    assembled_entries(*files, *location, chunk.take(i as int))[t],
                    *files,
                    *location,
                ),
        decreases m - i,
    {
        let ghost tk = chunk.take(i as int);
        let ghost tk1 = chunk.take(i as int + 1);
        proof {
            assert(tk1.drop_last() =~= tk);
            assert(tk1.last() == chunk[i as int]);
        }
        let is_some = metas[i].is_some();
        if is_some {
            let fid = file_paths[i].id;
            match find_fp_index(catalog, fid) {
                Some(k) => {
                    proof {
                        assert(exists|k0: int|
                            0 <= k0 < fps0.len() && (#[trigger] chunk[i as int]) == fps0[k0]);
                        let k0 = choose|k0: int|
                            0 <= k0 < fps0.len() && (#[trigger] chunk[i as int]) == fps0[k0];
                        assert(catalog.file_paths@[k0].id == chunk[i as int].id);
                        assert(k as int == k0) by {
                            if k as int != k0 {
                                assert(fps0[k as int].id != fps0[k0].id);
                            }
                        }
                    }
                    let mut rec = catalog.file_paths.remove(k);
                    let cas_string = match &metas[i] {
                        Some(meta) => meta.cas_id.clone(),
                        None => String::new(),
                    };
                    rec.cas_id = Some(cas_string);
                    catalog.file_paths.insert(k, rec);
                    let op_pub_id = file_paths[i].pub_id;
                    let cas_for_op = match &metas[i] {
                        Some(meta) => meta.cas_id.clone(),
                        None => String::new(),
                    };
                    ops.push(
                        CrdtOp::SharedUpdate {
                            model: SyncModel::FilePath,
                            record_pub_id: op_pub_id,
                            field: new_strlit_string("cas_id"),
                            value: CrdtValue::Text(cas_for_op),
                        },
                    );
                    cat_idx.push(k);
                    proof {
                        let aseq1 = assembled_entries(*files, *location, tk1);
                        assert(aseq1 == assembled_entries(*files, *location, tk).push(
                            chunk[i as int],
                        ));
                        assert(is_cas_update_op(
                            ops@[ops@.len() - 1],
                            chunk[i as int],
                            *files,
                            *location,
                        ));
                        assert forall|t: int| 0 <= t < ops@.len() implies is_cas_update_op(
                            #[trigger] ops@[t],
                            aseq1[t],
                            *files,
                            *location,
                        ) by {
                            if t < ops@.len() - 1 {
                                assert(aseq1[t] == assembled_entries(*files, *location, tk)[t]);
                            }
                        }
                    }
                    proof {
                        assert forall|k2: int|
                            0 <= k2 < n0 && chunk_hit(tk1, *files, *location, fps0[k2]) implies {
                            &&& (#[trigger] catalog.file_paths@[k2]).cas_id is Some
                            &&& catalog.file_paths@[k2].cas_id->0@ == assembled_cas(
                                *files,
                                *location,
                                fps0[k2],
                            )
                        } by {
                            if k2 == k as int {
                                assert(fps0[k as int] == chunk[i as int]);
                            } else {
                                let t = choose|t: int|
                                    0 <= t < tk1.len() && (#[trigger] tk1[t]).id == fps0[k2].id
                                        && file_assembles(*files, *location, tk1[t]);
                                if t == i as int {
                                    assert(chunk[i as int].id == fps0[k as int].id);
                                    assert(fps0[k2].id == fps0[k as int].id);
                                    assert(k2 == k as int);
                                } else {
                                    assert(chunk_hit(tk, *files, *location, fps0[k2]));
                                }
                            }
                        }
                        assert forall|k2: int|
                            0 <= k2 < n0 && !chunk_hit(tk1, *files, *location, fps0[k2]) implies (
                        #[trigger] catalog.file_paths@[k2]).cas_id == fps0[k2].cas_id by {
                            assert(!chunk_hit(tk, *files, *location, fps0[k2]));
                            assert(k2 != k as int) by {
                                if k2 == k as int {
                                    assert(tk1[i as int].id == fps0[k as int].id);
                                    assert(file_assembles(*files, *location, tk1[i as int]));
                                }
                            }
                        }
                    }
                },
                None => {
                    proof {
                        assert(exists|k0: int|
                            0 <= k0 < fps0.len() && (#[trigger] chunk[i as int]) == fps0[k0]);
                        let k0 = choose|k0: int|
                            0 <= k0 < fps0.len() && (#[trigger] chunk[i as int]) == fps0[k0];
                        assert(catalog.file_paths@[k0].id == chunk[i as int].id);
                        assert(false);
                    }
                    cat_idx.push(0);
                },
            }
        } else {
            cat_idx.push(0);
            proof {
                assert forall|k2: int|
                    0 <= k2 < n0 && chunk_hit(tk1, *files, *location, fps0[k2]) implies chunk_hit(
                    tk,
                    *files,
                    *location,
                    fps0[k2],
                ) by {
                    let t = choose|t: int|
                        0 <= t < tk1.len() && (#[trigger] tk1[t]).id == fps0[k2].id
                            && file_assembles(*files, *location, tk1[t]);
                    assert(t != i as int);
                }
            }
        }
        i += 1;
    }
    proof {
        assert(chunk.take(m as int) =~= chunk);
    }

    // Phase C, first half: match content ids against Objects that already
    // have a linked entry with the same content id, on the state after
    // phase B.
    let mut matched: Vec<Option<(i32, u128)>> = Vec::new();
    let ghost cat_b = *catalog;
    let mut i: usize = 0;
    while i < m
        invariant
            0 <= i <= m,
            m == chunk.len(),
            *catalog == cat_b,
            metas@.len() == m,
            matched@.len() == i,
            forall|t: int|
                0 <= t < i ==> ((#[trigger] matched@[t]) matches Some(p) ==> exists|j: int|
                    0 <= j < cat_b.objects@.len() && (#[trigger] cat_b.objects@[j]).id == p.0
                        && cat_b.objects@[j].pub_id == p.1),
            forall|t: int| 0 <= t < i && (#[trigger] matched@[t]) is Some ==> metas@[t] is Some,
            forall|t: int|
                0 <= t < i ==> ((#[trigger] matched@[t]) matches Some(p) ==> metas@[t] matches Some(
                    mm,
                ) && first_match_links(cat_b, p.0, mm.cas_id@)),
            forall|t: int|
                0 <= t < i && (#[trigger] metas@[t]) is Some && matched@[t] is None ==> (forall|
                    j: int,
                |
                    0 <= j < cat_b.objects@.len() ==> !cas_matches_object(
                        cat_b,
                        (#[trigger] cat_b.objects@[j]).id,
                        metas@[t]->0.cas_id@,
                    )),
        decreases m - i,
    {
        let mut entry: Option<(i32, u128)> = None;
        match &metas[i] {
            Some(meta) => {
                entry = find_object_for_cas(catalog, meta.cas_id.as_str());
                proof {
                    match entry {
                        Option::Some(p) => {
                            assert(first_match_links(*catalog, p.0, meta.cas_id@));
                        },
                        Option::None => {},
                    }
                }
            },
            None => {},
        }
        matched.push(entry);
        i += 1;
    }

    // Phase C, second half, and phase D: connect matched entries to their
    // existing Objects; create one new Object for each of the rest, then
    // connect them. The operation lists keep the phase order.
    proof {
        // the object-and-content view of the catalog is unchanged between
        // the original state and the state the match phase read: content
        // ids were written only to entries with no Object link
        assert forall|oid: i32, c: Seq<char>|
            cas_matches_object(cat_b, oid, c) == cas_matches_object(*old(catalog), oid, c) by {
            if cas_matches_object(cat_b, oid, c) {
                let x = choose|x: int|
                    0 <= x < cat_b.file_paths@.len() && (#[trigger] cat_b.file_paths@[x]).object_id
                        == Some(oid) && cat_b.file_paths@[x].cas_id is Some
                        && cat_b.file_paths@[x].cas_id->0@ == c;
                assert(cat_b.file_paths@[x].object_id == fps0[x].object_id);
                assert(!chunk_hit(chunk, *files, *location, fps0[x])) by {
                    if chunk_hit(chunk, *files, *location, fps0[x]) {
                        let t = choose|t: int|
                            0 <= t < chunk.len() && (#[trigger] chunk[t]).id == fps0[x].id
                                && file_assembles(*files, *location, chunk[t]);
                        let k0 = choose|k0: int|
                            0 <= k0 < fps0.len() && (#[trigger] chunk[t]) == fps0[k0];
                        assert(fps0[k0].id == fps0[x].id);
                        assert(k0 == x) by {
                            if k0 < x {
                                assert(fps0[k0].id < fps0[x].id);
                            }
                            if x < k0 {
                                assert(fps0[x].id < fps0[k0].id);
                            }
                        }
                        assert(fps0[x].object_id is None);
                    }
                }
                assert(cat_b.file_paths@[x].cas_id == fps0[x].cas_id);
                assert(cas_matches_object(*old(catalog), oid, c));
            }
            if cas_matches_object(*old(catalog), oid, c) {
                let x = choose|x: int|
                    0 <= x < old(catalog).file_paths@.len() && (#[trigger] old(
                        catalog,
                    ).file_paths@[x]).object_id == Some(oid) && old(catalog).file_paths@[x].cas_id
                        is Some && old(catalog).file_paths@[x].cas_id->0@ == c;
                assert(cat_b.file_paths@[x].object_id == fps0[x].object_id);
                assert(!chunk_hit(chunk, *files, *location, fps0[x])) by {
                    if chunk_hit(chunk, *files, *location, fps0[x]) {
                        let t = choose|t: int|
                            0 <= t < chunk.len() && (#[trigger] chunk[t]).id == fps0[x].id
                                && file_assembles(*files, *location, chunk[t]);
                        let k0 = choose|k0: int|
                            0 <= k0 < fps0.len() && (#[trigger] chunk[t]) == fps0[k0];
                        assert(fps0[k0].id == fps0[x].id);
                        assert(k0 == x) by {
                            if k0 < x {
                                assert(fps0[k0].id < fps0[x].id);
                            }
                            if x < k0 {
                                assert(fps0[x].id < fps0[k0].id);
                            }
                        }
                        assert(fps0[x].object_id is None);
                    }
                }
                assert(cat_b.file_paths@[x].cas_id == fps0[x].cas_id);
                assert(cas_matches_object(cat_b, oid, c));
            }
        }
    }
    let mut ops_connect_existing: Vec<CrdtOp> = Vec::new();
    let mut ops_create: Vec<CrdtOp> = Vec::new();
    let mut ops_connect_new: Vec<CrdtOp> = Vec::new();
    let mut linked: usize = 0;
    let mut created: usize = 0;
    let ghost fps_b = catalog.file_paths@;
    let ghost objs0 = catalog.objects@;
    let ghost next0 = catalog.next_object_id;
    let mut i: usize = 0;
    while i < m
        invariant
            0 <= i <= m,
            m == chunk.len(),
            chunk == file_paths@,
            files.wf(),
            n0 == fps0.len(),
            fps0 == old(catalog).file_paths@,
            old(catalog).wf(),
            distinct_ids(chunk),
            metas@.len() == m,
            cat_idx@.len() == m,
            matched@.len() == m,
            forall|t: int|
                0 <= t < m ==> ((#[trigger] metas@[t]) is Some <==> file_assembles(
                    *files,
                    *location,
                    chunk[t],
                )),
            forall|t: int|
                0 <= t < m && (#[trigger] metas@[t]) is Some ==> 0 <= cat_idx@[t] < n0 && fps0[
                    cat_idx@[t] as int
                ] == chunk[t],
            forall|t: int|
                0 <= t < m ==> ((#[trigger] metas@[t]) matches Some(mm) ==> {
                    &&& mm.cas_id@ == assembled_cas(*files, *location, chunk[t])
                    &&& mm.kind == crate::cas::kind_of_extension(chunk[t].extension@)
                    &&& mm.size_in_bytes == files.file_at(
                        abs_file_path(*location, chunk[t]),
                    ).len()
                }),
            forall|oid: i32, c: Seq<char>|
                #[trigger] cas_matches_object(cat_b, oid, c) == cas_matches_object(
                    *old(catalog),
                    oid,
                    c,
                ),
            forall|t: int|
                0 <= t < m ==> ((#[trigger] matched@[t]) matches Some(p) ==> exists|j: int|
                    0 <= j < objs0.len() && (#[trigger] objs0[j]).id == p.0 && objs0[j].pub_id
                        == p.1),
            forall|t: int|
                0 <= t < m ==> ((#[trigger] matched@[t]) matches Some(p) ==> metas@[t] matches Some(
                    mm,
                ) && first_match_links(cat_b, p.0, mm.cas_id@)),
            forall|t: int|
                0 <= t < m && (#[trigger] metas@[t]) is Some && matched@[t] is None ==> (forall|
                    j: int,
                |
                    0 <= j < cat_b.objects@.len() ==> !cas_matches_object(
                        cat_b,
                        (#[trigger] cat_b.objects@[j]).id,
                        metas@[t]->0.cas_id@,
                    )),
            cat_b.objects@ == objs0,
            catalog.locations == old(catalog).locations,
            catalog.file_paths@.len() == n0,
            fps_b.len() == n0,
            objs0 == old(catalog).objects@,
            next0 == old(catalog).next_object_id,
            next0 + m <= i32::MAX,
            // objects grow by `created`, ids allocated in order
            catalog.objects@.len() == objs0.len() + created,
            forall|j: int| 0 <= j < objs0.len() ==> #[trigger] catalog.objects@[j] == objs0[j],
            catalog.next_object_id == next0 + created,
            created <= i,
            forall|j: int|
                objs0.len() <= j < catalog.objects@.len() ==> (#[trigger] catalog.objects@[j]).id
                    == next0 + (j - objs0.len()),
            catalog.wf(),
            // file paths: only the object link changes in this loop
            forall|k: int|
                0 <= k < n0 ==> (#[trigger] catalog.file_paths@[k]) == (FilePathRecord {
                    object_id: catalog.file_paths@[k].object_id,
                    ..fps_b[k]
                }),
            forall|t: int|
                0 <= t < i && (#[trigger] metas@[t]) is Some ==> {
                    &&& catalog.file_paths@[cat_idx@[t] as int].object_id is Some
                    &&& object_id_exists(
                        *catalog,
                        catalog.file_paths@[cat_idx@[t] as int].object_id->0,
                    )
                },
            forall|t: int|
                0 <= t < i && (#[trigger] metas@[t]) is Some ==> (matched@[t] matches Some(p)
                    ==> catalog.file_paths@[cat_idx@[t] as int].object_id == Some(p.0)),
            forall|t: int|
                0 <= t < i && (#[trigger] metas@[t]) is Some && matched@[t] is None
                    ==> catalog.file_paths@[cat_idx@[t] as int].object_id->0 >= next0,
            forall|k: int|
                (0 <= k < n0 && forall|t: int|
                    0 <= t < i ==> !((#[trigger] metas@[t]) is Some && cat_idx@[t] == k)) ==> (
                #[trigger] catalog.file_paths@[k]).object_id == fps_b[k].object_id,
            linked <= i,
            linked + created == count_assembled(*files, *location, chunk.take(i as int)),
            ops_connect_existing@.len() == linked,
            ops_create@.len() == 4 * created,
            ops_connect_new@.len() == created,
            linked_entries(*old(catalog), *files, *location, chunk.take(i as int)).len() == linked,
            created_entries(*old(catalog), *files, *location, chunk.take(i as int)).len()
                == created,
            forall|u: int|
                0 <= u < linked ==> connects_first_match(
                    *old(catalog),
                    *files,
                    *location,
                    linked_entries(*old(catalog), *files, *location, chunk.take(i as int))[u],
                    #[trigger] ops_connect_existing@[u],
                ),
            forall|u: int|
                0 <= u < created ==> is_create_group(
                    ops_create@,
                    4 * u,
                    catalog.objects@[objs0.len() + u],
                    #[trigger] created_entries(
                        *old(catalog),
                        *files,
                        *location,
                        chunk.take(i as int),
                    )[u],
                    *files,
                    *location,
                ),
            forall|u: int|
                0 <= u < created ==> is_connect_op(
                    #[trigger] ops_connect_new@[u],
                    created_entries(*old(catalog), *files, *location, chunk.take(i as int))[u],
                    catalog.objects@[objs0.len() + u].pub_id,
                ),
            forall|u: int|
                0 <= u < created ==> created_object_ok(
                    catalog.objects@[objs0.len() + u],
                    #[trigger] created_entries(
                        *old(catalog),
                        *files,
                        *location,
                        chunk.take(i as int),
                    )[u],
                    next0 + u,
                    *files,
                    *location,
                ),
        decreases m - i,
    {
        let ghost tk = chunk.take(i as int);
        let ghost tk1 = chunk.take(i as int + 1);
        proof {
            assert(tk1.drop_last() =~= tk);
            assert(tk1.last() == chunk[i as int]);
        }
        let ghost objs_head = catalog.objects@;
        let ghost fps_head = catalog.file_paths@;
        let ghost created_head = created as int;
        let ghost linked_head = linked as int;
        let ghost cd_head = ops_create@;
        let is_some = metas[i].is_some();
        if is_some {
            let k = cat_idx[i];
            let meta_kind_int;
            let meta_size;
            match &metas[i] {
                Some(meta) => {
                    meta_kind_int = meta.kind.int_value();
                    meta_size = meta.size_in_bytes;
                },
                None => {
                    meta_kind_int = 0;
                    meta_size = 0;
                },
            }
            let has_match = matched[i].is_some();
            if has_match {
                let obj_id;
                let obj_pub_id;
                match &matched[i] {
                    Some(p) => {
                        obj_id = p.0;
                        obj_pub_id = p.1;
                    },
                    None => {
                        obj_id = 0;
                        obj_pub_id = 0;
                    },
                }
                let (op, _upd) = file_path_object_connect_ops(
                    file_paths[i].id,
                    file_paths[i].pub_id,
                    obj_pub_id,
                );
                ops_connect_existing.push(op);
                let mut rec = catalog.file_paths.remove(k);
                rec.object_id = Some(obj_id);
                catalog.file_paths.insert(k, rec);
                proof {
                    assert(catalog.file_paths@ =~= fps_head.update(
                        k as int,
                        catalog.file_paths@[k as int],
                    ));
                    assert(object_id_exists(*catalog, obj_id)) by {
                        let j = choose|j: int|
                            0 <= j < objs0.len() && (#[trigger] objs0[j]).id == obj_id;
                        assert(catalog.objects@[j].id == obj_id);
                    }
                }
                proof {
                    let c = metas@[i as int]->0.cas_id@;
                    let p = matched@[i as int]->0;
                    assert(c == assembled_cas(*files, *location, chunk[i as int]));
                    assert(first_match_links(cat_b, p.0, c));
                    let j = choose|j: int|
                        0 <= j < cat_b.objects@.len() && (#[trigger] cat_b.objects@[j]).id == p.0
                            && cas_matches_object(cat_b, p.0, c) && (forall|j2: int|
                            0 <= j2 < j ==> !cas_matches_object(
                                cat_b,
                                (#[trigger] cat_b.objects@[j2]).id,
                                c,
                            ));
                    assert(cas_matches_object(*old(catalog), p.0, c));
                    assert(entry_has_existing_match(
                        *old(catalog),
                        *files,
                        *location,
                        chunk[i as int],
                    )) by {
                        assert(old(catalog).objects@[j].id == p.0);
                    }
                    assert(linked_entries(*old(catalog), *files, *location, tk1)
                        == linked_entries(*old(catalog), *files, *location, tk).push(
                        chunk[i as int],
                    ));
                    assert(created_entries(*old(catalog), *files, *location, tk1)
                        == created_entries(*old(catalog), *files, *location, tk));
                    // the pushed operation connects the first matching Object
                    assert(first_match_links(*old(catalog), p.0, c)) by {
                        assert(old(catalog).objects@[j].id == p.0);
                        assert(forall|j2: int|
                            0 <= j2 < j ==> !cas_matches_object(
                                *old(catalog),
                                (#[trigger] old(catalog).objects@[j2]).id,
                                c,
                            ));
                    }
                    let jp = choose|j3: int|
                        0 <= j3 < cat_b.objects@.len() && (#[trigger] cat_b.objects@[j3]).id == p.0
                            && cat_b.objects@[j3].pub_id == p.1;
                    assert(jp == j) by {
                        if jp != j {
                            assert(objs0[jp].id != objs0[j].id);
                        }
                    }
                    assert(is_connect_op(
                        ops_connect_existing@[linked_head],
                        chunk[i as int],
                        p.1,
                    ));
                    assert(connects_first_match(
                        *old(catalog),
                        *files,
                        *location,
                        chunk[i as int],
                        ops_connect_existing@[linked_head],
                    )) by {
                        assert(old(catalog).objects@[j].pub_id == p.1);
                    }
                    assert forall|u: int| 0 <= u < linked_head + 1 implies connects_first_match(
                        *old(catalog),
                        *files,
                        *location,
                        linked_entries(*old(catalog), *files, *location, tk1)[u],
                        #[trigger] ops_connect_existing@[u],
                    ) by {
                        if u < linked_head {
                            assert(linked_entries(*old(catalog), *files, *location, tk1)[u]
                                == linked_entries(*old(catalog), *files, *location, tk)[u]);
                        }
                    }
                }
                linked += 1;
            } else {
                let pub_id = new_object_pub_id();
                let oid = catalog.next_object_id;
                catalog.objects.push(
                    ObjectRecord {
                        id: oid,
                        pub_id: pub_id,
                        kind: meta_kind_int,
                        date_created: file_paths[i].date_created,
                        size_in_bytes: meta_size,
                    },
                );
                catalog.next_object_id = catalog.next_object_id + 1;
                ops_create.push(
                    CrdtOp::SharedCreate { model: SyncModel::Object, record_pub_id: pub_id },
                );
                ops_create.push(
                    CrdtOp::SharedUpdate {
                        model: SyncModel::Object,
                        record_pub_id: pub_id,
                        field: new_strlit_string("date_created"),
                        value: CrdtValue::Number(file_paths[i].date_created),
                    },
                );
                ops_create.push(
                    CrdtOp::SharedUpdate {
                        model: SyncModel::Object,
                        record_pub_id: pub_id,
                        field: new_strlit_string("kind"),
                        value: CrdtValue::Number(meta_kind_int as i64),
                    },
                );
                ops_create.push(
                    CrdtOp::SharedUpdate {
                        model: SyncModel::Object,
                        record_pub_id: pub_id,
                        field: new_strlit_string("size_in_bytes"),
                        value: CrdtValue::Text(u64_to_dec(meta_size)),
                    },
                );
                let (op, _upd) = file_path_object_connect_ops(
                    file_paths[i].id,
                    file_paths[i].pub_id,
                    pub_id,
                );
                ops_connect_new.push(op);
                let mut rec = catalog.file_paths.remove(k);
                rec.object_id = Some(oid);
                catalog.file_paths.insert(k, rec);
                proof {
                    assert(catalog.file_paths@ =~= fps_head.update(
                        k as int,
                        catalog.file_paths@[k as int],
                    ));
                    assert(object_id_exists(*catalog, oid)) by {
                        assert(catalog.objects@[objs0.len() + created_head].id == oid);
                    }
                }
                proof {
                    let c = metas@[i as int]->0.cas_id@;
                    assert(c == assembled_cas(*files, *location, chunk[i as int]));
                    assert(!entry_has_existing_match(
                        *old(catalog),
                        *files,
                        *location,
                        chunk[i as int],
                    )) by {
                        if entry_has_existing_match(
                            *old(catalog),
                            *files,
                            *location,
                            chunk[i as int],
                        ) {
                            let j = choose|j: int|
                                0 <= j < old(catalog).objects@.len() && cas_matches_object(
                                    *old(catalog),
                                    (#[trigger] old(catalog).objects@[j]).id,
                                    assembled_cas(*files, *location, chunk[i as int]),
                                );
                            assert(cas_matches_object(cat_b, cat_b.objects@[j].id, c));
                            assert(false);
                        }
                    }
                    assert(created_entries(*old(catalog), *files, *location, tk1)
                        == created_entries(*old(catalog), *files, *location, tk).push(
                        chunk[i as int],
                    ));
                    assert(linked_entries(*old(catalog), *files, *location, tk1)
                        == linked_entries(*old(catalog), *files, *location, tk));
                    // the appended Object row and its announcement group
                    let newobj = catalog.objects@[objs0.len() + created_head];
                    assert(created_object_ok(
                        newobj,
                        chunk[i as int],
                        next0 + created_head,
                        *files,
                        *location,
                    ));
                    assert(is_create_group(
                        ops_create@,
                        4 * created_head,
                        newobj,
                        chunk[i as int],
                        *files,
                        *location,
                    ));
                    assert(is_connect_op(
                        ops_connect_new@[created_head],
                        chunk[i as int],
                        newobj.pub_id,
                    ));
                    assert forall|u: int| 0 <= u < created_head + 1 implies is_create_group(
                        ops_create@,
                        4 * u,
                        catalog.objects@[objs0.len() + u],
                        #[trigger] created_entries(*old(catalog), *files, *location, tk1)[u],
                        *files,
                        *location,
                    ) by {
                        if u < created_head {
                            assert(created_entries(*old(catalog), *files, *location, tk1)[u]
                                == created_entries(*old(catalog), *files, *location, tk)[u]);
                            assert(catalog.objects@[objs0.len() + u] == objs_head[objs0.len()
                                + u]);
                            assert(forall|x: int|
                                0 <= x < cd_head.len() ==> #[trigger] ops_create@[x]
                                    == cd_head[x]);
                        }
                    }
                    assert forall|u: int| 0 <= u < created_head + 1 implies is_connect_op(
                        #[trigger] ops_connect_new@[u],
                        created_entries(*old(catalog), *files, *location, tk1)[u],
                        catalog.objects@[objs0.len() + u].pub_id,
                    ) by {
                        if u < created_head {
                            assert(created_entries(*old(catalog), *files, *location, tk1)[u]
                                == created_entries(*old(catalog), *files, *location, tk)[u]);
                            assert(catalog.objects@[objs0.len() + u] == objs_head[objs0.len()
                                + u]);
                        }
                    }
                    assert forall|u: int| 0 <= u < created_head + 1 implies created_object_ok(
                        catalog.objects@[objs0.len() + u],
                        #[trigger] created_entries(*old(catalog), *files, *location, tk1)[u],
                        next0 + u,
                        *files,
                        *location,
                    ) by {
                        if u < created_head {
                            assert(created_entries(*old(catalog), *files, *location, tk1)[u]
                                == created_entries(*old(catalog), *files, *location, tk)[u]);
                            assert(catalog.objects@[objs0.len() + u] == objs_head[objs0.len()
                                + u]);
                        }
                    }
                }
                created += 1;
            }
            proof {
                assert forall|t: int| 0 <= t < i + 1 && (#[trigger] metas@[t]) is Some implies {
                    &&& catalog.file_paths@[cat_idx@[t] as int].object_id is Some
                    &&& object_id_exists(
                        *catalog,
                        catalog.file_paths@[cat_idx@[t] as int].object_id->0,
                    )
                } by {
                    if t < i as int {
                        assert(cat_idx@[t] != cat_idx@[i as int]) by {
                            if cat_idx@[t] == cat_idx@[i as int] {
                                assert(fps0[cat_idx@[t] as int] == chunk[t]);
                                assert(fps0[cat_idx@[i as int] as int] == chunk[i as int]);
                                assert(chunk[t].id == chunk[i as int].id);
                            }
                        }
                        assert(catalog.file_paths@[cat_idx@[t] as int] == fps_head[
                            cat_idx@[t] as int
                        ]);
                        let oid2 = fps_head[cat_idx@[t] as int].object_id->0;
                        assert(object_id_exists(*catalog, oid2)) by {
                            let j = choose|j: int|
                                0 <= j < objs_head.len() && (#[trigger] objs_head[j]).id == oid2;
                            assert(catalog.objects@[j].id == oid2);
                        }
                    }
                }
            }
        } else {
            proof {
                assert(count_assembled(*files, *location, tk1) == count_assembled(
                    *files,
                    *location,
                    tk,
                ));
                assert(linked_entries(*old(catalog), *files, *location, tk1) == linked_entries(
                    *old(catalog),
                    *files,
                    *location,
                    tk,
                ));
                assert(created_entries(*old(catalog), *files, *location, tk1) == created_entries(
                    *old(catalog),
                    *files,
                    *location,
                    tk,
                ));
            }
        }
        i += 1;
    }
    proof {
        assert(chunk.take(m as int) =~= chunk);
    }

    // Assemble the operation list in phase order.
    let ghost ops_b = ops@;
    let ghost ce_final = ops_connect_existing@;
    let ghost cd_final = ops_create@;
    let ghost cn_final = ops_connect_new@;
    ops.append(&mut ops_connect_existing);
    ops.append(&mut ops_create);
    ops.append(&mut ops_connect_new);
    proof {
        assert(ops@ == ops_b + ce_final + cd_final + cn_final);
        let aseq = assembled_entries(*files, *location, chunk);
        let lseq = linked_entries(*old(catalog), *files, *location, chunk);
        let cseq = created_entries(*old(catalog), *files, *location, chunk);
        lemma_assembled_entries_count(*files, *location, chunk);
        let a = aseq.len() as int;
        let l = lseq.len() as int;
        let c = cseq.len() as int;
        assert(ops_b.len() == a && ce_final.len() == l && cd_final.len() == 4 * c
            && cn_final.len() == c);
        assert forall|t: int| 0 <= t < a implies is_cas_update_op(
            #[trigger] ops@[t],
            aseq[t],
            *files,
            *location,
        ) by {
            assert(ops@[t] == ops_b[t]);
        }
        assert forall|t: int| 0 <= t < l implies connects_first_match(
            *old(catalog),
            *files,
            *location,
            #[trigger] lseq[t],
            ops@[a + t],
        ) by {
            assert(ops@[a + t] == ce_final[t]);
        }
        assert forall|u: int| 0 <= u < c implies is_create_group(
            ops@,
            a + l + 4 * u,
            catalog.objects@[objs0.len() + u],
            #[trigger] cseq[u],
            *files,
            *location,
        ) by {
            assert(is_create_group(
                cd_final,
                4 * u,
                catalog.objects@[objs0.len() + u],
                cseq[u],
                *files,
                *location,
            ));
            assert(ops@[a + l + 4 * u] == cd_final[4 * u]);
            assert(ops@[a + l + 4 * u + 1] == cd_final[4 * u + 1]);
            assert(ops@[a + l + 4 * u + 2] == cd_final[4 * u + 2]);
            assert(ops@[a + l + 4 * u + 3] == cd_final[4 * u + 3]);
        }
        assert forall|u: int| 0 <= u < c implies is_connect_op(
            ops@[a + l + 4 * c + u],
            #[trigger] cseq[u],
            catalog.objects@[objs0.len() + u].pub_id,
        ) by {
            assert(ops@[a + l + 4 * c + u] == cn_final[u]);
        }
    }

    proof {
        assert forall|k: int|
            0 <= k < n0 && chunk_hit(chunk, *files, *location, fps0[k]) implies {
            let c = assembled_cas(*files, *location, fps0[k]);
            &&& (#[trigger] catalog.file_paths@[k]).cas_id is Some
            &&& catalog.file_paths@[k].cas_id->0@ == c
            &&& catalog.file_paths@[k].object_id is Some
            &&& object_id_exists(*catalog, catalog.file_paths@[k].object_id->0)
            &&& ((exists|j: int|
                0 <= j < old(catalog).objects@.len() && cas_matches_object(
                    *old(catalog),
                    (#[trigger] old(catalog).objects@[j]).id,
                    c,
                )) ==> first_match_links(
                *old(catalog),
                catalog.file_paths@[k].object_id->0,
                c,
            ))
            &&& (!(exists|j: int|
                0 <= j < old(catalog).objects@.len() && cas_matches_object(
                    *old(catalog),
                    (#[trigger] old(catalog).objects@[j]).id,
                    c,
                )) ==> catalog.file_paths@[k].object_id->0 >= old(catalog).next_object_id)
        } by {
            let c = assembled_cas(*files, *location, fps0[k]);
            let t = choose|t: int|
                0 <= t < chunk.len() && (#[trigger] chunk[t]).id == fps0[k].id && file_assembles(
                    *files,
                    *location,
                    chunk[t],
                );
            assert(metas@[t] is Some);
            assert(fps0[cat_idx@[t] as int] == chunk[t]);
            assert(cat_idx@[t] == k) by {
                if cat_idx@[t] != k {
                    assert(fps0[cat_idx@[t] as int].id != fps0[k].id) by {
                        if cat_idx@[t] < k {
                        }
                    }
                }
            }
            assert(metas@[t]->0.cas_id@ == c);
            match matched@[t] {
                Option::Some(p) => {
                    assert(first_match_links(cat_b, p.0, c));
                    let j = choose|j: int|
                        0 <= j < cat_b.objects@.len() && (#[trigger] cat_b.objects@[j]).id == p.0
                            && cas_matches_object(cat_b, p.0, c) && (forall|j2: int|
                            0 <= j2 < j ==> !cas_matches_object(
                                cat_b,
                                (#[trigger] cat_b.objects@[j2]).id,
                                c,
                            ));
                    assert(first_match_links(*old(catalog), p.0, c)) by {
                        assert(old(catalog).objects@[j].id == p.0);
                        assert(cas_matches_object(*old(catalog), p.0, c));
                        assert(forall|j2: int|
                            0 <= j2 < j ==> !cas_matches_object(
                                *old(catalog),
                                (#[trigger] old(catalog).objects@[j2]).id,
                                c,
                            ));
                    }
                },
                Option::None => {
                    assert(forall|j: int|
                        0 <= j < cat_b.objects@.len() ==> !cas_matches_object(
                            cat_b,
                            (#[trigger] cat_b.objects@[j]).id,
                            c,
                        ));
                    assert(forall|j: int|
                        0 <= j < old(catalog).objects@.len() ==> !cas_matches_object(
                            *old(catalog),
                            (#[trigger] old(catalog).objects@[j]).id,
                            c,
                        ));
                    assert(catalog.file_paths@[k].object_id->0 >= next0);
                },
            }
        }
        assert forall|k: int|
            0 <= k < n0 && !chunk_hit(chunk, *files, *location, fps0[k]) implies (
        #[trigger] catalog.file_paths@[k]) == fps0[k] by {
            assert(catalog.file_paths@[k].cas_id == fps0[k].cas_id);
            assert forall|t: int|
                0 <= t < m implies !((#[trigger] metas@[t]) is Some && cat_idx@[t] == k) by {
                if metas@[t] is Some && cat_idx@[t] == k {
                    assert(fps0[k] == chunk[t]);
                    assert(chunk[t].id == fps0[k].id);
                    assert(file_assembles(*files, *location, chunk[t]));
                    assert(chunk_hit(chunk, *files, *location, fps0[k]));
                }
            }
            assert(catalog.file_paths@[k].object_id == fps_b[k].object_id);
            assert(fps_b[k].object_id == fps0[k].object_id);
        }
    }
    (created, linked, ops)
}

/// The number of assembling entries is at most the chunk length.
pub proof fn lemma_count_assembled_bound(
    files: FileStore,
    location: LocationRecord,
    chunk: Seq<FilePathRecord>,
)
    ensures
        0 <= count_assembled(files, location, chunk) <= chunk.len(),
    decreases chunk.len(),
{
    if chunk.len() > 0 {
        lemma_count_assembled_bound(files, location, chunk.drop_last());
    }
}

/// What one identifier step does to the catalog: content ids and Object
/// links are written for exactly the chunk entries whose file is on disk,
/// nothing else changes, and Objects are only appended.
pub open spec fn step_catalog_effect(
    old_cat: Catalog,
    new_cat: Catalog,
    files: FileStore,
    location: LocationRecord,
    chunk: Seq<FilePathRecord>,
) -> bool {
    &&& new_cat.wf()
    &&& new_cat.locations == old_cat.locations
    &&& new_cat.file_paths@.len() == old_cat.file_paths@.len()
    &&& forall|k: int|
        0 <= k < old_cat.file_paths@.len() ==> only_ident_fields_changed(
            old_cat.file_paths@[k],
            #[trigger] new_cat.file_paths@[k],
        )
    &&& forall|k: int|
        0 <= k < old_cat.file_paths@.len() && chunk_hit(
            chunk,
            files,
            location,
            #[trigger] old_cat.file_paths@[k],
        ) ==> {
            let c = assembled_cas(files, location, old_cat.file_paths@[k]);
            &&& new_cat.file_paths@[k].cas_id is Some
            &&& new_cat.file_paths@[k].cas_id->0@ == c
            &&& new_cat.file_paths@[k].object_id is Some
            &&& object_id_exists(new_cat, new_cat.file_paths@[k].object_id->0)
            &&& ((exists|j: int|
                0 <= j < old_cat.objects@.len() && cas_matches_object(
                    old_cat,
                    (#[trigger] old_cat.objects@[j]).id,
                    c,
                )) ==> first_match_links(old_cat, new_cat.file_paths@[k].object_id->0, c))
            &&& (!(exists|j: int|
                0 <= j < old_cat.objects@.len() && cas_matches_object(
                    old_cat,
                    (#[trigger] old_cat.objects@[j]).id,
                    c,
                )) ==> new_cat.file_paths@[k].object_id->0 >= old_cat.next_object_id)
        }
    &&& forall|k: int|
        0 <= k < old_cat.file_paths@.len() && !chunk_hit(
            chunk,
            files,
            location,
            #[trigger] old_cat.file_paths@[k],
        ) ==> new_cat.file_paths@[k] == old_cat.file_paths@[k]
    &&& new_cat.objects@.len() >= old_cat.objects@.len()
    &&& new_cat.objects@.len() <= old_cat.objects@.len() + count_assembled(files, location, chunk)
    &&& forall|j: int|
        0 <= j < old_cat.objects@.len() ==> #[trigger] new_cat.objects@[j] == old_cat.objects@[j]
    &&& old_cat.next_object_id <= new_cat.next_object_id <= old_cat.next_object_id
        + count_assembled(files, location, chunk)
}

/// Processes one chunk: fails the whole job with an early finish when the
/// chunk is empty (the expected orphans were not returned), otherwise runs
/// the identifier step, adds its counts to the report, and advances the
/// cursor to the last row of the chunk.
pub fn process_identifier_file_paths(
    job_name: &str,
    location: &LocationRecord,
    file_paths: &Vec<FilePathRecord>,
    step_number: usize,
    cursor: &mut FilePathIdCursor,
    report: &mut FileIdentifierReport,
    catalog: &mut Catalog,
    files: &FileStore,
) -> (r: Result<Vec<CrdtOp>, JobError>)
    requires
        old(catalog).wf(),
        files.wf(),
        chunk_from_catalog(file_paths@, old(catalog).file_paths@),
        distinct_ids(file_paths@),
        forall|i: int| 0 <= i < file_paths@.len() ==> (#[trigger] file_paths@[i]).object_id is None,
        old(catalog).next_object_id + file_paths@.len() <= i32::MAX,
        old(report).total_objects_created + file_paths@.len() <= usize::MAX,
        old(report).total_objects_linked + file_paths@.len() <= usize::MAX,
    ensures
        (file_paths@.len() == 0) == (r is Err),
        r is Err ==> {
            &&& (r->Err_0 matches JobError::EarlyFinish { name, reason } && name@ == job_name@
                && reason@
                == "Expected orphan Paths not returned from database query for this chunk"@)
            &&& *final(catalog) == *old(catalog)
            &&& *final(cursor) == *old(cursor)
            &&& *final(report) == *old(report)
        },
        r is Ok ==> {
            &&& step_catalog_effect(
                *old(catalog),
                *final(catalog),
                *files,
                *location,
                file_paths@,
            )
            &&& step_ops_description(
                *old(catalog),
                *final(catalog),
                *files,
                *location,
                file_paths@,
                r->Ok_0@,
            )
            &&& final(report).total_objects_created == old(report).total_objects_created + (
            final(catalog).objects@.len() - old(catalog).objects@.len())
            &&& final(report).total_objects_created + final(report).total_objects_linked == old(
                report,
            ).total_objects_created + old(report).total_objects_linked + count_assembled(
                *files,
                *location,
                file_paths@,
            )
            &&& final(report).location_path == old(report).location_path
            &&& final(report).total_orphan_paths == old(report).total_orphan_paths
            &&& final(report).total_objects_ignored == old(report).total_objects_ignored
            &&& final(cursor).file_path_id == file_paths@[file_paths@.len() - 1].id
        },
{
    let _ = step_number;
    if file_paths.len() == 0 {
        return Err(
            JobError::EarlyFinish {
                name: String::from_str(job_name),
                reason: String::from_str(
                    "Expected orphan Paths not returned from database query for this chunk",
                ),
            },
        );
    }
    proof {
        lemma_count_assembled_bound(*files, *location, file_paths@);
    }
    let (created, linked, ops) = identifier_job_step(catalog, files, location, file_paths);
    report.total_objects_created = report.total_objects_created + created;
    report.total_objects_linked = report.total_objects_linked + linked;
    cursor.file_path_id = file_paths[file_paths.len() - 1].id;
    Ok(ops)
}

/// A copy of a report, equal to the original.
pub fn clone_report(report: &FileIdentifierReport) -> (r: FileIdentifierReport)
    ensures
        r == *report,
{
    FileIdentifierReport {
        location_path: report.location_path.clone(),
        total_orphan_paths: report.total_orphan_paths,
        total_objects_created: report.total_objects_created,
        total_objects_linked: report.total_objects_linked,
        total_objects_ignored: report.total_objects_ignored,
    }
}

/// Ends an identifier run: hands the report out, and says whether the
/// cached explorer query must be invalidated, which is exactly when any
/// orphans were found.
pub fn finalize_file_identifier(report: &FileIdentifierReport) -> (r: (
    Option<FileIdentifierReport>,
    bool,
))
    ensures
        r.0 == Some(*report),
        r.1 == (report.total_orphan_paths > 0),
{
    (Some(clone_report(report)), report.total_orphan_paths > 0)
}

proof fn lemma_step_filtered_prefix(
    c1: Catalog,
    c2: Catalog,
    files: FileStore,
    location: LocationRecord,
    chunk: Seq<FilePathRecord>,
    ps: Seq<FilePathWhereParam>,
    m: int,
    j: int,
)
    requires
        step_catalog_effect(c1, c2, files, location, chunk),
        c1.wf(),
        ps.contains(FilePathWhereParam::ObjectIdEquals(Option::None)),
        m == chunk.len(),
        m <= filtered(c1.file_paths@, ps).len(),
        forall|t: int| 0 <= t < m ==> #[trigger] chunk[t] == filtered(c1.file_paths@, ps)[t],
        forall|t: int| 0 <= t < m ==> file_assembles(files, location, #[trigger] chunk[t]),
        0 <= j <= c1.file_paths@.len(),
    ensures
        filtered(c2.file_paths@.take(j), ps) == (if filtered(c1.file_paths@.take(j), ps).len()
            <= m {
            Seq::<FilePathRecord>::empty()
        } else {
            filtered(c1.file_paths@.take(j), ps).skip(m)
        }),
    decreases j,
{
    let fps1 = c1.file_paths@;
    let fps2 = c2.file_paths@;
    let whole1 = filtered(fps1, ps);
    lemma_filtered_sorted(fps1, ps);
    lemma_filtered_sound(fps1, ps);
    if j == 0 {
        assert(fps1.take(0) =~= Seq::<FilePathRecord>::empty());
        assert(fps2.take(0) =~= Seq::<FilePathRecord>::empty());
    } else {
        lemma_step_filtered_prefix(c1, c2, files, location, chunk, ps, m, j - 1);
        lemma_filtered_prefix(fps1, ps, j - 1);
        lemma_filtered_prefix(fps1, ps, j);
        let t1 = fps1.take(j);
        let t2 = fps2.take(j);
        let p1 = fps1.take(j - 1);
        let p2 = fps2.take(j - 1);
        assert(t1.drop_last() =~= p1);
        assert(t2.drop_last() =~= p2);
        assert(t1.last() == fps1[j - 1]);
        assert(t2.last() == fps2[j - 1]);
        let r1 = fps1[j - 1];
        let r2 = fps2[j - 1];
        let f1p = filtered(p1, ps);
        let lprev = f1p.len() as int;
        let oin = FilePathWhereParam::ObjectIdEquals(Option::None);
        let oi = choose|oi: int| 0 <= oi < ps.len() && ps[oi] == oin;
        if !filters_match(ps, r1) {
            // this record is untouched by the step: a chunk hit would make
            // it one of the filtered records, which all match
            assert(!chunk_hit(chunk, files, location, r1)) by {
                if chunk_hit(chunk, files, location, r1) {
                    let t = choose|t: int|
                        0 <= t < chunk.len() && (#[trigger] chunk[t]).id == r1.id
                            && file_assembles(files, location, chunk[t]);
                    assert(chunk[t] == whole1[t]);
                    assert(fps1.contains(whole1[t]));
                    let k0 = choose|k0: int| 0 <= k0 < fps1.len() && fps1[k0] == whole1[t];
                    assert(fps1[k0].id == r1.id);
                    assert(k0 == j - 1) by {
                        if k0 < j - 1 {
                            assert(fps1[k0].id < fps1[j - 1].id);
                        }
                        if k0 > j - 1 {
                            assert(fps1[j - 1].id < fps1[k0].id);
                        }
                    }
                    assert(filters_match(ps, r1));
                }
            }
            assert(r2 == r1);
        } else {
            // the record is the next filtered element
            assert(f1p.len() < filtered(t1, ps).len());
            assert(filtered(t1, ps) == f1p.push(r1));
            assert(whole1.take(lprev + 1) == filtered(t1, ps));
            assert(filtered(t1, ps)[lprev] == r1);
            assert(whole1.take(lprev + 1)[lprev] == whole1[lprev]);
            assert(whole1[lprev] == r1);
            if lprev < m {
                // within the chunk: the step linked it, so it no longer
                // matches the object-is-null conjunct
                assert(chunk[lprev] == r1);
                assert(chunk_hit(chunk, files, location, r1)) by {
                    assert(chunk[lprev].id == r1.id);
                    assert(file_assembles(files, location, chunk[lprev]));
                }
                assert(r2.object_id is Some);
                assert(!filters_match(ps, r2)) by {
                    if filters_match(ps, r2) {
                        assert(filter_matches(ps[oi], r2));
                    }
                }
            } else {
                // past the chunk: untouched, still matching
                assert(!chunk_hit(chunk, files, location, r1)) by {
                    if chunk_hit(chunk, files, location, r1) {
                        let t = choose|t: int|
                            0 <= t < chunk.len() && (#[trigger] chunk[t]).id == r1.id
                                && file_assembles(files, location, chunk[t]);
                        assert(chunk[t] == whole1[t]);
                        assert(whole1[t].id < whole1[lprev].id);
                    }
                }
                assert(r2 == r1);
                assert(filtered(t2, ps) == filtered(p2, ps).push(r1));
                assert(filtered(p2, ps) == f1p.skip(m));
                assert(f1p.skip(m).push(r1) =~= filtered(t1, ps).skip(m));
            }
        }
    }
}

/// One identifier step consumes exactly its chunk: when the chunk is the
/// first `m` records of a query whose filters include the null-Object
/// conjunct, and every chunk entry's file is on disk, the records that
/// match the query afterwards are exactly those past the chunk.
pub proof fn lemma_step_filtered(
    c1: Catalog,
    c2: Catalog,
    files: FileStore,
    location: LocationRecord,
    chunk: Seq<FilePathRecord>,
    ps: Seq<FilePathWhereParam>,
)
    requires
        step_catalog_effect(c1, c2, files, location, chunk),
        c1.wf(),
        ps.contains(FilePathWhereParam::ObjectIdEquals(Option::None)),
        chunk.len() <= filtered(c1.file_paths@, ps).len(),
        forall|t: int|
            0 <= t < chunk.len() ==> #[trigger] chunk[t] == filtered(c1.file_paths@, ps)[t],
        forall|t: int|
            0 <= t < chunk.len() ==> file_assembles(files, location, #[trigger] chunk[t]),
    ensures
        filtered(c2.file_paths@, ps) == filtered(c1.file_paths@, ps).skip(chunk.len() as int),
{
    let m = chunk.len() as int;
    lemma_step_filtered_prefix(c1, c2, files, location, chunk, ps, m, c1.file_paths@.len() as int);
    assert(c1.file_paths@.take(c1.file_paths@.len() as int) =~= c1.file_paths@);
    assert(c2.file_paths@.take(c2.file_paths@.len() as int) =~= c2.file_paths@);
    if filtered(c1.file_paths@, ps).len() <= m {
        assert(filtered(c1.file_paths@, ps).skip(m) =~= Seq::<FilePathRecord>::empty());
    }
}


/// Identifier idempotence at the step level: a step whose chunk entries'
/// files are all absent — the only entries a repeated orphan query can
/// return once every on-disk entry is linked, when the disk is unchanged
/// — changes nothing: no Objects appear, no content id or link moves,
/// and the id allocator stands still.
pub proof fn lemma_step_unassembled_is_noop(
    c1: Catalog,
    c2: Catalog,
    files: FileStore,
    location: LocationRecord,
    chunk: Seq<FilePathRecord>,
)
    requires
        step_catalog_effect(c1, c2, files, location, chunk),
        forall|t: int|
            0 <= t < chunk.len() ==> !file_assembles(files, location, #[trigger] chunk[t]),
    ensures
        c2.file_paths@ == c1.file_paths@,
        c2.objects@ == c1.objects@,
        c2.next_object_id == c1.next_object_id,
{
    lemma_count_assembled_none(files, location, chunk);
    assert forall|k: int| 0 <= k < c1.file_paths@.len() implies #[trigger] c2.file_paths@[k]
        == c1.file_paths@[k] by {
        assert(!chunk_hit(chunk, files, location, c1.file_paths@[k])) by {
            if chunk_hit(chunk, files, location, c1.file_paths@[k]) {
                let t = choose|t: int|
                    0 <= t < chunk.len() && (#[trigger] chunk[t]).id == c1.file_paths@[k].id
                        && file_assembles(files, location, chunk[t]);
            }
        }
    }
    assert(c2.file_paths@ =~= c1.file_paths@);
    assert(c2.objects@ =~= c1.objects@);
}

/// Identifier linkage, the shared-Object half: two entries with the same
/// content id, both processed by one step, are connected to the same
/// Object, provided some Object of the catalog already carried that
/// content id (as after any earlier step that processed a file with those
/// contents). Both are then connected to the first such Object.
pub proof fn lemma_step_shared_object(
    old_cat: Catalog,
    new_cat: Catalog,
    files: FileStore,
    location: LocationRecord,
    chunk: Seq<FilePathRecord>,
    k1: int,
    k2: int,
)
    requires
        step_catalog_effect(old_cat, new_cat, files, location, chunk),
        0 <= k1 < old_cat.file_paths@.len(),
        0 <= k2 < old_cat.file_paths@.len(),
        chunk_hit(chunk, files, location, old_cat.file_paths@[k1]),
        chunk_hit(chunk, files, location, old_cat.file_paths@[k2]),
        assembled_cas(files, location, old_cat.file_paths@[k1]) == assembled_cas(
            files,
            location,
            old_cat.file_paths@[k2],
        ),
        exists|j: int|
            0 <= j < old_cat.objects@.len() && cas_matches_object(
                old_cat,
                (#[trigger] old_cat.objects@[j]).id,
                assembled_cas(files, location, old_cat.file_paths@[k1]),
            ),
    ensures
        new_cat.file_paths@[k1].object_id is Some,
        new_cat.file_paths@[k1].object_id == new_cat.file_paths@[k2].object_id,
{
    let c = assembled_cas(files, location, old_cat.file_paths@[k1]);
    let o1 = new_cat.file_paths@[k1].object_id->0;
    let o2 = new_cat.file_paths@[k2].object_id->0;
    assert(first_match_links(old_cat, o1, c));
    assert(first_match_links(old_cat, o2, c));
    let j1 = choose|j: int|
        0 <= j < old_cat.objects@.len() && (#[trigger] old_cat.objects@[j]).id == o1
            && cas_matches_object(old_cat, o1, c) && (forall|j2: int|
            0 <= j2 < j ==> !cas_matches_object(old_cat, (#[trigger] old_cat.objects@[j2]).id, c));
    let j2 = choose|j: int|
        0 <= j < old_cat.objects@.len() && (#[trigger] old_cat.objects@[j]).id == o2
            && cas_matches_object(old_cat, o2, c) && (forall|jb: int|
            0 <= jb < j ==> !cas_matches_object(old_cat, (#[trigger] old_cat.objects@[jb]).id, c));
    if j1 < j2 {
        assert(!cas_matches_object(old_cat, old_cat.objects@[j1].id, c));
        assert(false);
    }
    if j2 < j1 {
        assert(!cas_matches_object(old_cat, old_cat.objects@[j2].id, c));
        assert(false);
    }
    assert(o1 == o2);
}

} // verus!
