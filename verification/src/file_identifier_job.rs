//! The identifier job over a whole location, or over every descendant of
//! a sub-path: `Init` counts the orphans and fixes the starting cursor,
//! each `Step` processes one chunk in ascending id order, and `Finalize`
//! emits the report.

use vstd::prelude::*;

use crate::catalog::{
    clone_record, filter_matches, filtered, filters_match, lemma_filtered_complete,
    lemma_filtered_len,
    lemma_filtered_prefix, lemma_filtered_sorted, lemma_filtered_sound, record_matches, Catalog,
    FilePathRecord, FilePathWhereParam, LocationRecord,
};
use crate::errors::{FilePathError, JobError};
use crate::file_identifier::{
    chunk_from_catalog, count_assembled, distinct_ids, process_identifier_file_paths,
    step_catalog_effect, FileIdentifierJobError, FileIdentifierReport, FilePathIdCursor,
    CHUNK_SIZE,
};
use crate::strutil::is_str_prefix;
use crate::sync::CrdtOp;
use crate::vfs::FileStore;

verus! {

/// The deep identifier job.
pub struct FileIdentifierJob {}

/// What a deep identifier run starts from: the location, and an optional
/// sub-path scoping the run to that directory's descendants. The sub-path
/// is given in materialized form: location-relative, beginning and ending
/// with `/`.
#[derive(Clone, Debug)]
pub struct FileIdentifierJobInit {
    pub location: LocationRecord,
    pub sub_path: Option<String>,
}

/// The state a deep identifier run carries between steps.
#[derive(Clone, Debug)]
pub struct FileIdentifierJobState {
    pub cursor: FilePathIdCursor,
    pub report: FileIdentifierReport,
    pub maybe_sub_materialized_path: Option<String>,
}

/// A materialized sub-path: non-empty, beginning and ending with `/`.
pub open spec fn sub_path_shape_ok(s: Seq<char>) -> bool {
    s.len() >= 1 && s[0] == '/' && s[s.len() - 1] == '/'
}

/// Checks the materialized sub-path shape.
pub fn check_sub_path_shape(s: &str) -> (r: bool)
    ensures
        r == sub_path_shape_ok(s@),
{
    let n = s.unicode_len();
    if n == 0 {
        return false;
    }
    s.get_char(0) == '/' && s.get_char(n - 1) == '/'
}

/// The filter list of the deep orphan query, as a specification value.
pub open spec fn orphan_params(
    location_id: i32,
    file_path_id: Option<i32>,
    maybe_sub_materialized_path: Option<String>,
) -> Seq<FilePathWhereParam> {
    let base = seq![
        FilePathWhereParam::ObjectIdEquals(Option::None),
        FilePathWhereParam::IsDirEquals(false),
        FilePathWhereParam::LocationIdEquals(location_id),
    ];
    let with_id = match file_path_id {
        Option::Some(c) => base.push(FilePathWhereParam::IdGte(c)),
        Option::None => base,
    };
    match maybe_sub_materialized_path {
        Option::Some(s) => with_id.push(FilePathWhereParam::MaterializedPathStartsWith(s)),
        Option::None => with_id,
    }
}

/// What the deep orphan filters say of one record: no Object link, not a
/// directory, the right location, at or past the cursor, and under the
/// sub-path when one is given.
pub open spec fn orphan_pred(
    fp: FilePathRecord,
    location_id: i32,
    file_path_id: Option<i32>,
    maybe_sub_materialized_path: Option<String>,
) -> bool {
    &&& fp.object_id is None
    &&& !fp.is_dir
    &&& fp.location_id == location_id
    &&& match file_path_id {
        Option::Some(c) => fp.id >= c,
        Option::None => true,
    }
    &&& match maybe_sub_materialized_path {
        Option::Some(s) => is_str_prefix(s@, fp.materialized_path@),
        Option::None => true,
    }
}

/// The deep orphan query filters: entries with no Object link that are not
/// directories, in the location, optionally from a cursor id on, and
/// optionally scoped under a materialized sub-path.
pub fn orphan_path_filters(
    location_id: i32,
    file_path_id: Option<i32>,
    maybe_sub_materialized_path: &Option<String>,
) -> (r: Vec<FilePathWhereParam>)
    ensures
        r@ == orphan_params(location_id, file_path_id, *maybe_sub_materialized_path),
        forall|fp: FilePathRecord|
            filters_match(r@, fp) == orphan_pred(
                fp,
                location_id,
                file_path_id,
                *maybe_sub_materialized_path,
            ),
{
    let mut params: Vec<FilePathWhereParam> = Vec::new();
    params.push(FilePathWhereParam::ObjectIdEquals(None));
    params.push(FilePathWhereParam::IsDirEquals(false));
    params.push(FilePathWhereParam::LocationIdEquals(location_id));
    match file_path_id {
        Some(c) => params.push(FilePathWhereParam::IdGte(c)),
        None => {},
    }
    match maybe_sub_materialized_path {
        Some(s) => params.push(FilePathWhereParam::MaterializedPathStartsWith(s.clone())),
        None => {},
    }
    proof {
        assert(params@ =~= orphan_params(
            location_id,
            file_path_id,
            *maybe_sub_materialized_path,
        ));
        assert forall|fp: FilePathRecord|
            filters_match(params@, fp) == orphan_pred(
                fp,
                location_id,
                file_path_id,
                *maybe_sub_materialized_path,
            ) by {
            if orphan_pred(fp, location_id, file_path_id, *maybe_sub_materialized_path) {
                assert forall|i: int|
                    0 <= i < params@.len() implies crate::catalog::filter_matches(
                    #[trigger] params@[i],
                    fp,
                ) by {}
            } else {
                if filters_match(params@, fp) {
                    assert(crate::catalog::filter_matches(params@[0], fp));
                    assert(crate::catalog::filter_matches(params@[1], fp));
                    assert(crate::catalog::filter_matches(params@[2], fp));
                    if params@.len() > 3 {
                        assert(crate::catalog::filter_matches(params@[3], fp));
                    }
                    if params@.len() > 4 {
                        assert(crate::catalog::filter_matches(params@[4], fp));
                    }
                }
            }
        }
    }
    params
}

/// Counts the orphans of the location, optionally under a sub-path.
pub fn count_orphan_file_paths(
    catalog: &Catalog,
    location_id: i32,
    maybe_sub_materialized_path: &Option<String>,
) -> (r: usize)
    ensures
        r == filtered(
            catalog.file_paths@,
            orphan_params(location_id, Option::None, *maybe_sub_materialized_path),
        ).len(),
{
    let params = orphan_path_filters(location_id, None, maybe_sub_materialized_path);
    let ghost ps = params@;
    let n = catalog.file_paths.len();
    let mut count: usize = 0;
    let mut i: usize = 0;
    while i < n
        invariant
            0 <= i <= n,
            n == catalog.file_paths@.len(),
            ps == params@,
            count == filtered(catalog.file_paths@.take(i as int), ps).len(),
            count <= i,
        decreases n - i,
    {
        let ghost tk = catalog.file_paths@.take(i as int);
        let ghost tk1 = catalog.file_paths@.take(i as int + 1);
        proof {
            assert(tk1.drop_last() =~= tk);
            assert(tk1.last() == catalog.file_paths@[i as int]);
        }
        if record_matches(&catalog.file_paths[i], &params) {
            count += 1;
        }
        i += 1;
    }
    proof {
        assert(catalog.file_paths@.take(n as int) =~= catalog.file_paths@);
    }
    count
}

/// The chunk a query returns: the first `CHUNK_SIZE` matches, or all of
/// them when fewer match.
pub open spec fn chunk_of(fps: Seq<FilePathRecord>, ps: Seq<FilePathWhereParam>) -> Seq<
    FilePathRecord,
> {
    let f = filtered(fps, ps);
    if f.len() <= CHUNK_SIZE {
        f
    } else {
        f.take(CHUNK_SIZE as int)
    }
}

/// Fetches the next chunk of orphans at the cursor, in ascending id order.
pub fn get_orphan_file_paths(
    catalog: &Catalog,
    location_id: i32,
    cursor: &FilePathIdCursor,
    maybe_sub_materialized_path: &Option<String>,
) -> (r: Vec<FilePathRecord>)
    ensures
        r@ == chunk_of(
            catalog.file_paths@,
            orphan_params(
                location_id,
                Some(cursor.file_path_id),
                *maybe_sub_materialized_path,
            ),
        ),
{
    let params = orphan_path_filters(
        location_id,
        Some(cursor.file_path_id),
        maybe_sub_materialized_path,
    );
    let ghost ps = params@;
    let ghost whole = filtered(catalog.file_paths@, ps);
    let n = catalog.file_paths.len();
    let mut out: Vec<FilePathRecord> = Vec::new();
    let mut i: usize = 0;
    while i < n && out.len() < CHUNK_SIZE
        invariant
            0 <= i <= n,
            n == catalog.file_paths@.len(),
            ps == params@,
            whole == filtered(catalog.file_paths@, ps),
            out@ == filtered(catalog.file_paths@.take(i as int), ps),
            out@.len() <= CHUNK_SIZE,
        decreases n - i,
    {
        let ghost tk = catalog.file_paths@.take(i as int);
        let ghost tk1 = catalog.file_paths@.take(i as int + 1);
        proof {
            assert(tk1.drop_last() =~= tk);
            assert(tk1.last() == catalog.file_paths@[i as int]);
        }
        if record_matches(&catalog.file_paths[i], &params) {
            out.push(clone_record(&catalog.file_paths[i]));
        }
        i += 1;
    }
    proof {
        lemma_filtered_prefix(catalog.file_paths@, ps, i as int);
        if i == n {
            assert(catalog.file_paths@.take(n as int) =~= catalog.file_paths@);
        } else {
            assert(out@.len() == CHUNK_SIZE);
            assert(whole.take(out@.len() as int) == out@);
            if whole.len() <= CHUNK_SIZE {
                assert(whole.take(out@.len() as int) =~= whole);
            }
        }
        assert(out@ == chunk_of(catalog.file_paths@, ps));
    }
    out
}

/// Finds the smallest orphan id, the starting cursor of a run.
pub fn find_first_orphan_id(
    catalog: &Catalog,
    location_id: i32,
    maybe_sub_materialized_path: &Option<String>,
) -> (r: Option<i32>)
    ensures
        (r is Some) == (filtered(
            catalog.file_paths@,
            orphan_params(location_id, Option::None, *maybe_sub_materialized_path),
        ).len() > 0),
        r matches Some(id) ==> id == filtered(
            catalog.file_paths@,
            orphan_params(location_id, Option::None, *maybe_sub_materialized_path),
        )[0].id,
{
    let params = orphan_path_filters(location_id, None, maybe_sub_materialized_path);
    let ghost ps = params@;
    let ghost whole = filtered(catalog.file_paths@, ps);
    let n = catalog.file_paths.len();
    let mut i: usize = 0;
    while i < n
        invariant
            0 <= i <= n,
            n == catalog.file_paths@.len(),
            ps == params@,
            ps == orphan_params(location_id, Option::None, *maybe_sub_materialized_path),
            whole == filtered(catalog.file_paths@, ps),
            filtered(catalog.file_paths@.take(i as int), ps).len() == 0,
        decreases n - i,
    {
        let ghost tk = catalog.file_paths@.take(i as int);
        let ghost tk1 = catalog.file_paths@.take(i as int + 1);
        proof {
            assert(tk1.drop_last() =~= tk);
            assert(tk1.last() == catalog.file_paths@[i as int]);
        }
        if record_matches(&catalog.file_paths[i], &params) {
            proof {
                lemma_filtered_prefix(catalog.file_paths@, ps, i as int + 1);
                assert(filtered(tk1, ps).len() == 1);
                assert(whole.take(1)[0] == filtered(tk1, ps)[0]);
                assert(whole[0] == catalog.file_paths@[i as int]);
            }
            return Some(catalog.file_paths[i].id);
        }
        i += 1;
    }
    proof {
        assert(catalog.file_paths@.take(n as int) =~= catalog.file_paths@);
    }
    None
}

impl FileIdentifierJob {
    /// The job's name.
    pub fn name(&self) -> (r: &'static str)
        ensures
            r@ == "file_identifier"@,
    {
        "file_identifier"
    }

    /// `Init`: validates the sub-path, counts the orphans in scope, fails
    /// with an early finish when there are none, and otherwise fixes the
    /// starting cursor at the smallest orphan id and derives the number of
    /// steps. `sub_path_is_dir` reports what the filesystem said of the
    /// sub-path.
    pub fn init(
        &self,
        catalog: &Catalog,
        job_init: &FileIdentifierJobInit,
        sub_path_is_dir: bool,
    ) -> (r: Result<(FileIdentifierJobState, usize), JobError>)
        ensures
            ({
                let count = filtered(
                    catalog.file_paths@,
                    orphan_params(job_init.location.id, Option::None, job_init.sub_path),
                ).len();
                match r {
                    Ok(p) => {
                        &&& (job_init.sub_path matches Some(s) ==> sub_path_shape_ok(s@)
                            && sub_path_is_dir)
                        &&& count > 0
                        &&& p.0.report.location_path@ == job_init.location.path@
                        &&& p.0.report.total_orphan_paths == count
                        &&& p.0.report.total_objects_created == 0
                        &&& p.0.report.total_objects_linked == 0
                        &&& p.0.maybe_sub_materialized_path == job_init.sub_path
                        &&& p.0.cursor.file_path_id == filtered(
                            catalog.file_paths@,
                            orphan_params(job_init.location.id, Option::None, job_init.sub_path),
                        )[0].id
                        &&& p.1 == (count - 1) / (CHUNK_SIZE as int) + 1
                    },
                    Err(e) => {
                        ||| (e matches JobError::FilePath(FilePathError::SubPathNotInLocation(_))
                            && job_init.sub_path matches Some(s) && !sub_path_shape_ok(s@))
                        ||| (e matches JobError::FilePath(FilePathError::SubPathNotDirectory(_))
                            && job_init.sub_path matches Some(s) && sub_path_shape_ok(s@)
                            && !sub_path_is_dir)
                        ||| (e matches JobError::EarlyFinish { name, reason } && name@
                            == "file_identifier"@ && reason@
                            == "Found no orphan file paths to process"@ && count == 0 && (
                        job_init.sub_path matches Some(s) ==> sub_path_shape_ok(s@)
                            && sub_path_is_dir))
                    },
                }
            }),
    {
        let maybe_sub_materialized_path: Option<String> = match &job_init.sub_path {
            Some(s) => {
                if !check_sub_path_shape(s.as_str()) {
                    return Err(
                        FileIdentifierJobError::FilePathError(
                            FilePathError::SubPathNotInLocation(s.clone()),
                        ).into_job_error(),
                    );
                }
                if !sub_path_is_dir {
                    return Err(
                        FileIdentifierJobError::FilePathError(
                            FilePathError::SubPathNotDirectory(s.clone()),
                        ).into_job_error(),
                    );
                }
                Some(s.clone())
            },
            None => None,
        };
        proof {
            assert(maybe_sub_materialized_path == job_init.sub_path);
        }
        let orphan_count = count_orphan_file_paths(
            catalog,
            job_init.location.id,
            &maybe_sub_materialized_path,
        );
        let report = FileIdentifierReport::new(job_init.location.path.clone());
        let mut report = report;
        report.total_orphan_paths = orphan_count;
        if orphan_count == 0 {
            return Err(
                JobError::EarlyFinish {
                    name: String::from_str("file_identifier"),
                    reason: String::from_str("Found no orphan file paths to process"),
                },
            );
        }
        let task_count = (orphan_count - 1) / CHUNK_SIZE + 1;
        let first_id = match find_first_orphan_id(
            catalog,
            job_init.location.id,
            &maybe_sub_materialized_path,
        ) {
            Some(id) => id,
            None => {
                proof {
                    assert(false);
                }
                0
            },
        };
        Ok(
            (
                FileIdentifierJobState {
                    cursor: FilePathIdCursor { file_path_id: first_id },
                    report,
                    maybe_sub_materialized_path,
                },
                task_count,
            ),
        )
    }

    /// One `Step`: fetches the chunk of orphans at the cursor and
    /// processes it.
    pub fn execute_step(
        &self,
        catalog: &mut Catalog,
        files: &FileStore,
        job_init: &FileIdentifierJobInit,
        state: &mut FileIdentifierJobState,
        step_number: usize,
    ) -> (r: Result<Vec<CrdtOp>, JobError>)
        requires
            old(catalog).wf(),
            files.wf(),
            old(catalog).next_object_id + CHUNK_SIZE <= i32::MAX,
            old(state).report.total_objects_created + CHUNK_SIZE <= usize::MAX,
            old(state).report.total_objects_linked + CHUNK_SIZE <= usize::MAX,
        ensures
            ({
                let chunk = chunk_of(
                    old(catalog).file_paths@,
                    orphan_params(
                        job_init.location.id,
                        Some(old(state).cursor.file_path_id),
                        old(state).maybe_sub_materialized_path,
                    ),
                );
                &&& (chunk.len() == 0) == (r is Err)
                &&& r is Err ==> *final(catalog) == *old(catalog) && *final(state) == *old(state)
                    && (r->Err_0 matches JobError::EarlyFinish { name, reason } && name@
                    == "file_identifier"@ && reason@
                    == "Expected orphan Paths not returned from database query for this chunk"@)
                &&& r is Ok ==> {
                    &&& step_catalog_effect(
                        *old(catalog),
                        *final(catalog),
                        *files,
                        job_init.location,
                        chunk,
                    )
                    &&& crate::file_identifier::step_ops_description(
                        *old(catalog),
                        *final(catalog),
                        *files,
                        job_init.location,
                        chunk,
                        r->Ok_0@,
                    )
                    &&& final(state).report.total_objects_created == old(
                        state,
                    ).report.total_objects_created + (final(catalog).objects@.len() - old(
                        catalog,
                    ).objects@.len())
                    &&& final(state).report.total_objects_created + final(state).report.total_objects_linked == old(state).report.total_objects_created + old(
                        state,
                    ).report.total_objects_linked + count_assembled(
                        *files,
                        job_init.location,
                        chunk,
                    )
                    &&& final(state).report.total_orphan_paths == old(
                        state,
                    ).report.total_orphan_paths
                    &&& final(state).maybe_sub_materialized_path == old(
                        state,
                    ).maybe_sub_materialized_path
                    &&& final(state).cursor.file_path_id == chunk[chunk.len() - 1].id
                }
            }),
    {
        let file_paths = get_orphan_file_paths(
            catalog,
            job_init.location.id,
            &state.cursor,
            &state.maybe_sub_materialized_path,
        );
        proof {
            let ps = orphan_params(
                job_init.location.id,
                Some(state.cursor.file_path_id),
                state.maybe_sub_materialized_path,
            );
            let whole = filtered(catalog.file_paths@, ps);
            lemma_filtered_sound(catalog.file_paths@, ps);
            lemma_filtered_sorted(catalog.file_paths@, ps);
            assert forall|t: int| 0 <= t < file_paths@.len() implies exists|k: int|
                0 <= k < catalog.file_paths@.len() && (#[trigger] file_paths@[t])
                    == catalog.file_paths@[k] by {
                assert(file_paths@[t] == whole[t]);
                assert(catalog.file_paths@.contains(whole[t]));
                let k = choose|k: int|
                    0 <= k < catalog.file_paths@.len() && catalog.file_paths@[k] == whole[t];
                assert(catalog.file_paths@[k] == file_paths@[t]);
            }
            assert(chunk_from_catalog(file_paths@, catalog.file_paths@));
            assert forall|t1: int, t2: int|
                0 <= t1 < t2 < file_paths@.len() implies (#[trigger] file_paths@[t1]).id != (
            #[trigger] file_paths@[t2]).id by {
                assert(file_paths@[t1] == whole[t1] && file_paths@[t2] == whole[t2]);
            }
            assert(distinct_ids(file_paths@));
            assert(file_paths@.len() <= CHUNK_SIZE);
            lemma_filtered_sound(catalog.file_paths@, ps);
            assert forall|t: int|
                0 <= t < file_paths@.len() implies (#[trigger] file_paths@[t]).object_id
                is None by {
                assert(file_paths@[t] == whole[t]);
                assert(filters_match(ps, whole[t]));
                assert(crate::catalog::filter_matches(ps[0], whole[t]));
            }
        }
        process_identifier_file_paths(
            "file_identifier",
            &job_init.location,
            &file_paths,
            step_number,
            &mut state.cursor,
            &mut state.report,
            catalog,
            files,
        )
    }

    /// `Finalize`: emits the report and says whether the cached explorer
    /// query must be invalidated.
    pub fn finalize(&self, state: &FileIdentifierJobState) -> (r: (
        Option<FileIdentifierReport>,
        bool,
    ))
        ensures
            r.0 == Some(state.report),
            r.1 == (state.report.total_orphan_paths > 0),
    {
        crate::file_identifier::finalize_file_identifier(&state.report)
    }
}

/// The spec-level counterpart of `orphan_path_filters`: the filter list
/// matches a record exactly when the orphan predicate holds.
pub proof fn lemma_orphan_params_pred(
    location_id: i32,
    file_path_id: Option<i32>,
    maybe_sub_materialized_path: Option<String>,
    fp: FilePathRecord,
)
    ensures
        filters_match(
            orphan_params(location_id, file_path_id, maybe_sub_materialized_path),
            fp,
        ) == orphan_pred(fp, location_id, file_path_id, maybe_sub_materialized_path),
{
    let ps = orphan_params(location_id, file_path_id, maybe_sub_materialized_path);
    if orphan_pred(fp, location_id, file_path_id, maybe_sub_materialized_path) {
        assert forall|i: int| 0 <= i < ps.len() implies crate::catalog::filter_matches(
            #[trigger] ps[i],
            fp,
        ) by {}
    } else {
        if filters_match(ps, fp) {
            assert(crate::catalog::filter_matches(ps[0], fp));
            assert(crate::catalog::filter_matches(ps[1], fp));
            assert(crate::catalog::filter_matches(ps[2], fp));
            if ps.len() > 3 {
                assert(crate::catalog::filter_matches(ps[3], fp));
            }
            if ps.len() > 4 {
                assert(crate::catalog::filter_matches(ps[4], fp));
            }
        }
    }
}

/// When every chunk entry's file is on disk, every entry assembles.
pub proof fn lemma_count_assembled_full(
    files: crate::vfs::FileStore,
    location: LocationRecord,
    chunk: Seq<FilePathRecord>,
)
    requires
        forall|t: int|
            0 <= t < chunk.len() ==> crate::file_identifier::file_assembles(
                files,
                location,
                #[trigger] chunk[t],
            ),
    ensures
        count_assembled(files, location, chunk) == chunk.len(),
    decreases chunk.len(),
{
    if chunk.len() > 0 {
        let d = chunk.drop_last();
        assert(forall|t: int| 0 <= t < d.len() ==> d[t] == #[trigger] chunk[t]);
        lemma_count_assembled_full(files, location, d);
    }
}

/// The full state machine of one deep identifier run: `Init`, one `Step`
/// per chunk, `Finalize`. Identifier linkage: when every orphan in scope
/// has its file on disk, the run succeeds, no orphan in scope remains,
/// and every previously-orphan entry ends with its content id and an
/// Object link. Identifier idempotence follows: a catalog with no orphans
/// in scope makes the run finish early and change nothing, so a second
/// run after a complete one creates no Objects and rewrites no content
/// ids.
#[verifier::rlimit(100)]
#[verifier::spinoff_prover]
pub fn run_file_identifier_job(
    catalog: &mut Catalog,
    files: &FileStore,
    job_init: &FileIdentifierJobInit,
    sub_path_is_dir: bool,
) -> (r: Result<(FileIdentifierReport, Vec<CrdtOp>, bool), JobError>)
    requires
        old(catalog).wf(),
        files.wf(),
        old(catalog).next_object_id + old(catalog).file_paths@.len() + CHUNK_SIZE <= i32::MAX,
        old(catalog).file_paths@.len() + 2 * CHUNK_SIZE <= usize::MAX,
    ensures
        final(catalog).wf(),
        final(catalog).locations == old(catalog).locations,
        final(catalog).file_paths@.len() == old(catalog).file_paths@.len(),
        forall|k: int|
            0 <= k < old(catalog).file_paths@.len()
                ==> crate::file_identifier::only_ident_fields_changed(
                old(catalog).file_paths@[k],
                #[trigger] final(catalog).file_paths@[k],
            ),
        final(catalog).objects@.len() >= old(catalog).objects@.len(),
        forall|j: int|
            0 <= j < old(catalog).objects@.len() ==> #[trigger] final(catalog).objects@[j] == old(
                catalog,
            ).objects@[j],
        (job_init.sub_path matches Some(s) && !(sub_path_shape_ok(s@) && sub_path_is_dir)) ==> r
            is Err && *final(catalog) == *old(catalog),
        ({
            let ps0 = orphan_params(job_init.location.id, Option::None, job_init.sub_path);
            let orph = filtered(old(catalog).file_paths@, ps0);
            let sub_ok = job_init.sub_path matches Some(s) ==> sub_path_shape_ok(s@)
                && sub_path_is_dir;
            &&& (sub_ok && orph.len() == 0 ==> (r matches Err(JobError::EarlyFinish { .. }))
                && *final(catalog) == *old(catalog))
            &&& ((sub_ok && orph.len() > 0 && (forall|t: int|
                0 <= t < orph.len() ==> crate::file_identifier::file_assembles(
                    *files,
                    job_init.location,
                    #[trigger] orph[t],
                ))) ==> {
                &&& r is Ok
                &&& filtered(final(catalog).file_paths@, ps0).len() == 0
                &&& forall|k: int|
                    0 <= k < old(catalog).file_paths@.len() && filters_match(
                        ps0,
                        #[trigger] old(catalog).file_paths@[k],
                    ) ==> {
                        &&& final(catalog).file_paths@[k].cas_id is Some
                        &&& final(catalog).file_paths@[k].cas_id->0@
                            == crate::file_identifier::assembled_cas(
                            *files,
                            job_init.location,
                            old(catalog).file_paths@[k],
                        )
                        &&& final(catalog).file_paths@[k].object_id is Some
                        &&& crate::file_identifier::object_id_exists(
                            *final(catalog),
                            final(catalog).file_paths@[k].object_id->0,
                        )
                    }
                &&& (r matches Ok(p) ==> p.0.total_orphan_paths == orph.len()
                    && p.0.total_objects_created + p.0.total_objects_linked == orph.len() && p.2)
            })
        }),
        // whatever assembles: the created counter equals the Objects that
        // appeared, and the reported orphan total is the count the run
        // started from
        r matches Ok(p) ==> {
            &&& p.0.total_orphan_paths == filtered(
                old(catalog).file_paths@,
                orphan_params(job_init.location.id, Option::None, job_init.sub_path),
            ).len()
            &&& p.0.total_objects_created == final(catalog).objects@.len() - old(
                catalog,
            ).objects@.len()
            &&& p.2
        },
{
    let ghost ps0 = orphan_params(job_init.location.id, Option::None, job_init.sub_path);
    let ghost orph = filtered(old(catalog).file_paths@, ps0);
    let ghost n_orph = orph.len() as int;
    let ghost aa = forall|t: int|
        0 <= t < orph.len() ==> crate::file_identifier::file_assembles(
            *files,
            job_init.location,
            #[trigger] orph[t],
        );
    let ghost n = old(catalog).file_paths@.len() as int;
    let ghost old_next = old(catalog).next_object_id as int;
    proof {
        lemma_filtered_len(old(catalog).file_paths@, ps0);
        lemma_filtered_sorted(old(catalog).file_paths@, ps0);
    }
    let job = FileIdentifierJob {};
    let (state0, task_count) = match job.init(catalog, job_init, sub_path_is_dir) {
        Ok(p) => p,
        Err(e) => {
            return Err(e);
        },
    };
    let mut state = state0;
    let mut ops_all: Vec<CrdtOp> = Vec::new();
    let mut step: usize = 0;
    proof {
        assert(orph.skip(0) =~= orph);
    }
    while step < task_count
        invariant
            0 <= step <= task_count,
            n_orph > 0,
            n_orph == orph.len(),
            task_count == (n_orph - 1) / (CHUNK_SIZE as int) + 1,
            ps0 == orphan_params(job_init.location.id, Option::None, job_init.sub_path),
            orph == filtered(old(catalog).file_paths@, ps0),
            files.wf(),
            old(catalog).wf(),
            n == old(catalog).file_paths@.len(),
            n_orph <= n,
            old_next == old(catalog).next_object_id,
            old_next + n + CHUNK_SIZE <= i32::MAX,
            n + 2 * CHUNK_SIZE <= usize::MAX,
            forall|i: int, j: int|
                0 <= i < j < orph.len() ==> (#[trigger] orph[i]).id < (#[trigger] orph[j]).id,
            catalog.wf(),
            catalog.locations == old(catalog).locations,
            catalog.file_paths@.len() == n,
            forall|k: int|
                0 <= k < n ==> crate::file_identifier::only_ident_fields_changed(
                    old(catalog).file_paths@[k],
                    #[trigger] catalog.file_paths@[k],
                ),
            catalog.objects@.len() >= old(catalog).objects@.len(),
            forall|j: int|
                0 <= j < old(catalog).objects@.len() ==> #[trigger] catalog.objects@[j] == old(
                    catalog,
                ).objects@[j],
            catalog.next_object_id <= old_next + (CHUNK_SIZE as int) * step,
            state.report.total_objects_created + state.report.total_objects_linked <= (
            CHUNK_SIZE as int) * step,
            state.report.total_orphan_paths == n_orph,
            state.report.total_objects_created == catalog.objects@.len() - old(
                catalog,
            ).objects@.len(),
            state.maybe_sub_materialized_path == job_init.sub_path,
            job_init.sub_path matches Some(s) ==> sub_path_shape_ok(s@) && sub_path_is_dir,
            aa == (forall|t: int|
                0 <= t < orph.len() ==> crate::file_identifier::file_assembles(
                    *files,
                    job_init.location,
                    #[trigger] orph[t],
                )),
            aa ==> {
                let consumed = if (CHUNK_SIZE as int) * step <= n_orph {
                    (CHUNK_SIZE as int) * step
                } else {
                    n_orph
                };
                &&& filtered(catalog.file_paths@, ps0) == orph.skip(consumed)
                &&& forall|t: int|
                    consumed <= t < n_orph ==> (#[trigger] orph[t]).id
                        >= state.cursor.file_path_id
                &&& state.report.total_objects_created + state.report.total_objects_linked
                    == consumed
            },
            aa ==> forall|k: int|
                0 <= k < n && filters_match(ps0, #[trigger] old(catalog).file_paths@[k])
                    && !filters_match(ps0, catalog.file_paths@[k]) ==> {
                    &&& catalog.file_paths@[k].cas_id is Some
                    &&& catalog.file_paths@[k].cas_id->0@
                        == crate::file_identifier::assembled_cas(
                        *files,
                        job_init.location,
                        old(catalog).file_paths@[k],
                    )
                    &&& catalog.file_paths@[k].object_id is Some
                    &&& crate::file_identifier::object_id_exists(
                        *catalog,
                        catalog.file_paths@[k].object_id->0,
                    )
                },
        decreases task_count - step,
    {
        let ghost cur0 = *catalog;
        let ghost consumed = if (CHUNK_SIZE as int) * step <= n_orph {
            (CHUNK_SIZE as int) * step
        } else {
            n_orph
        };
        let ghost rem = orph.skip(consumed);
        let ghost cnum = state.cursor.file_path_id;
        let ghost ps_cur = orphan_params(job_init.location.id, Some(cnum), job_init.sub_path);
        proof {
            vstd::arithmetic::div_mod::lemma_fundamental_div_mod(n_orph - 1, CHUNK_SIZE as int);
            vstd::arithmetic::div_mod::lemma_mod_bound(n_orph - 1, CHUNK_SIZE as int);
            assert((CHUNK_SIZE as int) * ((n_orph - 1) / (CHUNK_SIZE as int)) <= n_orph - 1);
            assert((CHUNK_SIZE as int) * step <= (CHUNK_SIZE as int) * (task_count - 1))
                by (nonlinear_arith)
                requires
                    step <= task_count - 1,
                    CHUNK_SIZE >= 1,
            ;
            assert((CHUNK_SIZE as int) * (task_count - 1) == (CHUNK_SIZE as int) * ((n_orph - 1)
                / (CHUNK_SIZE as int)));
            assert((CHUNK_SIZE as int) * step <= n_orph - 1);
            assert(consumed == (CHUNK_SIZE as int) * step);
            if aa {
                assert forall|fp: FilePathRecord|
                    filters_match(ps_cur, fp) == filters_match(
                        ps0.push(FilePathWhereParam::IdGte(cnum)),
                        fp,
                    ) by {
                    lemma_orphan_params_pred(job_init.location.id, Some(cnum), job_init.sub_path, fp);
                    lemma_orphan_params_pred(
                        job_init.location.id,
                        Option::None,
                        job_init.sub_path,
                        fp,
                    );
                    crate::catalog::lemma_filters_match_push(
                        ps0,
                        FilePathWhereParam::IdGte(cnum),
                        fp,
                    );
                }
                crate::catalog::lemma_filtered_congruent(
                    catalog.file_paths@,
                    ps_cur,
                    ps0.push(FilePathWhereParam::IdGte(cnum)),
                );
                assert forall|i: int|
                    0 <= i < filtered(catalog.file_paths@, ps0).len() implies filter_matches(
                    FilePathWhereParam::IdGte(cnum),
                    #[trigger] filtered(catalog.file_paths@, ps0)[i],
                ) by {
                    assert(filtered(catalog.file_paths@, ps0)[i] == rem[i]);
                    assert(rem[i] == orph[consumed + i]);
                    assert(orph[consumed + i].id >= cnum);
                }
                crate::catalog::lemma_filtered_push_redundant(
                    catalog.file_paths@,
                    ps0,
                    FilePathWhereParam::IdGte(cnum),
                );
                assert(filtered(catalog.file_paths@, ps_cur) == rem);
                assert(rem.len() == n_orph - consumed);
                assert(rem.len() > 0);
            }
        }
        let step_result = job.execute_step(catalog, files, job_init, &mut state, step + 1);
        match step_result {
            Ok(mut ops) => {
                ops_all.append(&mut ops);
                proof {
                    let chunk = chunk_of(cur0.file_paths@, ps_cur);
                    crate::file_identifier::lemma_count_assembled_bound(
                        *files,
                        job_init.location,
                        chunk,
                    );
                    assert forall|k: int|
                        0 <= k < n implies crate::file_identifier::only_ident_fields_changed(
                        old(catalog).file_paths@[k],
                        #[trigger] catalog.file_paths@[k],
                    ) by {
                        assert(crate::file_identifier::only_ident_fields_changed(
                            old(catalog).file_paths@[k],
                            cur0.file_paths@[k],
                        ));
                        assert(crate::file_identifier::only_ident_fields_changed(
                            cur0.file_paths@[k],
                            catalog.file_paths@[k],
                        ));
                    }
                    if aa {
                        let mlen = if 100int <= rem.len() {
                            100int
                        } else {
                            rem.len() as int
                        };
                        assert(chunk == (if rem.len() <= CHUNK_SIZE {
                            rem
                        } else {
                            rem.take(CHUNK_SIZE as int)
                        }));
                        assert(chunk.len() == mlen);
                        assert forall|t: int| 0 <= t < chunk.len() implies #[trigger] chunk[t]
                            == filtered(cur0.file_paths@, ps0)[t] by {
                            if rem.len() <= CHUNK_SIZE {
                            } else {
                                assert(chunk[t] == rem[t]);
                            }
                        }
                        assert forall|t: int|
                            0 <= t < chunk.len() implies crate::file_identifier::file_assembles(
                            *files,
                            job_init.location,
                            #[trigger] chunk[t],
                        ) by {
                            assert(chunk[t] == rem[t]);
                            assert(rem[t] == orph[consumed + t]);
                        }
                        assert(ps0.contains(FilePathWhereParam::ObjectIdEquals(Option::None)))
                            by {
                            assert(ps0[0] == FilePathWhereParam::ObjectIdEquals(Option::None));
                        }
                        crate::file_identifier::lemma_step_filtered(
                            cur0,
                            *catalog,
                            *files,
                            job_init.location,
                            chunk,
                            ps0,
                        );
                        assert(filtered(catalog.file_paths@, ps0) == rem.skip(mlen));
                        let consumed2 = consumed + mlen;
                        assert(rem.skip(mlen) =~= orph.skip(consumed2));
                        let consumed_next = if (CHUNK_SIZE as int) * (step + 1) <= n_orph {
                            (CHUNK_SIZE as int) * (step + 1)
                        } else {
                            n_orph
                        };
                        assert(consumed2 == consumed_next) by {
                            assert((CHUNK_SIZE as int) * (step + 1) == consumed + 100);
                        }
                        // the new cursor sits at the last processed id
                        assert(state.cursor.file_path_id == chunk[chunk.len() - 1].id);
                        assert(chunk[chunk.len() - 1] == rem[mlen - 1]);
                        assert(rem[mlen - 1] == orph[consumed + mlen - 1]);
                        assert forall|t: int|
                            consumed2 <= t < n_orph implies (#[trigger] orph[t]).id
                            >= state.cursor.file_path_id by {
                            assert(orph[consumed + mlen - 1].id < orph[t].id);
                        }
                        // counters advanced by the chunk length
                        lemma_count_assembled_full(*files, job_init.location, chunk);
                        // every newly processed record is linked
                        assert forall|k: int|
                            0 <= k < n && filters_match(ps0, #[trigger] old(catalog).file_paths@[k])
                                && !filters_match(ps0, catalog.file_paths@[k]) implies {
                            &&& catalog.file_paths@[k].cas_id is Some
                            &&& catalog.file_paths@[k].cas_id->0@
                                == crate::file_identifier::assembled_cas(
                                *files,
                                job_init.location,
                                old(catalog).file_paths@[k],
                            )
                            &&& catalog.file_paths@[k].object_id is Some
                            &&& crate::file_identifier::object_id_exists(
                                *catalog,
                                catalog.file_paths@[k].object_id->0,
                            )
                        } by {
                            if !filters_match(ps0, cur0.file_paths@[k]) {
                                // processed in an earlier step; untouched now
                                assert(!crate::file_identifier::chunk_hit(
                                    chunk,
                                    *files,
                                    job_init.location,
                                    cur0.file_paths@[k],
                                )) by {
                                    if crate::file_identifier::chunk_hit(
                                        chunk,
                                        *files,
                                        job_init.location,
                                        cur0.file_paths@[k],
                                    ) {
                                        let t = choose|t: int|
                                            0 <= t < chunk.len() && (#[trigger] chunk[t]).id
                                                == cur0.file_paths@[k].id
                                                && crate::file_identifier::file_assembles(
                                                *files,
                                                job_init.location,
                                                chunk[t],
                                            );
                                        assert(chunk[t] == rem[t]);
                                        lemma_filtered_sound(cur0.file_paths@, ps0);
                                        assert(cur0.file_paths@.contains(rem[t]));
                                        let k0 = choose|k0: int|
                                            0 <= k0 < cur0.file_paths@.len()
                                                && cur0.file_paths@[k0] == rem[t];
                                        assert(k0 == k) by {
                                            if k0 < k {
                                                assert(cur0.file_paths@[k0].id
                                                    < cur0.file_paths@[k].id);
                                            }
                                            if k < k0 {
                                                assert(cur0.file_paths@[k].id
                                                    < cur0.file_paths@[k0].id);
                                            }
                                        }
                                        assert(filters_match(ps0, cur0.file_paths@[k]));
                                    }
                                }
                                assert(catalog.file_paths@[k] == cur0.file_paths@[k]);
                                let oid = cur0.file_paths@[k].object_id->0;
                                assert(crate::file_identifier::object_id_exists(*catalog, oid))
                                    by {
                                    let j = choose|j: int|
                                        0 <= j < cur0.objects@.len() && (
                                        #[trigger] cur0.objects@[j]).id == oid;
                                    assert(catalog.objects@[j].id == oid);
                                }
                            } else {
                                // processed by this step
                                lemma_filtered_complete(cur0.file_paths@, ps0, k);
                                let t = choose|t: int|
                                    0 <= t < rem.len() && #[trigger] rem[t]
                                        == cur0.file_paths@[k];
                                assert(crate::file_identifier::chunk_hit(
                                    chunk,
                                    *files,
                                    job_init.location,
                                    cur0.file_paths@[k],
                                )) by {
                                    if t >= mlen {
                                        // past the chunk: the record would be untouched
                                        assert(!crate::file_identifier::chunk_hit(
                                            chunk,
                                            *files,
                                            job_init.location,
                                            cur0.file_paths@[k],
                                        ) ==> catalog.file_paths@[k] == cur0.file_paths@[k]);
                                        if !crate::file_identifier::chunk_hit(
                                            chunk,
                                            *files,
                                            job_init.location,
                                            cur0.file_paths@[k],
                                        ) {
                                            assert(filters_match(ps0, catalog.file_paths@[k]));
                                        }
                                    } else {
                                        assert(chunk[t] == rem[t]);
                                        assert(chunk[t].id == cur0.file_paths@[k].id);
                                        assert(crate::file_identifier::file_assembles(
                                            *files,
                                            job_init.location,
                                            chunk[t],
                                        ));
                                    }
                                }
                                assert(catalog.file_paths@[k].cas_id->0@
                                    == crate::file_identifier::assembled_cas(
                                    *files,
                                    job_init.location,
                                    cur0.file_paths@[k],
                                ));
                                assert(crate::file_identifier::abs_file_path(
                                    job_init.location,
                                    cur0.file_paths@[k],
                                ) == crate::file_identifier::abs_file_path(
                                    job_init.location,
                                    old(catalog).file_paths@[k],
                                ));
                            }
                        }
                    }
                }
                step += 1;
            },
            Err(e) => {
                proof {
                    if aa {
                        assert(chunk_of(cur0.file_paths@, ps_cur).len() > 0);
                        assert(false);
                    }
                }
                return Err(e);
            },
        }
    }
    proof {
        if aa {
            vstd::arithmetic::div_mod::lemma_fundamental_div_mod(n_orph - 1, CHUNK_SIZE as int);
            vstd::arithmetic::div_mod::lemma_mod_bound(n_orph - 1, CHUNK_SIZE as int);
            assert((CHUNK_SIZE as int) * task_count >= n_orph) by {
                assert(n_orph - 1 == (CHUNK_SIZE as int) * ((n_orph - 1) / (CHUNK_SIZE as int)) + (
                n_orph - 1) % (CHUNK_SIZE as int));
                assert((CHUNK_SIZE as int) * task_count == (CHUNK_SIZE as int) * ((n_orph - 1) / (
                CHUNK_SIZE as int)) + (CHUNK_SIZE as int)) by (nonlinear_arith)
                    requires
                        task_count == (n_orph - 1) / (CHUNK_SIZE as int) + 1,
                ;
            }
            let consumed = if (CHUNK_SIZE as int) * task_count <= n_orph {
                (CHUNK_SIZE as int) * task_count
            } else {
                n_orph
            };
            assert(consumed == n_orph);
            assert(filtered(catalog.file_paths@, ps0) == orph.skip(n_orph));
            assert(orph.skip(n_orph) =~= Seq::<FilePathRecord>::empty());
            assert forall|k: int|
                0 <= k < n && filters_match(ps0, #[trigger] old(catalog).file_paths@[k]) implies
                !filters_match(ps0, catalog.file_paths@[k]) by {
                if filters_match(ps0, catalog.file_paths@[k]) {
                    lemma_filtered_complete(catalog.file_paths@, ps0, k);
                }
            }
        }
    }
    let (rep_opt, invalidated) = job.finalize(&state);
    match rep_opt {
        Some(report) => Ok((report, ops_all, invalidated)),
        None => {
            proof {
                assert(false);
            }
            Err(
                JobError::EarlyFinish {
                    name: String::from_str("file_identifier"),
                    reason: String::from_str("missing report"),
                },
            )
        },
    }
}

} // verus!
