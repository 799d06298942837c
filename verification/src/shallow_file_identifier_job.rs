//! The shallow identifier job: identifies only the direct children of one
//! directory (or of the location root), scoping the orphan query by the
//! parent entry id instead of a materialized-path prefix.

use vstd::prelude::*;

use crate::catalog::{
    clone_record, filter_matches, filtered, filters_match, lemma_filtered_prefix,
    lemma_filtered_sorted, lemma_filtered_sound, record_matches, Catalog, FilePathRecord,
    FilePathWhereParam, LocationRecord,
};
use crate::errors::{FilePathError, JobError};
use crate::file_identifier::{
    chunk_from_catalog, count_assembled, distinct_ids, process_identifier_file_paths,
    step_catalog_effect, FileIdentifierJobError, FileIdentifierReport, FilePathIdCursor,
    CHUNK_SIZE,
};
use crate::file_identifier_job::sub_path_shape_ok;
use crate::strutil::{str_concat, str_eq};
use crate::sync::CrdtOp;
use crate::vfs::FileStore;

verus! {

/// The shallow identifier job.
pub struct ShallowFileIdentifierJob {}

/// What a shallow identifier run starts from: the location, and the
/// sub-path whose direct children are identified. The sub-path is given
/// in materialized form (beginning and ending with `/`); the empty string
/// names the location root itself.
#[derive(Clone, Debug)]
pub struct ShallowFileIdentifierJobInit {
    pub location: LocationRecord,
    pub sub_path: String,
}

/// The state a shallow identifier run carries between steps.
#[derive(Clone, Debug)]
pub struct ShallowFileIdentifierJobState {
    pub cursor: FilePathIdCursor,
    pub report: FileIdentifierReport,
    pub sub_path_id: i32,
}

/// The materialized directory path an entry itself names: the location
/// root entry (empty name) is its own materialized path, any other
/// directory is its containing path plus its name and a closing `/`.
pub open spec fn dir_materialized(fp: FilePathRecord) -> Seq<char> {
    if fp.name@.len() == 0 {
        fp.materialized_path@
    } else {
        fp.materialized_path@ + fp.name@ + seq!['/']
    }
}

/// Some directory entry of the location has this materialized path.
pub open spec fn has_dir_entry(catalog: Catalog, location_id: i32, target: Seq<char>) -> bool {
    exists|k: int|
        0 <= k < catalog.file_paths@.len() && (#[trigger] catalog.file_paths@[k]).is_dir
            && catalog.file_paths@[k].location_id == location_id && dir_materialized(
            catalog.file_paths@[k],
        ) == target
}

/// The entry at `k` is a directory entry of the location whose own
/// materialized path is `target`.
pub open spec fn is_dir_entry_at(
    catalog: Catalog,
    location_id: i32,
    target: Seq<char>,
    k: int,
) -> bool {
    &&& 0 <= k < catalog.file_paths@.len()
    &&& catalog.file_paths@[k].is_dir
    &&& catalog.file_paths@[k].location_id == location_id
    &&& dir_materialized(catalog.file_paths@[k]) == target
}

/// The entry at `k` is the first such directory entry, the one a sub-path
/// lookup resolves to.
pub open spec fn first_dir_entry_at(
    catalog: Catalog,
    location_id: i32,
    target: Seq<char>,
    k: int,
) -> bool {
    &&& is_dir_entry_at(catalog, location_id, target, k)
    &&& forall|k2: int| 0 <= k2 < k ==> !is_dir_entry_at(catalog, location_id, target, k2)
}

/// The materialized path a sub-path argument resolves: the location root
/// for the empty sub-path.
pub open spec fn sub_path_target(sub_path: Seq<char>) -> Seq<char> {
    if sub_path.len() == 0 {
        "/"@
    } else {
        sub_path
    }
}

/// Finds the entry id of the directory with the given materialized path.
pub fn get_existing_file_path_id(catalog: &Catalog, location_id: i32, target: &str) -> (r: Option<
    i32,
>)
    ensures
        (r is Some) == has_dir_entry(*catalog, location_id, target@),
        r matches Some(id) ==> exists|k: int|
            #[trigger] first_dir_entry_at(*catalog, location_id, target@, k)
                && catalog.file_paths@[k].id == id,
{
    let n = catalog.file_paths.len();
    let mut k: usize = 0;
    while k < n
        invariant
            0 <= k <= n,
            n == catalog.file_paths@.len(),
            forall|b: int|
                0 <= b < k ==> !((#[trigger] catalog.file_paths@[b]).is_dir
                    && catalog.file_paths@[b].location_id == location_id && dir_materialized(
                    catalog.file_paths@[b],
                ) == target@),
        decreases n - k,
    {
        let fp = &catalog.file_paths[k];
        if fp.is_dir && fp.location_id == location_id {
            let dir_path: String = if fp.name.as_str().unicode_len() == 0 {
                fp.materialized_path.clone()
            } else {
                let mut s = str_concat(fp.materialized_path.as_str(), fp.name.as_str());
                s.append("/");
                proof {
                    reveal_strlit("/");
                    assert(s@ =~= dir_materialized(*fp));
                }
                s
            };
            if str_eq(dir_path.as_str(), target) {
                proof {
                    assert(first_dir_entry_at(*catalog, location_id, target@, k as int));
                }
                return Some(fp.id);
            }
        }
        k += 1;
    }
    None
}

/// The filter list of the shallow orphan query, as a specification value.
pub open spec fn shallow_orphan_params(
    location_id: i32,
    file_path_id: Option<i32>,
    sub_path_id: i32,
) -> Seq<FilePathWhereParam> {
    let base = seq![
        FilePathWhereParam::ObjectIdEquals(Option::None),
        FilePathWhereParam::IsDirEquals(false),
        FilePathWhereParam::LocationIdEquals(location_id),
        FilePathWhereParam::ParentIdEquals(Option::Some(sub_path_id)),
    ];
    match file_path_id {
        Option::Some(c) => base.push(FilePathWhereParam::IdGte(c)),
        Option::None => base,
    }
}

/// What the shallow orphan filters say of one record: no Object link, not
/// a directory, the right location, a direct child of the sub-path entry,
/// and at or past the cursor.
pub open spec fn shallow_orphan_pred(
    fp: FilePathRecord,
    location_id: i32,
    file_path_id: Option<i32>,
    sub_path_id: i32,
) -> bool {
    &&& fp.object_id is None
    &&& !fp.is_dir
    &&& fp.location_id == location_id
    &&& fp.parent_id == Some(sub_path_id)
    &&& match file_path_id {
        Option::Some(c) => fp.id >= c,
        Option::None => true,
    }
}

/// The shallow orphan query filters.
pub fn orphan_path_filters(location_id: i32, file_path_id: Option<i32>, sub_path_id: i32) -> (r:
    Vec<FilePathWhereParam>)
    ensures
        r@ == shallow_orphan_params(location_id, file_path_id, sub_path_id),
        forall|fp: FilePathRecord|
            filters_match(r@, fp) == shallow_orphan_pred(
                fp,
                location_id,
                file_path_id,
                sub_path_id,
            ),
{
    let mut params: Vec<FilePathWhereParam> = Vec::new();
    params.push(FilePathWhereParam::ObjectIdEquals(None));
    params.push(FilePathWhereParam::IsDirEquals(false));
    params.push(FilePathWhereParam::LocationIdEquals(location_id));
    params.push(FilePathWhereParam::ParentIdEquals(Some(sub_path_id)));
    match file_path_id {
        Some(c) => params.push(FilePathWhereParam::IdGte(c)),
        None => {},
    }
    proof {
        assert(params@ =~= shallow_orphan_params(location_id, file_path_id, sub_path_id));
        assert forall|fp: FilePathRecord|
            filters_match(params@, fp) == shallow_orphan_pred(
                fp,
                location_id,
                file_path_id,
                sub_path_id,
            ) by {
            if shallow_orphan_pred(fp, location_id, file_path_id, sub_path_id) {
                assert forall|i: int|
                    0 <= i < params@.len() implies filter_matches(#[trigger] params@[i], fp) by {}
            } else {
                if filters_match(params@, fp) {
                    assert(filter_matches(params@[0], fp));
                    assert(filter_matches(params@[1], fp));
                    assert(filter_matches(params@[2], fp));
                    assert(filter_matches(params@[3], fp));
                    if params@.len() > 4 {
                        assert(filter_matches(params@[4], fp));
                    }
                }
            }
        }
    }
    params
}

/// Counts the orphan direct children of the sub-path entry.
pub fn count_orphan_file_paths(catalog: &Catalog, location_id: i32, sub_path_id: i32) -> (r: usize)
    ensures
        r == filtered(
            catalog.file_paths@,
            shallow_orphan_params(location_id, Option::None, sub_path_id),
        ).len(),
{
    let params = orphan_path_filters(location_id, None, sub_path_id);
    let ghost ps = params@;
    let n = catalog.file_paths.len();
    let mut count: usize = 0;
    let mut i: usize = 0;
    while i < n
        invariant
            0 <= i <= n,
            n == catalog.file_paths@.len(),
            ps == params@,
            count == filtered(catalog.file_paths@.take(i as int), ps).len(),
            count <= i,
        decreases n - i,
    {
        let ghost tk = catalog.file_paths@.take(i as int);
        let ghost tk1 = catalog.file_paths@.take(i as int + 1);
        proof {
            assert(tk1.drop_last() =~= tk);
            assert(tk1.last() == catalog.file_paths@[i as int]);
        }
        if record_matches(&catalog.file_paths[i], &params) {
            count += 1;
        }
        i += 1;
    }
    proof {
        assert(catalog.file_paths@.take(n as int) =~= catalog.file_paths@);
    }
    count
}

/// Fetches the next chunk of orphan direct children at the cursor.
pub fn get_orphan_file_paths(
    catalog: &Catalog,
    location_id: i32,
    cursor: &FilePathIdCursor,
    sub_path_id: i32,
) -> (r: Vec<FilePathRecord>)
    ensures
        r@ == crate::file_identifier_job::chunk_of(
            catalog.file_paths@,
            shallow_orphan_params(location_id, Some(cursor.file_path_id), sub_path_id),
        ),
{
    let params = orphan_path_filters(location_id, Some(cursor.file_path_id), sub_path_id);
    let ghost ps = params@;
    let ghost whole = filtered(catalog.file_paths@, ps);
    let n = catalog.file_paths.len();
    let mut out: Vec<FilePathRecord> = Vec::new();
    let mut i: usize = 0;
    while i < n && out.len() < CHUNK_SIZE
        invariant
            0 <= i <= n,
            n == catalog.file_paths@.len(),
            ps == params@,
            whole == filtered(catalog.file_paths@, ps),
            out@ == filtered(catalog.file_paths@.take(i as int), ps),
            out@.len() <= CHUNK_SIZE,
        decreases n - i,
    {
        let ghost tk = catalog.file_paths@.take(i as int);
        let ghost tk1 = catalog.file_paths@.take(i as int + 1);
        proof {
            assert(tk1.drop_last() =~= tk);
            assert(tk1.last() == catalog.file_paths@[i as int]);
        }
        if record_matches(&catalog.file_paths[i], &params) {
            out.push(clone_record(&catalog.file_paths[i]));
        }
        i += 1;
    }
    proof {
        lemma_filtered_prefix(catalog.file_paths@, ps, i as int);
        if i == n {
            assert(catalog.file_paths@.take(n as int) =~= catalog.file_paths@);
        } else {
            assert(out@.len() == CHUNK_SIZE);
            assert(whole.take(out@.len() as int) == out@);
            if whole.len() <= CHUNK_SIZE {
                assert(whole.take(out@.len() as int) =~= whole);
            }
        }
    }
    out
}

/// Finds the smallest orphan id among the sub-path entry's children.
pub fn find_first_orphan_id(catalog: &Catalog, location_id: i32, sub_path_id: i32) -> (r: Option<
    i32,
>)
    ensures
        (r is Some) == (filtered(
            catalog.file_paths@,
            shallow_orphan_params(location_id, Option::None, sub_path_id),
        ).len() > 0),
        r matches Some(id) ==> id == filtered(
            catalog.file_paths@,
            shallow_orphan_params(location_id, Option::None, sub_path_id),
        )[0].id,
{
    let params = orphan_path_filters(location_id, None, sub_path_id);
    let ghost ps = params@;
    let ghost whole = filtered(catalog.file_paths@, ps);
    let n = catalog.file_paths.len();
    let mut i: usize = 0;
    while i < n
        invariant
            0 <= i <= n,
            n == catalog.file_paths@.len(),
            ps == params@,
            ps == shallow_orphan_params(location_id, Option::None, sub_path_id),
            whole == filtered(catalog.file_paths@, ps),
            filtered(catalog.file_paths@.take(i as int), ps).len() == 0,
        decreases n - i,
    {
        let ghost tk = catalog.file_paths@.take(i as int);
        let ghost tk1 = catalog.file_paths@.take(i as int + 1);
        proof {
            assert(tk1.drop_last() =~= tk);
            assert(tk1.last() == catalog.file_paths@[i as int]);
        }
        if record_matches(&catalog.file_paths[i], &params) {
            proof {
                lemma_filtered_prefix(catalog.file_paths@, ps, i as int + 1);
                assert(filtered(tk1, ps).len() == 1);
                assert(whole.take(1)[0] == filtered(tk1, ps)[0]);
                assert(whole[0] == catalog.file_paths@[i as int]);
            }
            return Some(catalog.file_paths[i].id);
        }
        i += 1;
    }
    proof {
        assert(catalog.file_paths@.take(n as int) =~= catalog.file_paths@);
    }
    None
}

impl ShallowFileIdentifierJob {
    /// The job's name.
    pub fn name(&self) -> (r: &'static str)
        ensures
            r@ == "shallow_file_identifier"@,
    {
        "shallow_file_identifier"
    }

    /// `Init`: validates the sub-path, resolves its entry id (the location
    /// root's when the sub-path is empty), counts its orphan children, and
    /// fails with an early finish when there are none. `sub_path_is_dir`
    /// reports what the filesystem said of a non-empty sub-path.
    pub fn init(
        &self,
        catalog: &Catalog,
        job_init: &ShallowFileIdentifierJobInit,
        sub_path_is_dir: bool,
    ) -> (r: Result<(ShallowFileIdentifierJobState, usize), JobError>)
        requires
            (job_init.sub_path@.len() == 0 ==> has_dir_entry(
                *catalog,
                job_init.location.id,
                "/"@,
            )),
            (job_init.sub_path@.len() > 0 && sub_path_shape_ok(job_init.sub_path@)
                && sub_path_is_dir ==> has_dir_entry(
                *catalog,
                job_init.location.id,
                job_init.sub_path@,
            )),
        ensures
            ({
                match r {
                    Ok(p) => {
                        let count = filtered(
                            catalog.file_paths@,
                            shallow_orphan_params(
                                job_init.location.id,
                                Option::None,
                                p.0.sub_path_id,
                            ),
                        ).len();
                        &&& (job_init.sub_path@.len() > 0 ==> sub_path_shape_ok(
                            job_init.sub_path@,
                        ) && sub_path_is_dir)
                        &&& count > 0
                        &&& p.0.report.location_path@ == job_init.location.path@
                        &&& p.0.report.total_orphan_paths == count
                        &&& p.0.report.total_objects_created == 0
                        &&& p.0.report.total_objects_linked == 0
                        &&& p.0.cursor.file_path_id == filtered(
                            catalog.file_paths@,
                            shallow_orphan_params(
                                job_init.location.id,
                                Option::None,
                                p.0.sub_path_id,
                            ),
                        )[0].id
                        &&& p.1 == (count - 1) / (CHUNK_SIZE as int) + 1
                        &&& exists|k: int|
                            #[trigger] first_dir_entry_at(
                                *catalog,
                                job_init.location.id,
                                sub_path_target(job_init.sub_path@),
                                k,
                            ) && catalog.file_paths@[k].id == p.0.sub_path_id
                    },
                    Err(e) => {
                        ||| (e matches JobError::FilePath(FilePathError::SubPathNotInLocation(_))
                            && job_init.sub_path@.len() > 0 && !sub_path_shape_ok(
                            job_init.sub_path@,
                        ))
                        ||| (e matches JobError::FilePath(FilePathError::SubPathNotDirectory(_))
                            && job_init.sub_path@.len() > 0 && sub_path_shape_ok(
                            job_init.sub_path@,
                        ) && !sub_path_is_dir)
                        ||| (e matches JobError::EarlyFinish { name, reason } && name@
                            == "shallow_file_identifier"@ && reason@
                            == "Found no orphan file paths to process"@ && (job_init.sub_path@.len()
                            > 0 ==> sub_path_shape_ok(job_init.sub_path@) && sub_path_is_dir)
                            && exists|k: int|
                            #[trigger] first_dir_entry_at(
                                *catalog,
                                job_init.location.id,
                                sub_path_target(job_init.sub_path@),
                                k,
                            ) && filtered(
                                catalog.file_paths@,
                                shallow_orphan_params(
                                    job_init.location.id,
                                    Option::None,
                                    catalog.file_paths@[k].id,
                                ),
                            ).len() == 0)
                    },
                }
            }),
    {
        let sub_path_id: i32;
        if job_init.sub_path.as_str().unicode_len() > 0 {
            if !crate::file_identifier_job::check_sub_path_shape(job_init.sub_path.as_str()) {
                return Err(
                    FileIdentifierJobError::FilePathError(
                        FilePathError::SubPathNotInLocation(job_init.sub_path.clone()),
                    ).into_job_error(),
                );
            }
            if !sub_path_is_dir {
                return Err(
                    FileIdentifierJobError::FilePathError(
                        FilePathError::SubPathNotDirectory(job_init.sub_path.clone()),
                    ).into_job_error(),
                );
            }
            sub_path_id = match get_existing_file_path_id(
                catalog,
                job_init.location.id,
                job_init.sub_path.as_str(),
            ) {
                Some(id) => {
                    proof {
                        assert(sub_path_target(job_init.sub_path@) == job_init.sub_path@);
                        let kw = choose|k: int|
                            #[trigger] first_dir_entry_at(
                                *catalog,
                                job_init.location.id,
                                job_init.sub_path@,
                                k,
                            ) && catalog.file_paths@[k].id == id;
                        assert(first_dir_entry_at(
                            *catalog,
                            job_init.location.id,
                            sub_path_target(job_init.sub_path@),
                            kw,
                        ) && catalog.file_paths@[kw].id == id);
                    }
                    id
                },
                None => {
                    proof {
                        assert(false);
                    }
                    0
                },
            };
        } else {
            sub_path_id = match get_existing_file_path_id(catalog, job_init.location.id, "/") {
                Some(id) => {
                    proof {
                        assert(sub_path_target(job_init.sub_path@) == "/"@);
                        let kw = choose|k: int|
                            #[trigger] first_dir_entry_at(
                                *catalog,
                                job_init.location.id,
                                "/"@,
                                k,
                            ) && catalog.file_paths@[k].id == id;
                        assert(first_dir_entry_at(
                            *catalog,
                            job_init.location.id,
                            sub_path_target(job_init.sub_path@),
                            kw,
                        ) && catalog.file_paths@[kw].id == id);
                    }
                    id
                },
                None => {
                    proof {
                        assert(false);
                    }
                    0
                },
            };
        }
        proof {
            assert(exists|k: int|
                #[trigger] first_dir_entry_at(
                    *catalog,
                    job_init.location.id,
                    sub_path_target(job_init.sub_path@),
                    k,
                ) && catalog.file_paths@[k].id == sub_path_id);
        }
        let orphan_count = count_orphan_file_paths(catalog, job_init.location.id, sub_path_id);
        let mut report = FileIdentifierReport::new(job_init.location.path.clone());
        report.total_orphan_paths = orphan_count;
        if orphan_count == 0 {
            proof {
                let kw = choose|k: int|
                    #[trigger] first_dir_entry_at(
                        *catalog,
                        job_init.location.id,
                        sub_path_target(job_init.sub_path@),
                        k,
                    ) && catalog.file_paths@[k].id == sub_path_id;
                assert(filtered(
                    catalog.file_paths@,
                    shallow_orphan_params(
                        job_init.location.id,
                        Option::None,
                        catalog.file_paths@[kw].id,
                    ),
                ).len() == 0);
            }
            return Err(
                JobError::EarlyFinish {
                    name: String::from_str("shallow_file_identifier"),
                    reason: String::from_str("Found no orphan file paths to process"),
                },
            );
        }
        let task_count = (orphan_count - 1) / CHUNK_SIZE + 1;
        let first_id = match find_first_orphan_id(catalog, job_init.location.id, sub_path_id) {
            Some(id) => id,
            None => {
                proof {
                    assert(false);
                }
                0
            },
        };
        Ok(
            (
                ShallowFileIdentifierJobState {
                    cursor: FilePathIdCursor { file_path_id: first_id },
                    report,
                    sub_path_id,
                },
                task_count,
            ),
        )
    }

    /// One `Step`: fetches the chunk of orphan children at the cursor and
    /// processes it.
    pub fn execute_step(
        &self,
        catalog: &mut Catalog,
        files: &FileStore,
        job_init: &ShallowFileIdentifierJobInit,
        state: &mut ShallowFileIdentifierJobState,
        step_number: usize,
    ) -> (r: Result<Vec<CrdtOp>, JobError>)
        requires
            old(catalog).wf(),
            files.wf(),
            old(catalog).next_object_id + CHUNK_SIZE <= i32::MAX,
            old(state).report.total_objects_created + CHUNK_SIZE <= usize::MAX,
            old(state).report.total_objects_linked + CHUNK_SIZE <= usize::MAX,
        ensures
            ({
                let chunk = crate::file_identifier_job::chunk_of(
                    old(catalog).file_paths@,
                    shallow_orphan_params(
                        job_init.location.id,
                        Some(old(state).cursor.file_path_id),
                        old(state).sub_path_id,
                    ),
                );
                &&& (chunk.len() == 0) == (r is Err)
                &&& r is Err ==> *final(catalog) == *old(catalog) && *final(state) == *old(state)
                    && (r->Err_0 matches JobError::EarlyFinish { name, reason } && name@
                    == "shallow_file_identifier"@ && reason@
                    == "Expected orphan Paths not returned from database query for this chunk"@)
                &&& r is Ok ==> {
                    &&& step_catalog_effect(
                        *old(catalog),
                        *final(catalog),
                        *files,
                        job_init.location,
                        chunk,
                    )
                    &&& crate::file_identifier::step_ops_description(
                        *old(catalog),
                        *final(catalog),
                        *files,
                        job_init.location,
                        chunk,
                        r->Ok_0@,
                    )
                    &&& final(state).report.total_objects_created == old(
                        state,
                    ).report.total_objects_created + (final(catalog).objects@.len() - old(
                        catalog,
                    ).objects@.len())
                    &&& final(state).report.total_objects_created + final(state).report.total_objects_linked == old(
                        state,
                    ).report.total_objects_created + old(state).report.total_objects_linked
                        + count_assembled(*files, job_init.location, chunk)
                    &&& final(state).report.total_orphan_paths == old(
                        state,
                    ).report.total_orphan_paths
                    &&& final(state).sub_path_id == old(state).sub_path_id
                    &&& final(state).cursor.file_path_id == chunk[chunk.len() - 1].id
                }
            }),
    {
        let file_paths = get_orphan_file_paths(
            catalog,
            job_init.location.id,
            &state.cursor,
            state.sub_path_id,
        );
        proof {
            let ps = shallow_orphan_params(
                job_init.location.id,
                Some(state.cursor.file_path_id),
                state.sub_path_id,
            );
            let whole = filtered(catalog.file_paths@, ps);
            lemma_filtered_sound(catalog.file_paths@, ps);
            lemma_filtered_sorted(catalog.file_paths@, ps);
            assert forall|t: int| 0 <= t < file_paths@.len() implies exists|k: int|
                0 <= k < catalog.file_paths@.len() && (#[trigger] file_paths@[t])
                    == catalog.file_paths@[k] by {
                assert(file_paths@[t] == whole[t]);
                assert(catalog.file_paths@.contains(whole[t]));
                let k = choose|k: int|
                    0 <= k < catalog.file_paths@.len() && catalog.file_paths@[k] == whole[t];
                assert(catalog.file_paths@[k] == file_paths@[t]);
            }
            assert(chunk_from_catalog(file_paths@, catalog.file_paths@));
            assert forall|t1: int, t2: int|
                0 <= t1 < t2 < file_paths@.len() implies (#[trigger] file_paths@[t1]).id != (
            #[trigger] file_paths@[t2]).id by {
                assert(file_paths@[t1] == whole[t1] && file_paths@[t2] == whole[t2]);
            }
            assert(distinct_ids(file_paths@));
            assert(file_paths@.len() <= CHUNK_SIZE);
            lemma_filtered_sound(catalog.file_paths@, ps);
            assert forall|t: int|
                0 <= t < file_paths@.len() implies (#[trigger] file_paths@[t]).object_id
                is None by {
                assert(file_paths@[t] == whole[t]);
                assert(filters_match(ps, whole[t]));
                assert(crate::catalog::filter_matches(ps[0], whole[t]));
            }
        }
        process_identifier_file_paths(
            "shallow_file_identifier",
            &job_init.location,
            &file_paths,
            step_number,
            &mut state.cursor,
            &mut state.report,
            catalog,
            files,
        )
    }

    /// `Finalize`: emits the report and says whether the cached explorer
    /// query must be invalidated.
    pub fn finalize(&self, state: &ShallowFileIdentifierJobState) -> (r: (
        Option<FileIdentifierReport>,
        bool,
    ))
        ensures
            r.0 == Some(state.report),
            r.1 == (state.report.total_orphan_paths > 0),
    {
        crate::file_identifier::finalize_file_identifier(&state.report)
    }
}

} // verus!
