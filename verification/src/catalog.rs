//! In-memory model of the catalog store: locations, file-path entries and
//! Objects, with the query filters the identifier jobs use.
//!
//! A `materialized_path` is the location-relative POSIX path of an entry's
//! containing directory, beginning and ending with `/`; the entry's name
//! and its lowercase extension (no dot) are stored separately. The full
//! relative path of a file entry is `materialized_path + name`, with
//! `.extension` appended when the extension is non-empty.

use vstd::prelude::*;

use crate::strutil::{is_str_prefix, str_starts_with};

verus! {

/// A user-registered root directory being indexed.
#[derive(Clone, PartialEq, Eq, Debug)]
pub struct LocationRecord {
    pub id: i32,
    pub pub_id: u128,
    pub path: String,
}

/// One catalog record per path discovered under a location.
#[derive(Clone, PartialEq, Eq, Debug)]
pub struct FilePathRecord {
    pub id: i32,
    pub pub_id: u128,
    pub location_id: i32,
    pub materialized_path: String,
    pub name: String,
    pub extension: String,
    pub is_dir: bool,
    pub parent_id: Option<i32>,
    pub object_id: Option<i32>,
    pub cas_id: Option<String>,
    pub inode: u64,
    pub device: u64,
    pub size_in_bytes: u64,
    pub date_created: i64,
    pub date_modified: i64,
}

/// A logical file identity shared by all entries with the same content.
#[derive(Clone, PartialEq, Eq, Debug)]
pub struct ObjectRecord {
    pub id: i32,
    pub pub_id: u128,
    pub kind: i32,
    pub date_created: i64,
    pub size_in_bytes: u64,
}

/// The catalog of one library: its locations, file-path entries in
/// ascending id order, and Objects.
#[derive(Clone, PartialEq, Eq, Debug)]
pub struct Catalog {
    pub locations: Vec<LocationRecord>,
    pub file_paths: Vec<FilePathRecord>,
    pub objects: Vec<ObjectRecord>,
    pub next_object_id: i32,
}

impl Catalog {
    /// File-path entries are strictly ordered by id, and Object ids are
    /// unique and below the allocation cursor.
    pub open spec fn wf(self) -> bool {
        &&& forall|i: int, j: int|
            0 <= i < j < self.file_paths@.len() ==> (#[trigger] self.file_paths@[i]).id < (
            #[trigger] self.file_paths@[j]).id
        &&& forall|i: int, j: int|
            0 <= i < self.objects@.len() && 0 <= j < self.objects@.len() && i != j ==> (
            #[trigger] self.objects@[i]).id != (#[trigger] self.objects@[j]).id
        &&& forall|i: int|
            0 <= i < self.objects@.len() ==> (#[trigger] self.objects@[i]).id
                < self.next_object_id
    }

    /// Validates `wf` executably.
    pub fn is_wf(&self) -> (r: bool)
        ensures
            r == self.wf(),
    {
        let nf = self.file_paths.len();
        let mut i: usize = 1;
        while i < nf
            invariant
                1 <= i,
                nf == self.file_paths@.len(),
                i <= nf || nf <= 1,
                forall|a: int, b: int|
                    0 <= a < b < i && b < nf ==> (#[trigger] self.file_paths@[a]).id < (
                    #[trigger] self.file_paths@[b]).id,
            decreases nf - i,
        {
            if self.file_paths[i - 1].id >= self.file_paths[i].id {
                return false;
            }
            proof {
                assert forall|a: int, b: int|
                    0 <= a < b < i + 1 && b < nf implies (#[trigger] self.file_paths@[a]).id < (
                #[trigger] self.file_paths@[b]).id by {
                    if b == i as int {
                        assert(self.file_paths@[a].id <= self.file_paths@[i - 1].id);
                    }
                }
            }
            i += 1;
        }
        let no = self.objects.len();
        let mut i: usize = 0;
        while i < no
            invariant
                0 <= i <= no,
                no == self.objects@.len(),
                forall|a: int, b: int|
                    0 <= a < self.objects@.len() && 0 <= b < i && a != b ==> (
                    #[trigger] self.objects@[a]).id != (#[trigger] self.objects@[b]).id || a >= i,
                forall|a: int, b: int|
                    0 <= a < i && 0 <= b < i && a != b ==> (#[trigger] self.objects@[a]).id != (
                    #[trigger] self.objects@[b]).id,
                forall|a: int|
                    0 <= a < i ==> (#[trigger] self.objects@[a]).id < self.next_object_id,
            decreases no - i,
        {
            if self.objects[i].id >= self.next_object_id {
                return false;
            }
            let mut j: usize = 0;
            while j < i
                invariant
                    0 <= j <= i < no,
                    no == self.objects@.len(),
                    forall|b: int|
                        0 <= b < j ==> (#[trigger] self.objects@[b]).id != self.objects@[
                            i as int
                        ].id,
                decreases i - j,
            {
                if self.objects[j].id == self.objects[i].id {
                    return false;
                }
                j += 1;
            }
            i += 1;
        }
        true
    }

    /// An empty catalog with the given locations.
    pub fn new(locations: Vec<LocationRecord>) -> (r: Catalog)
        ensures
            r.wf(),
            r.locations == locations,
            r.file_paths@.len() == 0,
            r.objects@.len() == 0,
    {
        Catalog { locations, file_paths: Vec::new(), objects: Vec::new(), next_object_id: 0 }
    }
}

/// One conjunct of a file-path query, mirroring the catalog store's filter
/// language.
#[derive(Clone, PartialEq, Eq, Debug)]
pub enum FilePathWhereParam {
    ObjectIdEquals(Option<i32>),
    IsDirEquals(bool),
    LocationIdEquals(i32),
    IdGte(i32),
    MaterializedPathStartsWith(String),
    ParentIdEquals(Option<i32>),
}

/// Whether one filter conjunct holds of a record.
pub open spec fn filter_matches(p: FilePathWhereParam, fp: FilePathRecord) -> bool {
    match p {
        FilePathWhereParam::ObjectIdEquals(v) => fp.object_id == v,
        FilePathWhereParam::IsDirEquals(v) => fp.is_dir == v,
        FilePathWhereParam::LocationIdEquals(v) => fp.location_id == v,
        FilePathWhereParam::IdGte(v) => fp.id >= v,
        FilePathWhereParam::MaterializedPathStartsWith(s) => is_str_prefix(
            s@,
            fp.materialized_path@,
        ),
        FilePathWhereParam::ParentIdEquals(v) => fp.parent_id == v,
    }
}

/// Whether every filter conjunct holds of a record.
pub open spec fn filters_match(ps: Seq<FilePathWhereParam>, fp: FilePathRecord) -> bool {
    forall|i: int| 0 <= i < ps.len() ==> filter_matches(#[trigger] ps[i], fp)
}

/// Evaluates a filter list on one record.
pub fn record_matches(fp: &FilePathRecord, ps: &Vec<FilePathWhereParam>) -> (r: bool)
    ensures
        r == filters_match(ps@, *fp),
{
    let mut i: usize = 0;
    while i < ps.len()
        invariant
            0 <= i <= ps@.len(),
            forall|k: int| 0 <= k < i ==> filter_matches(#[trigger] ps@[k], *fp),
        decreases ps@.len() - i,
    {
        let ok = match &ps[i] {
            FilePathWhereParam::ObjectIdEquals(v) => {
                match (&fp.object_id, v) {
                    (Some(a), Some(b)) => *a == *b,
                    (None, None) => true,
                    _ => false,
                }
            },
            FilePathWhereParam::IsDirEquals(v) => fp.is_dir == *v,
            FilePathWhereParam::LocationIdEquals(v) => fp.location_id == *v,
            FilePathWhereParam::IdGte(v) => fp.id >= *v,
            FilePathWhereParam::MaterializedPathStartsWith(s) => {
                str_starts_with(fp.materialized_path.as_str(), s.as_str())
            },
            FilePathWhereParam::ParentIdEquals(v) => {
                match (&fp.parent_id, v) {
                    (Some(a), Some(b)) => *a == *b,
                    (None, None) => true,
                    _ => false,
                }
            },
        };
        if !ok {
            return false;
        }
        i += 1;
    }
    true
}

/// The records of `fps` that match `ps`, in order.
pub open spec fn filtered(fps: Seq<FilePathRecord>, ps: Seq<FilePathWhereParam>) -> Seq<
    FilePathRecord,
>
    decreases fps.len(),
{
    if fps.len() == 0 {
        Seq::empty()
    } else if filters_match(ps, fps.last()) {
        filtered(fps.drop_last(), ps).push(fps.last())
    } else {
        filtered(fps.drop_last(), ps)
    }
}

/// A shorter prefix filters to a prefix of the longer one's result.
pub proof fn lemma_filtered_prefix(fps: Seq<FilePathRecord>, ps: Seq<FilePathWhereParam>, k: int)
    requires
        0 <= k <= fps.len(),
    ensures
        filtered(fps.take(k), ps).len() <= filtered(fps, ps).len(),
        filtered(fps, ps).take(filtered(fps.take(k), ps).len() as int) == filtered(
            fps.take(k),
            ps,
        ),
    decreases fps.len() - k,
{
    if k == fps.len() {
        assert(fps.take(k) =~= fps);
        assert(filtered(fps, ps).take(filtered(fps, ps).len() as int) =~= filtered(fps, ps));
    } else {
        lemma_filtered_prefix(fps, ps, k + 1);
        let t1 = fps.take(k + 1);
        assert(t1.drop_last() =~= fps.take(k));
        assert(t1.last() == fps[k]);
        let fk = filtered(fps.take(k), ps);
        let fk1 = filtered(t1, ps);
        if filters_match(ps, fps[k]) {
            assert(fk1 == fk.push(fps[k]));
            assert(fk1.take(fk.len() as int) =~= fk);
            assert(filtered(fps, ps).take(fk.len() as int) =~= fk) by {
                let whole = filtered(fps, ps);
                assert(whole.take(fk1.len() as int) == fk1);
                assert(forall|m: int|
                    0 <= m < fk.len() ==> whole.take(fk1.len() as int)[m] == #[trigger] whole[m]);
                assert(forall|m: int| 0 <= m < fk.len() ==> fk1[m] == fk[m]);
            }
        } else {
            assert(fk1 == fk);
        }
    }
}

/// Every record in a filtered sequence matches the filters and occurs in
/// the source.
pub proof fn lemma_filtered_sound(fps: Seq<FilePathRecord>, ps: Seq<FilePathWhereParam>)
    ensures
        forall|i: int|
            0 <= i < filtered(fps, ps).len() ==> filters_match(ps, #[trigger] filtered(fps, ps)[i]),
        forall|i: int|
            0 <= i < filtered(fps, ps).len() ==> fps.contains(#[trigger] filtered(fps, ps)[i]),
    decreases fps.len(),
{
    if fps.len() > 0 {
        lemma_filtered_sound(fps.drop_last(), ps);
        assert(forall|i: int| 0 <= i < fps.len() - 1 ==> fps.drop_last()[i] == #[trigger] fps[i]);
        assert forall|i: int| 0 <= i < filtered(fps, ps).len() implies filters_match(
            ps,
            #[trigger] filtered(fps, ps)[i],
        ) by {
            let f = filtered(fps, ps);
            let fd = filtered(fps.drop_last(), ps);
            if i < fd.len() {
                assert(f[i] == fd[i]);
            } else {
                assert(f[i] == fps.last());
            }
        }
        assert forall|i: int| 0 <= i < filtered(fps, ps).len() implies fps.contains(
            #[trigger] filtered(fps, ps)[i],
        ) by {
            let f = filtered(fps, ps);
            let fd = filtered(fps.drop_last(), ps);
            if i < fd.len() {
                assert(f[i] == fd[i]);
                let w = choose|w: int| 0 <= w < fps.len() - 1 && fps.drop_last()[w] == fd[i];
                assert(fps[w] == f[i]);
            } else {
                assert(f[i] == fps.last());
                assert(fps[fps.len() - 1] == fps.last());
            }
        }
    }
}

/// Filtering a strictly id-sorted sequence yields a strictly id-sorted
/// sequence.
pub proof fn lemma_filtered_sorted(fps: Seq<FilePathRecord>, ps: Seq<FilePathWhereParam>)
    requires
        forall|i: int, j: int|
            0 <= i < j < fps.len() ==> (#[trigger] fps[i]).id < (#[trigger] fps[j]).id,
    ensures
        forall|i: int, j: int|
            0 <= i < j < filtered(fps, ps).len() ==> (#[trigger] filtered(fps, ps)[i]).id < (
            #[trigger] filtered(fps, ps)[j]).id,
    decreases fps.len(),
{
    if fps.len() > 0 {
        let d = fps.drop_last();
        assert(forall|i: int| 0 <= i < d.len() ==> d[i] == #[trigger] fps[i]);
        lemma_filtered_sorted(d, ps);
        lemma_filtered_sound(d, ps);
        let f = filtered(fps, ps);
        let fd = filtered(d, ps);
        assert forall|i: int, j: int| 0 <= i < j < f.len() implies (#[trigger] f[i]).id < (
        #[trigger] f[j]).id by {
            if j < fd.len() {
            } else if filters_match(ps, fps.last()) {
                assert(f[j] == fps.last());
                assert(f[i] == fd[i]);
                assert(d.contains(fd[i]));
                let w = choose|w: int| 0 <= w < d.len() && d[w] == fd[i];
                assert(fps[w] == fd[i]);
                assert(fps[w].id < fps[fps.len() - 1].id);
            }
        }
    }
}

/// Replaces the file-path record at `k`.
pub fn set_file_path(catalog: &mut Catalog, k: usize, rec: FilePathRecord)
    requires
        k < old(catalog).file_paths@.len(),
    ensures
        final(catalog).file_paths@ == old(catalog).file_paths@.update(k as int, rec),
        final(catalog).locations == old(catalog).locations,
        final(catalog).objects == old(catalog).objects,
        final(catalog).next_object_id == old(catalog).next_object_id,
{
    catalog.file_paths.remove(k);
    catalog.file_paths.insert(k, rec);
    proof {
        assert(catalog.file_paths@ =~= old(catalog).file_paths@.update(k as int, rec));
    }
}

/// Finds the index of the file-path record with the given id.
pub fn find_fp_index(catalog: &Catalog, id: i32) -> (r: Option<usize>)
    ensures
        match r {
            Some(k) => 0 <= k < catalog.file_paths@.len() && catalog.file_paths@[k as int].id == id,
            None => forall|j: int|
                0 <= j < catalog.file_paths@.len() ==> (#[trigger] catalog.file_paths@[j]).id != id,
        },
{
    let n = catalog.file_paths.len();
    let mut j: usize = 0;
    while j < n
        invariant
            0 <= j <= n,
            n == catalog.file_paths@.len(),
            forall|b: int| 0 <= b < j ==> (#[trigger] catalog.file_paths@[b]).id != id,
        decreases n - j,
    {
        if catalog.file_paths[j].id == id {
            return Some(j);
        }
        j += 1;
    }
    None
}

/// A copy of a file-path record, equal to the original.
pub fn clone_record(fp: &FilePathRecord) -> (r: FilePathRecord)
    ensures
        r == *fp,
{
    FilePathRecord {
        id: fp.id,
        pub_id: fp.pub_id,
        location_id: fp.location_id,
        materialized_path: fp.materialized_path.clone(),
        name: fp.name.clone(),
        extension: fp.extension.clone(),
        is_dir: fp.is_dir,
        parent_id: fp.parent_id,
        object_id: fp.object_id,
        cas_id: fp.cas_id.clone(),
        inode: fp.inode,
        device: fp.device,
        size_in_bytes: fp.size_in_bytes,
        date_created: fp.date_created,
        date_modified: fp.date_modified,
    }
}

/// A matching record occurs in the filtered sequence.
pub proof fn lemma_filtered_complete(
    fps: Seq<FilePathRecord>,
    ps: Seq<FilePathWhereParam>,
    k: int,
)
    requires
        0 <= k < fps.len(),
        filters_match(ps, fps[k]),
    ensures
        filtered(fps, ps).contains(fps[k]),
    decreases fps.len(),
{
    if k == fps.len() - 1 {
        assert(filtered(fps, ps).last() == fps[k]);
    } else {
        let d = fps.drop_last();
        assert(d[k] == fps[k]);
        lemma_filtered_complete(d, ps, k);
        let fd = filtered(d, ps);
        let w = choose|w: int| 0 <= w < fd.len() && fd[w] == fps[k];
        assert(filtered(fps, ps)[w] == fps[k]);
    }
}

/// Semantically equal filter lists filter identically.
pub proof fn lemma_filtered_congruent(
    fps: Seq<FilePathRecord>,
    ps1: Seq<FilePathWhereParam>,
    ps2: Seq<FilePathWhereParam>,
)
    requires
        forall|fp: FilePathRecord| filters_match(ps1, fp) == filters_match(ps2, fp),
    ensures
        filtered(fps, ps1) == filtered(fps, ps2),
    decreases fps.len(),
{
    if fps.len() > 0 {
        lemma_filtered_congruent(fps.drop_last(), ps1, ps2);
    }
}

/// Appending one conjunct refines the match to both conditions.
pub proof fn lemma_filters_match_push(
    ps: Seq<FilePathWhereParam>,
    p: FilePathWhereParam,
    fp: FilePathRecord,
)
    ensures
        filters_match(ps.push(p), fp) == (filters_match(ps, fp) && filter_matches(p, fp)),
{
    let ps2 = ps.push(p);
    if filters_match(ps, fp) && filter_matches(p, fp) {
        assert forall|i: int| 0 <= i < ps2.len() implies filter_matches(#[trigger] ps2[i], fp) by {
            if i < ps.len() {
                assert(ps2[i] == ps[i]);
            } else {
                assert(ps2[i] == p);
            }
        }
    }
    if filters_match(ps2, fp) {
        assert forall|i: int| 0 <= i < ps.len() implies filter_matches(#[trigger] ps[i], fp) by {
            assert(ps2[i] == ps[i]);
        }
        assert(ps2[ps.len() as int] == p);
        assert(filter_matches(p, fp));
    }
}

/// A conjunct every filtered record already satisfies filters nothing
/// more out.
pub proof fn lemma_filtered_push_redundant(
    fps: Seq<FilePathRecord>,
    ps: Seq<FilePathWhereParam>,
    p: FilePathWhereParam,
)
    requires
        forall|i: int|
            0 <= i < filtered(fps, ps).len() ==> filter_matches(
                p,
                #[trigger] filtered(fps, ps)[i],
            ),
    ensures
        filtered(fps, ps.push(p)) == filtered(fps, ps),
    decreases fps.len(),
{
    if fps.len() > 0 {
        let d = fps.drop_last();
        let fd = filtered(d, ps);
        let f = filtered(fps, ps);
        assert forall|i: int| 0 <= i < fd.len() implies filter_matches(p, #[trigger] fd[i]) by {
            if filters_match(ps, fps.last()) {
                assert(fd[i] == f[i]);
            } else {
                assert(fd == f);
            }
        }
        lemma_filtered_push_redundant(d, ps, p);
        lemma_filters_match_push(ps, p, fps.last());
        if filters_match(ps, fps.last()) {
            assert(f.last() == fps.last());
            assert(filter_matches(p, fps.last()));
        }
    }
}

/// Filtering never lengthens a sequence.
pub proof fn lemma_filtered_len(fps: Seq<FilePathRecord>, ps: Seq<FilePathWhereParam>)
    ensures
        filtered(fps, ps).len() <= fps.len(),
    decreases fps.len(),
{
    if fps.len() > 0 {
        lemma_filtered_len(fps.drop_last(), ps);
    }
}

} // verus!
