//! A value model of on-disk file contents: the files the identifier reads
//! and the gateway serves, keyed by absolute path.

use vstd::prelude::*;

verus! {

/// One file on disk: its absolute path and its bytes.
#[derive(Clone, Debug)]
pub struct StoredFile {
    pub path: String,
    pub contents: Vec<u8>,
}

/// A snapshot of file contents, keyed by absolute path.
#[derive(Clone, Debug)]
pub struct FileStore {
    pub files: Vec<StoredFile>,
}

impl FileStore {
    /// Some stored file has exactly the path `p`.
    pub open spec fn has_file(self, p: Seq<char>) -> bool {
        exists|i: int| 0 <= i < self.files@.len() && (#[trigger] self.files@[i]).path@ == p
    }

    /// The bytes of the stored file at `p`.
    pub open spec fn file_at(self, p: Seq<char>) -> Seq<u8> {
        self.files@[choose|i: int|
            0 <= i < self.files@.len() && (#[trigger] self.files@[i]).path@ == p].contents@
    }

    /// No two stored files share a path.
    pub open spec fn wf(self) -> bool {
        forall|i: int, j: int|
            0 <= i < self.files@.len() && 0 <= j < self.files@.len() && i != j ==> (
            #[trigger] self.files@[i]).path@ != (#[trigger] self.files@[j]).path@
    }

    /// An empty store.
    pub fn empty() -> (r: FileStore)
        ensures
            r.wf(),
            r.files@.len() == 0,
    {
        FileStore { files: Vec::new() }
    }

    /// Adds a file; refuses a duplicate path.
    pub fn add(&mut self, path: String, contents: Vec<u8>) -> (r: bool)
        requires
            old(self).wf(),
        ensures
            final(self).wf(),
            r == !old(self).has_file(path@),
            r ==> final(self).has_file(path@) && final(self).file_at(path@) == contents@,
            r ==> forall|p: Seq<char>|
                old(self).has_file(p) ==> final(self).has_file(p) && final(self).file_at(p) == old(
                    self,
                ).file_at(p),
            !r ==> *final(self) == *old(self),
    {
        let n = self.files.len();
        let mut i: usize = 0;
        while i < n
            invariant
                *self == *old(self),
                old(self).wf(),
                0 <= i <= n,
                n == self.files@.len(),
                forall|k: int| 0 <= k < i ==> (#[trigger] self.files@[k]).path@ != path@,
            decreases n - i,
        {
            if crate::strutil::str_eq(self.files[i].path.as_str(), path.as_str()) {
                return false;
            }
            i += 1;
        }
        let ghost old_files = self.files@;
        self.files.push(StoredFile { path, contents });
        proof {
            assert(self.files@[old_files.len() as int].path@ == path@);
            assert forall|p: Seq<char>| old(self).has_file(p) implies self.has_file(p)
                && self.file_at(p) == old(self).file_at(p) by {
                let w = choose|w: int|
                    0 <= w < old_files.len() && (#[trigger] old_files[w]).path@ == p;
                assert(self.files@[w].path@ == p);
                let c1 = choose|c: int|
                    0 <= c < old_files.len() && (#[trigger] old_files[c]).path@ == p;
                let c2 = choose|c: int|
                    0 <= c < self.files@.len() && (#[trigger] self.files@[c]).path@ == p;
            }
        }
        true
    }

    /// Looks a path up in the store.
    pub fn lookup(&self, path: &str) -> (r: Option<&Vec<u8>>)
        requires
            self.wf(),
        ensures
            match r {
                Some(c) => self.has_file(path@) && c@ == self.file_at(path@),
                None => !self.has_file(path@),
            },
    {
        let n = self.files.len();
        let mut i: usize = 0;
        while i < n
            invariant
                0 <= i <= n,
                n == self.files@.len(),
                self.wf(),
                forall|k: int| 0 <= k < i ==> (#[trigger] self.files@[k]).path@ != path@,
            decreases n - i,
        {
            if crate::strutil::str_eq(self.files[i].path.as_str(), path) {
                proof {
                    let c = choose|c: int|
                        0 <= c < self.files@.len() && (#[trigger] self.files@[c]).path@ == path@;
                    assert(c == i);
                }
                return Some(&self.files[i].contents);
            }
            i += 1;
        }
        None
    }
}

} // verus!
