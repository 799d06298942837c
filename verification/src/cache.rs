//! The gateway's metadata cache: a fixed-capacity associative cache from
//! (library id, entry id) to (resolved absolute path, extension), so that
//! repeated requests for the same file skip the catalog lookup. Eviction
//! is least-recently-used by position; correctness does not depend on the
//! policy, since a miss merely re-resolves.

use vstd::prelude::*;

verus! {

/// The fixed capacity of the cache.
pub const CACHE_CAPACITY: usize = 100;

/// One cached resolution.
#[derive(Clone, Debug)]
pub struct CacheEntry {
    pub library_id: u128,
    pub entry_id: i32,
    pub path: String,
    pub extension: String,
}

/// The cache: entries in least-recently-used-first order.
#[derive(Clone, Debug)]
pub struct MetadataCache {
    pub entries: Vec<CacheEntry>,
}

impl MetadataCache {
    /// Some entry carries this key.
    pub open spec fn has_key(self, library_id: u128, entry_id: i32) -> bool {
        exists|i: int|
            0 <= i < self.entries@.len() && (#[trigger] self.entries@[i]).library_id == library_id
                && self.entries@[i].entry_id == entry_id
    }

    /// The value cached under this key.
    pub open spec fn value_of(self, library_id: u128, entry_id: i32) -> (Seq<char>, Seq<char>) {
        let e = self.entries@[choose|i: int|
            0 <= i < self.entries@.len() && (#[trigger] self.entries@[i]).library_id == library_id
                && self.entries@[i].entry_id == entry_id];
        (e.path@, e.extension@)
    }

    /// Keys are unique and the capacity bound holds.
    pub open spec fn wf(self) -> bool {
        &&& self.entries@.len() <= CACHE_CAPACITY
        &&& forall|i: int, j: int|
            0 <= i < self.entries@.len() && 0 <= j < self.entries@.len() && i != j ==> !((
            #[trigger] self.entries@[i]).library_id == (#[trigger] self.entries@[j]).library_id
                && self.entries@[i].entry_id == self.entries@[j].entry_id)
    }

    /// An empty cache.
    pub fn new() -> (r: MetadataCache)
        ensures
            r.wf(),
            r.entries@.len() == 0,
    {
        MetadataCache { entries: Vec::new() }
    }

    /// Looks the key up; a hit also marks the entry most recently used.
    /// The cached mapping itself is unchanged.
    pub fn get(&mut self, library_id: u128, entry_id: i32) -> (r: Option<(String, String)>)
        requires
            old(self).wf(),
        ensures
            final(self).wf(),
            (r is Some) == old(self).has_key(library_id, entry_id),
            r is None ==> *final(self) == *old(self),
            r matches Some(v) ==> (v.0@, v.1@) == old(self).value_of(library_id, entry_id),
            forall|l: u128, e: i32|
                final(self).has_key(l, e) == old(self).has_key(l, e) && (old(self).has_key(l, e)
                    ==> final(self).value_of(l, e) == old(self).value_of(l, e)),
    {
        let n = self.entries.len();
        let mut i: usize = 0;
        while i < n
            invariant
                *self == *old(self),
                old(self).wf(),
                0 <= i <= n,
                n == self.entries@.len(),
                forall|b: int|
                    0 <= b < i ==> !((#[trigger] self.entries@[b]).library_id == library_id
                        && self.entries@[b].entry_id == entry_id),
            decreases n - i,
        {
            if self.entries[i].library_id == library_id && self.entries[i].entry_id == entry_id {
                let hit = self.entries.remove(i);
                let path = hit.path.clone();
                let extension = hit.extension.clone();
                self.entries.push(hit);
                proof {
                    let old_seq = old(self).entries@;
                    assert(self.entries@ =~= old_seq.remove(i as int).push(old_seq[i as int]));
                    assert forall|l: u128, e: i32|
                        self.has_key(l, e) == old(self).has_key(l, e) && (old(self).has_key(l, e)
                            ==> self.value_of(l, e) == old(self).value_of(l, e)) by {
                        lemma_rotate_preserves(old_seq, self.entries@, i as int, l, e);
                    }
                    assert(old(self).has_key(library_id, entry_id));
                    let c = choose|c: int|
                        0 <= c < old(self).entries@.len() && (
                        #[trigger] old(self).entries@[c]).library_id == library_id && old(
                            self,
                        ).entries@[c].entry_id == entry_id;
                    assert(c == i);
                }
                return Some((path, extension));
            }
            i += 1;
        }
        None
    }

    /// Inserts or refreshes a resolution. When the cache is full and the
    /// key is new, the least recently used entry is evicted. No key other
    /// than the inserted one appears, and surviving keys keep their
    /// values.
    pub fn insert(&mut self, library_id: u128, entry_id: i32, path: String, extension: String)
        requires
            old(self).wf(),
        ensures
            final(self).wf(),
            final(self).has_key(library_id, entry_id),
            final(self).value_of(library_id, entry_id) == (path@, extension@),
            forall|l: u128, e: i32|
                !(l == library_id && e == entry_id) && final(self).has_key(l, e) ==> old(
                    self,
                ).has_key(l, e) && final(self).value_of(l, e) == old(self).value_of(l, e),
    {
        let n = self.entries.len();
        let mut i: usize = 0;
        let mut found: Option<usize> = None;
        while i < n && found.is_none()
            invariant
                *self == *old(self),
                old(self).wf(),
                0 <= i <= n,
                n == self.entries@.len(),
                match found {
                    Some(f) => 0 <= f < n && self.entries@[f as int].library_id == library_id
                        && self.entries@[f as int].entry_id == entry_id,
                    None => forall|b: int|
                        0 <= b < i ==> !((#[trigger] self.entries@[b]).library_id == library_id
                            && self.entries@[b].entry_id == entry_id),
                },
            decreases n - i,
        {
            if self.entries[i].library_id == library_id && self.entries[i].entry_id == entry_id {
                found = Some(i);
            }
            i += 1;
        }
        let ghost old_seq = self.entries@;
        match found {
            Some(f) => {
                self.entries.remove(f);
            },
            None => {
                if self.entries.len() >= CACHE_CAPACITY {
                    self.entries.remove(0);
                }
            },
        }
        let ghost mid = self.entries@;
        proof {
            assert forall|b: int| 0 <= b < mid.len() implies exists|a: int|
                0 <= a < old_seq.len() && (#[trigger] mid[b]) == old_seq[a] by {
                match found {
                    Some(f) => {
                        if b < f {
                            assert(mid[b] == old_seq[b]);
                        } else {
                            assert(mid[b] == old_seq[b + 1]);
                        }
                    },
                    None => {
                        if old_seq.len() >= CACHE_CAPACITY {
                            assert(mid[b] == old_seq[b + 1]);
                        } else {
                            assert(mid[b] == old_seq[b]);
                        }
                    },
                }
            }
        }
        self.entries.push(CacheEntry { library_id, entry_id, path, extension });
        proof {
            let new_seq = self.entries@;
            assert(new_seq[new_seq.len() - 1].library_id == library_id);
            assert(self.has_key(library_id, entry_id));
            // uniqueness: entries kept from `mid` are old entries, and in
            // the matched case the key was removed from `mid`
            assert forall|b: int| 0 <= b < mid.len() implies !((#[trigger] mid[b]).library_id
                == library_id && mid[b].entry_id == entry_id) by {
                match found {
                    Some(f) => {
                        assert(old_seq[f as int].library_id == library_id && old_seq[
                            f as int
                        ].entry_id == entry_id);
                        if b < f {
                            assert(mid[b] == old_seq[b]);
                        } else {
                            assert(mid[b] == old_seq[b + 1]);
                        }
                    },
                    None => {
                        if old_seq.len() >= CACHE_CAPACITY {
                            assert(mid[b] == old_seq[b + 1]);
                        } else {
                            assert(mid[b] == old_seq[b]);
                        }
                    },
                }
            }
            assert(self.wf()) by {
                assert(forall|b: int| 0 <= b < mid.len() ==> #[trigger] new_seq[b] == mid[b]);
            }
            let c = choose|c: int|
                0 <= c < new_seq.len() && (#[trigger] new_seq[c]).library_id == library_id
                    && new_seq[c].entry_id == entry_id;
            assert(c == new_seq.len() - 1);
            assert(self.value_of(library_id, entry_id) == (path@, extension@));
            assert forall|l: u128, e: i32|
                !(l == library_id && e == entry_id) && self.has_key(l, e) implies old(
                self,
            ).has_key(l, e) && self.value_of(l, e) == old(self).value_of(l, e) by {
                let w = choose|w: int|
                    0 <= w < new_seq.len() && (#[trigger] new_seq[w]).library_id == l
                        && new_seq[w].entry_id == e;
                assert(w < mid.len());
                assert(new_seq[w] == mid[w]);
                let a = choose|a: int| 0 <= a < old_seq.len() && (#[trigger] mid[w]) == old_seq[a];
                assert(old(self).has_key(l, e));
                let c1 = choose|c1: int|
                    0 <= c1 < new_seq.len() && (#[trigger] new_seq[c1]).library_id == l
                        && new_seq[c1].entry_id == e;
                let c2 = choose|c2: int|
                    0 <= c2 < old_seq.len() && (#[trigger] old_seq[c2]).library_id == l
                        && old_seq[c2].entry_id == e;
                assert(c1 == w);
                assert(old_seq[c2] == old_seq[a]) by {
                    if c2 != a {
                        assert(!(old_seq[c2].library_id == old_seq[a].library_id
                            && old_seq[c2].entry_id == old_seq[a].entry_id));
                    }
                }
            }
        }
    }
}

/// Moving the entry at `i` to the back preserves the key set and values.
proof fn lemma_rotate_preserves(
    old_seq: Seq<CacheEntry>,
    new_seq: Seq<CacheEntry>,
    i: int,
    l: u128,
    e: i32,
)
    requires
        0 <= i < old_seq.len(),
        new_seq == old_seq.remove(i).push(old_seq[i]),
        forall|a: int, b: int|
            0 <= a < old_seq.len() && 0 <= b < old_seq.len() && a != b ==> !((
            #[trigger] old_seq[a]).library_id == (#[trigger] old_seq[b]).library_id
                && old_seq[a].entry_id == old_seq[b].entry_id),
    ensures
        (exists|x: int|
            0 <= x < new_seq.len() && (#[trigger] new_seq[x]).library_id == l
                && new_seq[x].entry_id == e) == (exists|x: int|
            0 <= x < old_seq.len() && (#[trigger] old_seq[x]).library_id == l
                && old_seq[x].entry_id == e),
        (exists|x: int|
            0 <= x < old_seq.len() && (#[trigger] old_seq[x]).library_id == l && old_seq[x].entry_id
                == e) ==> {
            let en = new_seq[choose|x: int|
                0 <= x < new_seq.len() && (#[trigger] new_seq[x]).library_id == l
                    && new_seq[x].entry_id == e];
            let eo = old_seq[choose|x: int|
                0 <= x < old_seq.len() && (#[trigger] old_seq[x]).library_id == l
                    && old_seq[x].entry_id == e];
            en == eo
        },
{
    assert(new_seq.len() == old_seq.len());
    assert forall|x: int| 0 <= x < new_seq.len() implies exists|y: int|
        0 <= y < old_seq.len() && (#[trigger] new_seq[x]) == old_seq[y] by {
        if x < i {
            assert(new_seq[x] == old_seq[x]);
        } else if x < new_seq.len() - 1 {
            assert(new_seq[x] == old_seq[x + 1]);
        } else {
            assert(new_seq[x] == old_seq[i]);
        }
    }
    assert forall|y: int| 0 <= y < old_seq.len() implies exists|x: int|
        0 <= x < new_seq.len() && (#[trigger] old_seq[y]) == new_seq[x] by {
        if y < i {
            assert(old_seq[y] == new_seq[y]);
        } else if y == i {
            assert(old_seq[y] == new_seq[new_seq.len() - 1]);
        } else {
            assert(old_seq[y] == new_seq[y - 1]);
        }
    }
    if exists|x: int|
        0 <= x < old_seq.len() && (#[trigger] old_seq[x]).library_id == l && old_seq[x].entry_id
            == e {
        let xo = choose|x: int|
            0 <= x < old_seq.len() && (#[trigger] old_seq[x]).library_id == l && old_seq[x].entry_id
                == e;
        let xn = choose|x: int|
            0 <= x < new_seq.len() && (#[trigger] old_seq[xo]) == new_seq[x];
        assert(new_seq[xn].library_id == l && new_seq[xn].entry_id == e);
        let cn = choose|x: int|
            0 <= x < new_seq.len() && (#[trigger] new_seq[x]).library_id == l && new_seq[x].entry_id
                == e;
        let cy = choose|y: int| 0 <= y < old_seq.len() && (#[trigger] new_seq[cn]) == old_seq[y];
        assert(old_seq[cy].library_id == l && old_seq[cy].entry_id == e);
        assert(cy == xo) by {
            if cy != xo {
                assert(!(old_seq[cy].library_id == old_seq[xo].library_id && old_seq[cy].entry_id
                    == old_seq[xo].entry_id));
            }
        }
    } else {
        if exists|x: int|
            0 <= x < new_seq.len() && (#[trigger] new_seq[x]).library_id == l && new_seq[x].entry_id
                == e {
            let xn = choose|x: int|
                0 <= x < new_seq.len() && (#[trigger] new_seq[x]).library_id == l
                    && new_seq[x].entry_id == e;
            let y = choose|y: int|
                0 <= y < old_seq.len() && (#[trigger] new_seq[xn]) == old_seq[y];
            assert(old_seq[y].library_id == l && old_seq[y].entry_id == e);
        }
    }
}

} // verus!
