//! The top-level index: hashes a key, routes it through the directory to
//! its segment, and splits segments (growing the directory) when one fills.
use vstd::prelude::*;
use vstd::arithmetic::power2::pow2;
use crate::directory::{Directory, lemma_replace_table, lemma_route};
use crate::hashing::{fingerprint, home_bucket, meta_hash};
use crate::pair::{Key, KeyView, ValueT, copy_bytes, hash_key, hash_of_key};
use crate::table::{TableError, lemma_entries_functional, next_of, prefix, unlocked};

verus! {

/// Errors of the index.
#[derive(Debug, Clone, Copy, PartialEq, Eq, Structural)]
pub enum IndexError {
    /// The key is already stored.
    DuplicateKey,
    /// The key is not stored.
    NotFound,
    /// A full segment could not be split; the index refuses the write.
    SplitInternal,
    /// The index was shut down and takes no more writes.
    Closed,
}

/// The extendible hash index.
pub struct ExtendableHashing {
    pub open: bool,
    pub dir: Directory,
}

impl ExtendableHashing {
    pub open spec fn wf(&self) -> bool {
        self.dir.wf()
    }

    /// What the index holds.
    pub open spec fn view(&self) -> Map<KeyView, Seq<u8>> {
        self.dir.map()
    }

    /// Whether the segment that hash `h` routes to has a free slot in the
    /// home bucket of `h` or in its right neighbour.
    pub open spec fn has_room(&self, h: u64) -> bool {
        let t = self.dir.tables@[self.dir.route(h)];
        !(t.bucket@[home_bucket(h)].is_full() && t.bucket@[next_of(home_bucket(h))].is_full())
    }

    /// Whether the index takes writes.
    pub open spec fn is_open(&self) -> bool {
        self.open
    }

    /// An empty index of `initial_capacity` segments (a power of two), each
    /// claiming its own top bits of the hash.
    pub fn new(initial_capacity: usize) -> (r: ExtendableHashing)
        requires
            1 <= initial_capacity <= 0x4000_0000,
        ensures
            r.wf(),
            r.view() == Map::<KeyView, Seq<u8>>::empty(),
            r.is_open(),
            r.dir.segments@.len() >= initial_capacity,
            forall|g: int| 0 <= g <= 30 && #[trigger] pow2(g as nat) == initial_capacity ==> r.dir.global_depth == g
                && r.dir.segments@.len() == initial_capacity && r.dir.tables@.len() == initial_capacity,
    {
        ExtendableHashing {
            open: true,
            dir: Directory::new(initial_capacity, 0),
        }
    }

    /// The directory index of hash `h`: its top `global_depth` bits.
    fn dir_index(&self, h: u64) -> (r: usize)
        requires
            self.wf(),
        ensures
            r as int == prefix(h, self.dir.global_depth as int),
            r < self.dir.segments@.len(),
    {
        let g = self.dir.global_depth;
        if g == 0 {
            0
        } else {
            proof {
                assert(prefix(h, g as int) < self.dir.segments@.len());
                vstd::arithmetic::power2::lemma2_to64();
                if g < 30 {
                    vstd::arithmetic::power2::lemma_pow2_strictly_increases(g as nat, 30);
                }
                assert(prefix(h, g as int) < 0x4000_0000);
            }
            let x = h >> (64 - g as u64);
            assert(x as int == prefix(h, g as int));
            x as usize
        }
    }

    /// The value stored under `key`.
    pub fn get(&self, key: &Key) -> (r: Option<ValueT>)
        requires
            self.wf(),
            key.wf(),
        ensures
            r is Some <==> self@.contains_key(key@),
            r is Some ==> self@[key@] == r->Some_0@,
    {
        let h = hash_key(key);
        let mh = meta_hash(h);
        let i = self.dir_index(h);
        let t = self.dir.segments[i];
        proof {
            self.dir.lemma_routed(key@);
            lemma_entries_functional(&self.dir.tables@[t as int], key@);
        }
        let r = self.dir.tables[t].search(key, h, mh);
        proof {
            if r is Some {
                assert(self.dir.tables@[t as int].entries().contains((key@, r->Some_0@)));
                assert(self.dir.holds(key@, r->Some_0@));
            }
        }
        r
    }

    /// Stores `value` under `key`, which must not be stored yet. A full
    /// segment is split, growing the directory when needed, and the insert
    /// retried.
    pub fn insert(&mut self, key: Key, value: ValueT) -> (r: Result<(), IndexError>)
        requires
            old(self).wf(),
            key.wf(),
        ensures
            final(self).wf(),
            final(self).is_open() == (old(self).is_open() && r != Err::<(), IndexError>(IndexError::SplitInternal)),
            r is Ok ==> !old(self)@.contains_key(key@) && final(self)@ == old(self)@.insert(key@, value@),
            r is Err ==> final(self)@ == old(self)@,
            r == Err::<(), IndexError>(IndexError::DuplicateKey) <==> old(self).is_open() && old(self)@.contains_key(key@),
            r == Err::<(), IndexError>(IndexError::Closed) <==> !old(self).is_open(),
            r is Err ==> r == Err::<(), IndexError>(IndexError::DuplicateKey) || r == Err::<(), IndexError>(IndexError::Closed)
                || r == Err::<(), IndexError>(IndexError::SplitInternal),
            old(self).is_open() && !old(self)@.contains_key(key@) && old(self).has_room(hash_of_key(key@)) ==> r is Ok,
    {
        if !self.open {
            return Err(IndexError::Closed);
        }
        let h = hash_key(&key);
        let mh = meta_hash(h);
        let ghost mut first = true;
        loop
            invariant
                self.wf(),
                self.open,
                old(self).open,
                self@ == old(self)@,
                first ==> self.dir.tables@ == old(self).dir.tables@ && self.dir.segments@ == old(self).dir.segments@
                    && self.dir.global_depth == old(self).dir.global_depth,
                !first ==> !old(self).has_room(h),
                h == hash_of_key(key@),
                mh == fingerprint(h),
                key.wf(),
            decreases 64 - self.dir.tables@[self.dir.route(h)].local_depth,
        {
            let i = self.dir_index(h);
            let t = self.dir.segments[i];
            let ghost d0 = self.dir;
            proof {
                d0.lemma_routed(key@);
                assert(d0.claims(t as int, i as int));
                assert(d0.tables@[t as int].inv());
                lemma_route(h, d0.global_depth as int, d0.tables@[t as int].local_depth as int);
                lemma_entries_functional(&d0.tables@[t as int], key@);
            }
            let res = self.dir.tables[t].insert(key.duplicate(), copy_bytes(&value), h, mh);
            proof {
                assert(self.dir.tables@ == d0.tables@.update(t as int, self.dir.tables@[t as int]));
                assert(unlocked(self.dir.tables@[t as int].bucket@)) by {
                    assert forall|c: int| 0 <= c < self.dir.tables@[t as int].bucket@.len() implies
                        !(#[trigger] self.dir.tables@[t as int].bucket@[c]).locked() by {
                        assert(!d0.tables@[t as int].bucket@[c].locked());
                    }
                }
                lemma_replace_table(d0, self.dir, t as int);
                lemma_entries_functional(&self.dir.tables@[t as int], key@);
                self.dir.lemma_routed(key@);
            }
            match res {
                Ok(_) => {
                    proof {
                        assert forall|k: KeyView| #[trigger] self@.contains_key(k) == d0.map().insert(key@, value@).contains_key(k)
                            && (self@.contains_key(k) ==> self@[k] == d0.map().insert(key@, value@)[k]) by {
                            self.dir.lemma_routed(k);
                            d0.lemma_routed(k);
                            if k == key@ {
                                assert(self.dir.holds(k, value@));
                            } else {
                                if self@.contains_key(k) {
                                    assert(self.dir.holds(k, self@[k]));
                                    assert(d0.holds(k, self@[k]));
                                }
                                if d0.map().contains_key(k) {
                                    assert(d0.holds(k, d0.map()[k]));
                                    assert(self.dir.holds(k, d0.map()[k]));
                                }
                            }
                        }
                        assert(self@ =~= old(self)@.insert(key@, value@));
                    }
                    return Ok(());
                },
                Err(TableError::KeyExists) => {
                    proof {
                        assert(self@ =~= old(self)@) by {
                            assert forall|k: KeyView| #[trigger] self@.contains_key(k) == d0.map().contains_key(k)
                                && (self@.contains_key(k) ==> self@[k] == d0.map()[k]) by {
                                self.dir.lemma_routed(k);
                                d0.lemma_routed(k);
                                if self@.contains_key(k) {
                                    assert(self.dir.holds(k, self@[k]));
                                }
                                if d0.map().contains_key(k) {
                                    assert(d0.holds(k, d0.map()[k]));
                                    assert(self.dir.holds(k, d0.map()[k]));
                                }
                            }
                        }
                    }
                    return Err(IndexError::DuplicateKey);
                },
                Err(_) => {
                    proof {
                        assert(self@ =~= old(self)@) by {
                            assert forall|k: KeyView| #[trigger] self@.contains_key(k) == d0.map().contains_key(k)
                                && (self@.contains_key(k) ==> self@[k] == d0.map()[k]) by {
                                self.dir.lemma_routed(k);
                                d0.lemma_routed(k);
                                if self@.contains_key(k) {
                                    assert(self.dir.holds(k, self@[k]));
                                }
                                if d0.map().contains_key(k) {
                                    assert(d0.holds(k, d0.map()[k]));
                                    assert(self.dir.holds(k, d0.map()[k]));
                                }
                            }
                        }
                        assert(!old(self)@.contains_key(key@));
                    }
                    proof {
                        if first && old(self).has_room(h) {
                            assert(unlocked(d0.tables@[t as int].bucket@));
                            assert(d0.route(h) == t);
                            assert(false);
                        }
                        first = false;
                    }
                    let ghost d1 = self.dir;
                    if !self.dir.split_segment(i) {
                        self.open = false;
                        return Err(IndexError::SplitInternal);
                    }
                    proof {
                        assert(d1.route(h) == t);
                    }
                },
            }
        }
    }

    /// Removes `key`.
    pub fn delete(&mut self, key: &Key) -> (r: Result<(), IndexError>)
        requires
            old(self).wf(),
            key.wf(),
        ensures
            final(self).wf(),
            final(self).is_open() == old(self).is_open(),
            r is Ok <==> old(self).is_open() && old(self)@.contains_key(key@),
            r is Ok ==> final(self)@ == old(self)@.remove(key@),
            r is Err ==> final(self)@ == old(self)@,
            r == Err::<(), IndexError>(IndexError::NotFound) <==> old(self).is_open() && !old(self)@.contains_key(key@),
            r == Err::<(), IndexError>(IndexError::Closed) <==> !old(self).is_open(),
    {
        if !self.open {
            return Err(IndexError::Closed);
        }
        let h = hash_key(key);
        let mh = meta_hash(h);
        let i = self.dir_index(h);
        let t = self.dir.segments[i];
        let ghost d0 = self.dir;
        proof {
            d0.lemma_routed(key@);
            assert(d0.tables@[t as int].inv());
            lemma_entries_functional(&d0.tables@[t as int], key@);
        }
        let res = self.dir.tables[t].delete(key, h, mh);
        proof {
            assert(self.dir.tables@ == d0.tables@.update(t as int, self.dir.tables@[t as int]));
            assert(unlocked(self.dir.tables@[t as int].bucket@)) by {
                assert forall|c: int| 0 <= c < self.dir.tables@[t as int].bucket@.len() implies
                    !(#[trigger] self.dir.tables@[t as int].bucket@[c]).locked() by {
                    assert(!d0.tables@[t as int].bucket@[c].locked());
                }
            }
            lemma_replace_table(d0, self.dir, t as int);
            lemma_entries_functional(&self.dir.tables@[t as int], key@);
            self.dir.lemma_routed(key@);
            assert forall|k: KeyView| #[trigger] self@.contains_key(k) == (if res is Ok { d0.map().remove(key@) } else { d0.map() }).contains_key(k)
                && (self@.contains_key(k) ==> self@[k] == (if res is Ok { d0.map().remove(key@) } else { d0.map() })[k]) by {
                self.dir.lemma_routed(k);
                d0.lemma_routed(k);
                if k != key@ || res is Err {
                    if self@.contains_key(k) {
                        assert(self.dir.holds(k, self@[k]));
                    }
                    if d0.map().contains_key(k) {
                        assert(d0.holds(k, d0.map()[k]));
                        if k != key@ {
                            lemma_entries_functional(&d0.tables@[t as int], k);
                        }
                        assert(self.dir.holds(k, d0.map()[k]));
                    }
                }
            }
            if res is Ok {
                assert(self@ =~= old(self)@.remove(key@));
            } else {
                assert(self@ =~= old(self)@);
            }
        }
        match res {
            Ok(()) => Ok(()),
            Err(_) => Err(IndexError::NotFound),
        }
    }

    /// Shuts the index down: it stops taking writes and keeps serving reads.
    pub fn shut_down(&mut self)
        requires
            old(self).wf(),
        ensures
            final(self).wf(),
            final(self)@ == old(self)@,
            !final(self).is_open(),
    {
        self.open = false;
    }
}

/// After a successful `insert(k, v)`, `get(k)` finds `v`; inserts and
/// deletes of other keys leave it there.
pub proof fn lemma_round_trip(
    before: &ExtendableHashing,
    after_insert: &ExtendableHashing,
    later: &ExtendableHashing,
    k: KeyView,
    v: Seq<u8>,
    other: KeyView,
    w: Seq<u8>,
)
    requires
        after_insert@ == before@.insert(k, v),
        other != k,
        later@ == after_insert@.insert(other, w) || later@ == after_insert@.remove(other) || later@ == after_insert@,
    ensures
        after_insert@.contains_key(k) && after_insert@[k] == v,
        later@.contains_key(k) && later@[k] == v,
{
}

/// After `delete(k)` the key is absent, so a second `delete(k)` finds
/// nothing and changes nothing.
pub proof fn lemma_delete_idempotent(before: &ExtendableHashing, after: &ExtendableHashing, k: KeyView)
    requires
        after@ == before@.remove(k) || (after@ == before@ && !before@.contains_key(k)),
    ensures
        !after@.contains_key(k),
        after@.remove(k) == after@,
{
    assert(after@.remove(k) =~= after@);
}

} // verus!
