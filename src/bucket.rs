//! The bucket: fourteen key/value slots with a packed metadata word, a
//! fingerprint array, overflow indicators for the stash, and a version lock.
use vstd::prelude::*;
use crate::bits::{
    alloc_bit, alloc_seq, bit8, bit_of, bitmap_ok, check_bit, check_bit_32, count_field, count_true,
    get_bitmap, get_count, get_member, lemma_clear_slot, lemma_count_all, lemma_count_bounds,
    lemma_count_update, lemma_count_zero, lemma_set_slot, lemma_u8_clear, lemma_u8_set, member_bit,
};
use crate::pair::{Key, KeyView, Pair, ValueT, copy_bytes};
use crate::STASH_MASK;

verus! {

pub const K_NUM_PAIR_PER_BUCKET: u32 = 14;

pub const OVERFLOW_BITMAP_MASK: u8 = 15;

pub const OVERFLOW_SET: u8 = 16;

pub const LOCK_SET: u32 = 0x8000_0000;

pub const LOCK_MASK: u32 = 0x7fff_ffff;

/// A bucket. `pairs` holds the fourteen primary slots; `finger_array` holds a
/// fingerprint for each of them at 0..14 and, at 14..18, the fingerprints of
/// up to four items that overflowed into the stash.
pub struct Bucket {
    pub pairs: Vec<Option<Pair>>,
    pub overflow_count: u8,
    pub overflow_member: u8,
    pub overflow_index: u8,
    pub overflow_bitmap: u8,
    pub finger_array: [u8; 18],
    pub bitmap: u32,
    pub version_lock: u32,
}

/// Errors of bucket operations.
#[derive(Debug, Clone, Copy, PartialEq, Eq, Structural)]
pub enum BucketError {
    BucketFull,
    Internal,
    ItemDoesntExist,
}

/// Which overflow fingerprint slots of a bucket record an item of the bucket
/// itself.
pub open spec fn own_seq(ov: u8, mem: u8) -> Seq<bool> {
    Seq::new(4, |i: int| bit8(ov, i) && !bit8(mem, i))
}

/// Which overflow fingerprint slots of a bucket record an item of its left
/// neighbour.
pub open spec fn member_seq(ov: u8, mem: u8) -> Seq<bool> {
    Seq::new(4, |i: int| bit8(ov, i) && bit8(mem, i))
}

pub open spec fn own_indicators(b: &Bucket) -> nat {
    count_true(own_seq(b.overflow_bitmap, b.overflow_member))
}

pub open spec fn member_indicators(b: &Bucket) -> nat {
    count_true(member_seq(b.overflow_bitmap, b.overflow_member))
}

/// Everything that records stash items of bucket `t`, whose right neighbour
/// is `n`: its own overflow fingerprints, those kept for it by `n`, and its
/// overflow counter.
pub open spec fn indicators(t: &Bucket, n: &Bucket) -> nat {
    own_indicators(t) + member_indicators(n) + t.overflow_count as nat
}

/// Whether a lock-free read that sampled the lock word `before` and then
/// `after` saw a stable bucket: no writer held the lock at either sample and
/// no release happened in between.
pub fn read_is_consistent(before: u32, after: u32) -> (r: bool)
    ensures
        r == (before == after && before & LOCK_SET == 0),
{
    before == after && before & LOCK_SET == 0
}

/// The lowest overflow fingerprint slot that is free in `ov`, or 4 when all
/// four are taken.
pub fn free_indicator_slot(ov: u8) -> (r: u32)
    ensures
        r <= 4,
        r < 4 ==> !bit8(ov, r as int),
        forall|j: int| 0 <= j < r && j < 4 ==> #[trigger] bit8(ov, j),
{
    let mask: u8 = !(ov & OVERFLOW_BITMAP_MASK);
    let r = mask.trailing_zeros();
    proof {
        broadcast use vstd::std_specs::bits::axiom_u8_trailing_zeros;
        assert((mask >> 4u8) & 1 == 1) by (bit_vector) requires mask == !(ov & 15);
        assert forall|j: u8| j < 4 implies (((mask >> j) & 1 == 1) == ((ov >> j) & 1 != 1)) by {
            assert(((mask >> j) & 1 == 1) == ((ov >> j) & 1 != 1)) by (bit_vector)
                requires mask == !(ov & 15), j < 4;
        }
        assert forall|j: int| 0 <= j < r && j < 4 implies #[trigger] bit8(ov, j) by {
            let k = j as u8;
            assert((mask >> k) & 1 == 0);
        }
    }
    r
}

impl Bucket {
    /// The well-formedness of a bucket.
    pub open spec fn wf(&self) -> bool {
        &&& self.pairs@.len() == 14
        &&& bitmap_ok(self.bitmap)
        &&& forall|i: int| 0 <= i < 14 ==> (#[trigger] alloc_bit(self.bitmap, i) <==> self.pairs@[i] is Some)
        &&& forall|i: int| 0 <= i < 14 && #[trigger] self.pairs@[i] is Some ==> self.pairs@[i]->Some_0.key.wf()
        &&& forall|i: int| #[trigger] bit8(self.overflow_member, i) ==> 0 <= i < 4 && bit8(self.overflow_bitmap, i)
    }

    /// Whether slot `i` holds an entry.
    pub open spec fn live(&self, i: int) -> bool {
        alloc_bit(self.bitmap, i)
    }

    /// Whether slot `i` hosts an entry of the left neighbour.
    pub open spec fn probed(&self, i: int) -> bool {
        member_bit(self.bitmap, i)
    }

    pub open spec fn key_at(&self, i: int) -> KeyView {
        self.pairs@[i]->Some_0.key@
    }

    pub open spec fn value_at(&self, i: int) -> Seq<u8> {
        self.pairs@[i]->Some_0.value@
    }

    /// Whether slot `i` holds key `k` under fingerprint `mh`, hosted (`probe`)
    /// or owned.
    pub open spec fn matches(&self, i: int, mh: u8, k: KeyView, probe: bool) -> bool {
        &&& 0 <= i < 14
        &&& self.live(i)
        &&& self.finger_array@[i] == mh
        &&& self.probed(i) == probe
        &&& self.key_at(i) == k
    }

    pub open spec fn has_match(&self, mh: u8, k: KeyView, probe: bool) -> bool {
        exists|i: int| self.matches(i, mh, k, probe)
    }

    /// The number of occupied slots.
    pub open spec fn occupancy(&self) -> nat {
        count_field(self.bitmap) as nat
    }

    pub open spec fn is_full(&self) -> bool {
        count_field(self.bitmap) == 14
    }

    /// The stash-check hint.
    pub open spec fn stash_hint(&self) -> bool {
        bit8(self.overflow_bitmap, 4)
    }

    pub open spec fn locked(&self) -> bool {
        self.version_lock & LOCK_SET != 0
    }

    pub open spec fn version(&self) -> u32 {
        self.version_lock & LOCK_MASK
    }

    /// `self` and `other` agree on everything that records overflows and on
    /// the lock.
    pub open spec fn same_overflow(&self, other: &Bucket) -> bool {
        &&& self.overflow_count == other.overflow_count
        &&& self.overflow_member == other.overflow_member
        &&& self.overflow_index == other.overflow_index
        &&& self.overflow_bitmap == other.overflow_bitmap
        &&& self.finger_array@.subrange(14, 18) == other.finger_array@.subrange(14, 18)
        &&& self.version_lock == other.version_lock
    }

    /// `self` and `other` agree on the primary slots and the metadata word.
    pub open spec fn same_slots(&self, other: &Bucket) -> bool {
        &&& self.pairs@ == other.pairs@
        &&& self.bitmap == other.bitmap
        &&& self.finger_array@.subrange(0, 14) == other.finger_array@.subrange(0, 14)
    }

    /// `new` is `old` with free slot `i` filled by `p` under fingerprint `mh`.
    pub open spec fn added_slot(old: &Bucket, new: &Bucket, i: int, p: Pair, mh: u8, probe: bool) -> bool {
        &&& 0 <= i < 14
        &&& !old.live(i)
        &&& new.pairs@ == old.pairs@.update(i, Some(p))
        &&& new.finger_array@ == old.finger_array@.update(i, mh)
        &&& new.occupancy() == old.occupancy() + 1
        &&& forall|j: int| #[trigger] new.live(j) == (old.live(j) || j == i)
        &&& forall|j: int| #[trigger] new.probed(j) == (old.probed(j) || (probe && j == i))
        &&& new.same_overflow(old)
    }

    /// `new` is `old` with live slot `i` emptied.
    pub open spec fn removed_slot(old: &Bucket, new: &Bucket, i: int) -> bool {
        &&& 0 <= i < 14
        &&& old.live(i)
        &&& new.pairs@ == old.pairs@.update(i, None)
        &&& new.finger_array@ == old.finger_array@
        &&& new.occupancy() + 1 == old.occupancy()
        &&& forall|j: int| #[trigger] new.live(j) == (old.live(j) && j != i)
        &&& forall|j: int| #[trigger] new.probed(j) == (old.probed(j) && j != i)
        &&& new.same_overflow(old)
    }

    /// An empty, unlocked bucket.
    pub fn new() -> (r: Bucket)
        ensures
            r.wf(),
            forall|i: int| !#[trigger] r.live(i),
            r.occupancy() == 0,
            r.overflow_count == 0,
            r.overflow_bitmap == 0,
            r.overflow_member == 0,
            r.overflow_index == 0,
            r.version_lock == 0,
            !r.stash_hint(),
            r.finger_array@ == Seq::new(18, |i: int| 0u8),
    {
        let mut pairs: Vec<Option<Pair>> = Vec::new();
        let mut i: usize = 0;
        while i < 14
            invariant
                i <= 14,
                pairs@.len() == i,
                forall|j: int| 0 <= j < i ==> pairs@[j] is None,
            decreases 14 - i,
        {
            pairs.push(None);
            i += 1;
        }
        let r = Bucket {
            pairs,
            overflow_count: 0,
            overflow_member: 0,
            overflow_index: 0,
            overflow_bitmap: 0,
            finger_array: [0u8; 18],
            bitmap: 0,
            version_lock: 0,
        };
        proof {
            assert forall|i: int| !#[trigger] alloc_bit(0u32, i) by {
                if 0 <= i < 14 {
                    let k = i as u32;
                    assert((0u32 >> (k + 18)) & 1 == 0) by (bit_vector);
                    assert((k + 18) as int == i + 18);
                }
            }
            assert forall|i: int| !#[trigger] member_bit(0u32, i) by {
                if 0 <= i < 14 {
                    let k = i as u32;
                    assert((0u32 >> (k + 4)) & 1 == 0) by (bit_vector);
                    assert((k + 4) as int == i + 4);
                }
            }
            assert forall|i: int| !#[trigger] bit8(0u8, i) by {
                if 0 <= i < 8 {
                    let k = i as u8;
                    assert((0u8 >> k) & 1 == 0) by (bit_vector);
                }
            }
            assert(alloc_seq(0u32) =~= Seq::new(14, |i: int| false));
            assert(r.finger_array@ =~= Seq::new(18, |i: int| 0u8));
            lemma_count_zero(alloc_seq(0u32));
            assert(0u32 & 15 == 0) by (bit_vector);
        }
        r
    }

    /// Takes the writer lock. The lock must be free: with exclusive access
    /// nobody else could release it.
    pub fn get_lock(&mut self)
        requires
            !old(self).locked(),
        ensures
            final(self).locked(),
            final(self).version() == old(self).version(),
            final(self).same_slots(old(self)),
            final(self).pairs@ == old(self).pairs@,
            final(self).finger_array == old(self).finger_array,
            final(self).overflow_bitmap == old(self).overflow_bitmap,
            final(self).overflow_member == old(self).overflow_member,
            final(self).overflow_index == old(self).overflow_index,
            final(self).overflow_count == old(self).overflow_count,
    {
        let v = self.version_lock;
        self.version_lock = v | LOCK_SET;
        proof {
            let w = v | 0x8000_0000u32;
            assert(w & 0x8000_0000u32 != 0 && w & 0x7fff_ffffu32 == v & 0x7fff_ffffu32) by (bit_vector)
                requires w == v | 0x8000_0000u32;
        }
    }

    /// Releases the writer lock and advances the version (modulo 2^31).
    pub fn release_lock(&mut self)
        ensures
            !final(self).locked(),
            final(self).version() == (old(self).version() + 1) % 0x8000_0000,
            final(self).same_slots(old(self)),
            final(self).finger_array == old(self).finger_array,
            final(self).overflow_bitmap == old(self).overflow_bitmap,
            final(self).overflow_member == old(self).overflow_member,
            final(self).overflow_index == old(self).overflow_index,
            final(self).overflow_count == old(self).overflow_count,
    {
        let lw = self.version_lock;
        let v = lw & LOCK_MASK;
        proof {
            assert(v <= 0x7fff_ffffu32) by (bit_vector)
                requires v == lw & 0x7fff_ffffu32;
        }
        let w = if v == LOCK_MASK { 0 } else { v + 1 };
        self.version_lock = w;
        proof {
            assert(w <= 0x7fff_ffffu32 ==> w & 0x8000_0000u32 == 0 && w & 0x7fff_ffffu32 == w) by (bit_vector);
        }
    }

    /// Resets the lock word: unlocked, version zero.
    pub fn reset_lock(&mut self)
        ensures
            final(self).version_lock == 0,
            final(self).same_slots(old(self)),
            final(self).finger_array == old(self).finger_array,
            final(self).overflow_bitmap == old(self).overflow_bitmap,
            final(self).overflow_member == old(self).overflow_member,
            final(self).overflow_index == old(self).overflow_index,
            final(self).overflow_count == old(self).overflow_count,
    {
        self.version_lock = 0;
    }

    /// Takes the writer lock if it is free; reports whether it did.
    pub fn try_get_lock(&mut self) -> (r: bool)
        ensures
            r == !old(self).locked(),
            !r ==> *final(self) == *old(self),
            final(self).locked(),
            final(self).version() == old(self).version(),
            final(self).same_slots(old(self)),
            final(self).finger_array == old(self).finger_array,
            final(self).overflow_bitmap == old(self).overflow_bitmap,
            final(self).overflow_member == old(self).overflow_member,
            final(self).overflow_index == old(self).overflow_index,
            final(self).overflow_count == old(self).overflow_count,
    {
        if self.version_lock & LOCK_SET != 0 {
            return false;
        }
        self.get_lock();
        true
    }

    /// Whether the writer lock is held.
    pub fn is_lock(&self) -> (r: bool)
        ensures
            r == self.locked(),
    {
        self.version_lock & LOCK_SET != 0
    }

    /// The lowest free slot, or -1 when the bucket is full.
    pub fn find_empty_slot(&self) -> (r: i32)
        requires
            self.wf(),
        ensures
            r == -1 <==> self.is_full(),
            r != -1 ==> 0 <= r < 14 && !self.live(r as int)
                && forall|j: int| 0 <= j < r ==> #[trigger] self.live(j),
    {
        proof {
            lemma_count_bounds(alloc_seq(self.bitmap));
        }
        if get_count(self.bitmap) == K_NUM_PAIR_PER_BUCKET {
            return -1;
        }
        let bm = self.bitmap;
        let b = bm >> 18;
        let mask = !b;
        let tz = mask.trailing_zeros();
        proof {
            broadcast use vstd::std_specs::bits::axiom_u32_trailing_zeros;
            assert(((!b) >> 14u32) & 1 == 1) by (bit_vector) requires b == bm >> 18;
            assert(tz <= 14);
            assert forall|j: int| 0 <= j < 14 implies (((!b) >> (j as u32)) & 1 == 0) == #[trigger] alloc_bit(bm, j) by {
                let k = j as u32;
                assert((k + 18) as int == j + 18);
                assert((((!b) >> k) & 1 == 0) == ((bm >> (k + 18)) & 1 == 1)) by (bit_vector)
                    requires b == bm >> 18, k < 14;
            }
            if tz == 14 {
                assert forall|j: int| 0 <= j < 14 implies alloc_seq(bm)[j] by {
                    let k = j as u32;
                    assert(((!b) >> k) & 1 == 0);
                }
                lemma_count_all(alloc_seq(bm));
                assert(false);
            }
            assert(((!b) >> tz) & 1 == 1);
            assert(!alloc_bit(bm, tz as int));
            assert forall|j: int| 0 <= j < tz implies #[trigger] self.live(j) by {
                let k = j as u32;
                assert(((!b) >> k) & 1 == 0);
            }
        }
        tz as i32
    }

    /// Whether some stash spill of this bucket could not be recorded by a
    /// fingerprint.
    pub fn test_overflow(&self) -> (r: bool)
        ensures
            r == (self.overflow_count > 0),
    {
        self.overflow_count > 0
    }

    /// Whether lookups must consult the stash.
    pub fn test_stash_check(&self) -> (r: bool)
        ensures
            r == self.stash_hint(),
    {
        check_bit(self.overflow_bitmap, 4)
    }

    /// Clears the stash-check hint.
    pub fn clear_stash_check(&mut self)
        requires
            old(self).wf(),
        ensures
            final(self).wf(),
            !final(self).stash_hint(),
            forall|i: int| 0 <= i < 4 ==> bit8(final(self).overflow_bitmap, i) == bit8(old(self).overflow_bitmap, i),
            final(self).same_slots(old(self)),
            final(self).finger_array == old(self).finger_array,
            final(self).overflow_member == old(self).overflow_member,
            final(self).overflow_index == old(self).overflow_index,
            final(self).overflow_count == old(self).overflow_count,
            final(self).version_lock == old(self).version_lock,
            own_indicators(final(self)) == own_indicators(old(self)),
            member_indicators(final(self)) == member_indicators(old(self)),
    {
        let ov = self.overflow_bitmap;
        proof {
            lemma_u8_clear(ov, 4);
            assert(ov & !16u8 == ov & !(1u8 << 4u8)) by (bit_vector);
        }
        self.overflow_bitmap = ov & !OVERFLOW_SET;
        proof {
            assert(own_seq(self.overflow_bitmap, self.overflow_member)
                =~= own_seq(old(self).overflow_bitmap, old(self).overflow_member));
            assert(member_seq(self.overflow_bitmap, self.overflow_member)
                =~= member_seq(old(self).overflow_bitmap, old(self).overflow_member));
        }
    }

    /// Records slot `index` as occupied under fingerprint `meta_hash`, hosted
    /// for the left neighbour when `probe`, and bumps the counter.
    pub fn set_hash(&mut self, index: i32, meta_hash: u8, probe: bool)
        requires
            0 <= index < 14,
            bitmap_ok(old(self).bitmap),
            !old(self).live(index as int),
        ensures
            bitmap_ok(final(self).bitmap),
            final(self).pairs@ == old(self).pairs@,
            final(self).finger_array@ == old(self).finger_array@.update(index as int, meta_hash),
            final(self).occupancy() == old(self).occupancy() + 1,
            forall|j: int| #[trigger] final(self).live(j) == (old(self).live(j) || j == index),
            forall|j: int| #[trigger] final(self).probed(j) == (old(self).probed(j) || (probe && j == index)),
            final(self).same_overflow(old(self)),
    {
        self.finger_array[index as usize] = meta_hash;
        let idx = index as u32;
        let mut new_bitmap = self.bitmap | (1u32 << (idx + 18));
        if probe {
            new_bitmap = new_bitmap | (1u32 << (idx + 4));
        }
        proof {
            lemma_set_slot(old(self).bitmap, idx, probe, new_bitmap);
        }
        new_bitmap = new_bitmap + 1;
        self.bitmap = new_bitmap;
        proof {
            assert(self.finger_array@.subrange(14, 18) =~= old(self).finger_array@.subrange(14, 18));
        }
    }

    /// Clears slot `index` from the metadata word and lowers the counter.
    pub fn unset_hash(&mut self, index: u32)
        requires
            index < 14,
            bitmap_ok(old(self).bitmap),
            old(self).live(index as int),
        ensures
            bitmap_ok(final(self).bitmap),
            final(self).pairs@ == old(self).pairs@,
            final(self).finger_array == old(self).finger_array,
            final(self).occupancy() + 1 == old(self).occupancy(),
            forall|j: int| #[trigger] final(self).live(j) == (old(self).live(j) && j != index),
            forall|j: int| #[trigger] final(self).probed(j) == (old(self).probed(j) && j != index),
            final(self).same_overflow(old(self)),
    {
        let new_bitmap = self.bitmap & !(1u32 << (index + 18)) & !(1u32 << (index + 4));
        proof {
            lemma_clear_slot(old(self).bitmap, index, new_bitmap);
        }
        self.bitmap = new_bitmap - 1;
    }

    /// Places a pair in the lowest free slot.
    pub fn insert(&mut self, key: Key, value: ValueT, meta_hash: u8, probe: bool) -> (r: Result<i32, BucketError>)
        requires
            old(self).wf(),
            key.wf(),
        ensures
            final(self).wf(),
            r is Err <==> old(self).is_full(),
            r is Err ==> r == Err::<i32, BucketError>(BucketError::BucketFull) && *final(self) == *old(self),
            r is Ok ==> {
                let i = r->Ok_0 as int;
                &&& Bucket::added_slot(old(self), final(self), i, Pair { key, value }, meta_hash, probe)
                &&& forall|j: int| 0 <= j < i ==> #[trigger] old(self).live(j)
            },
    {
        let slot = self.find_empty_slot();
        if slot == -1 {
            return Err(BucketError::BucketFull);
        }
        self.insert_displace(key, value, meta_hash, slot, probe);
        Ok(slot)
    }

    /// Whether a stored entry matches `key` under fingerprint `meta_hash` and
    /// the given membership; on a match its value is copied into `value`.
    pub fn check_and_get(&self, meta_hash: u8, key: &Key, probe: bool, value: &mut ValueT) -> (r: bool)
        requires
            self.wf(),
            key.wf(),
        ensures
            r == self.has_match(meta_hash, key@, probe),
            r ==> exists|i: int| self.matches(i, meta_hash, key@, probe) && final(value)@ == self.value_at(i),
            !r ==> final(value)@ == old(value)@,
    {
        match self.find_match(meta_hash, key, probe) {
            Some(i) => {
                match &self.pairs[i] {
                    Some(p) => {
                        *value = copy_bytes(&p.value);
                        assert(value@ == self.value_at(i as int));
                    },
                    None => {},
                }
                assert(self.matches(i as int, meta_hash, key@, probe));
                true
            },
            None => false,
        }
    }

    /// The lowest slot that matches `key` under fingerprint `meta_hash` and
    /// the given membership.
    pub fn find_match(&self, meta_hash: u8, key: &Key, probe: bool) -> (r: Option<usize>)
        requires
            self.wf(),
            key.wf(),
        ensures
            r is None <==> !self.has_match(meta_hash, key@, probe),
            r is Some ==> self.matches(r->Some_0 as int, meta_hash, key@, probe)
                && forall|j: int| 0 <= j < r->Some_0 ==> !#[trigger] self.matches(j, meta_hash, key@, probe),
    {
        let alloc = get_bitmap(self.bitmap);
        let member = get_member(self.bitmap);
        let mut i: usize = 0;
        while i < 14
            invariant
                self.wf(),
                key.wf(),
                i <= 14,
                forall|j: int| 0 <= j < 14 ==> (bit_of(alloc, j) == #[trigger] alloc_bit(self.bitmap, j)),
                forall|j: int| 0 <= j < 14 ==> (bit_of(member, j) == #[trigger] member_bit(self.bitmap, j)),
                forall|j: int| 0 <= j < i ==> !#[trigger] self.matches(j, meta_hash, key@, probe),
            decreases 14 - i,
        {
            if self.finger_array[i] == meta_hash && check_bit_32(alloc, i as u32)
                && check_bit_32(member, i as u32) == probe {
                match &self.pairs[i] {
                    Some(p) => {
                        if p.key.same_key(key) {
                            assert(self.matches(i as int, meta_hash, key@, probe));
                            return Some(i);
                        }
                    },
                    None => {},
                }
            }
            i += 1;
        }
        None
    }

    /// Fills the free slot `slot` with a pair.
    pub(crate) fn insert_displace(&mut self, key: Key, value: ValueT, meta_hash: u8, slot: i32, probe: bool)
        requires
            old(self).wf(),
            key.wf(),
            0 <= slot < 14,
            !old(self).live(slot as int),
        ensures
            final(self).wf(),
            Bucket::added_slot(old(self), final(self), slot as int, Pair { key, value }, meta_hash, probe),
    {
        self.pairs.set(slot as usize, Some(Pair::new(key, value)));
        self.set_hash(slot, meta_hash, probe);
        proof {
            assert forall|i: int| 0 <= i < 14 implies (#[trigger] alloc_bit(self.bitmap, i) <==> self.pairs@[i] is Some) by {
                assert(self.live(i) == (old(self).live(i) || i == slot));
            }
            assert forall|i: int| 0 <= i < 14 && #[trigger] self.pairs@[i] is Some implies self.pairs@[i]->Some_0.key.wf() by {
                if i != slot {
                    assert(self.pairs@[i] == old(self).pairs@[i]);
                }
            }
        }
    }

    /// Empties live slot `slot` and hands its pair back.
    pub fn take_slot(&mut self, slot: usize) -> (r: Pair)
        requires
            old(self).wf(),
            slot < 14,
            old(self).live(slot as int),
        ensures
            final(self).wf(),
            Bucket::removed_slot(old(self), final(self), slot as int),
            Some(r) == old(self).pairs@[slot as int],
            r.key.wf(),
    {
        let mut out: Option<Pair> = None;
        std::mem::swap(&mut out, &mut self.pairs[slot]);
        proof {
            assert(self.pairs@ =~= old(self).pairs@.update(slot as int, None));
        }
        self.unset_hash(slot as u32);
        proof {
            assert forall|i: int| 0 <= i < 14 implies (#[trigger] alloc_bit(self.bitmap, i) <==> self.pairs@[i] is Some) by {
                assert(self.live(i) == (old(self).live(i) && i != slot));
            }
            assert forall|i: int| 0 <= i < 14 && #[trigger] self.pairs@[i] is Some implies self.pairs@[i]->Some_0.key.wf() by {
                assert(self.pairs@[i] == old(self).pairs@[i]);
            }
        }
        match out {
            Some(p) => p,
            None => {
                proof {
                    assert(false);
                }
                Pair::new(Key::new(0), Vec::new())
            },
        }
    }

    /// Removes the entry that matches `key` under fingerprint `meta_hash` and
    /// the given membership.
    pub fn delete(&mut self, key: &Key, meta_hash: u8, probe: bool) -> (r: Result<(), BucketError>)
        requires
            old(self).wf(),
            key.wf(),
        ensures
            final(self).wf(),
            r is Ok <==> old(self).has_match(meta_hash, key@, probe),
            r is Err ==> r == Err::<(), BucketError>(BucketError::ItemDoesntExist) && *final(self) == *old(self),
            r is Ok ==> exists|i: int| old(self).matches(i, meta_hash, key@, probe)
                && Bucket::removed_slot(old(self), final(self), i),
    {
        match self.find_match(meta_hash, key, probe) {
            Some(i) => {
                let _ = self.take_slot(i);
                Ok(())
            },
            None => Err(BucketError::ItemDoesntExist),
        }
    }

    /// Forgets every overflow record and clears the stash-check hint.
    pub fn reset_overflow_fp(&mut self)
        requires
            old(self).wf(),
        ensures
            final(self).wf(),
            final(self).overflow_bitmap == 0,
            final(self).overflow_index == 0,
            final(self).overflow_member == 0,
            final(self).overflow_count == 0,
            !final(self).stash_hint(),
            final(self).same_slots(old(self)),
            final(self).version_lock == old(self).version_lock,
    {
        self.overflow_bitmap = 0;
        self.overflow_index = 0;
        self.overflow_member = 0;
        self.overflow_count = 0;
        proof {
            assert forall|i: int| !#[trigger] bit8(0u8, i) by {
                if 0 <= i < 8 {
                    let k = i as u8;
                    assert((0u8 >> k) & 1 == 0) by (bit_vector);
                }
            }
        }
    }

    /// The lowest owned slot (membership bit clear), or -1.
    pub fn find_org_displacement(&self) -> (r: i32)
        requires
            self.wf(),
        ensures
            r == -1 <==> forall|j: int| 0 <= j < 14 ==> !(#[trigger] self.live(j) && !self.probed(j)),
            r != -1 ==> 0 <= r < 14 && self.live(r as int) && !self.probed(r as int)
                && forall|j: int| 0 <= j < r ==> !(#[trigger] self.live(j) && !self.probed(j)),
    {
        let alloc = get_bitmap(self.bitmap);
        let member = get_member(self.bitmap);
        let mut i: u32 = 0;
        while i < 14
            invariant
                i <= 14,
                forall|j: int| 0 <= j < 14 ==> (bit_of(alloc, j) == #[trigger] alloc_bit(self.bitmap, j)),
                forall|j: int| 0 <= j < 14 ==> (bit_of(member, j) == #[trigger] member_bit(self.bitmap, j)),
                forall|j: int| 0 <= j < i ==> !(#[trigger] self.live(j) && !self.probed(j)),
            decreases 14 - i,
        {
            if check_bit_32(alloc, i) && !check_bit_32(member, i) {
                assert(self.live(i as int) && !self.probed(i as int));
                return i as i32;
            }
            i += 1;
        }
        -1
    }

    /// The lowest hosted slot (membership bit set), or -1.
    pub fn find_probe_displacement(&self) -> (r: i32)
        requires
            self.wf(),
        ensures
            r == -1 <==> forall|j: int| 0 <= j < 14 ==> !#[trigger] self.probed(j),
            r != -1 ==> 0 <= r < 14 && self.live(r as int) && self.probed(r as int)
                && forall|j: int| 0 <= j < r ==> !#[trigger] self.probed(j),
    {
        let member = get_member(self.bitmap);
        let mut i: u32 = 0;
        while i < 14
            invariant
                self.wf(),
                i <= 14,
                forall|j: int| 0 <= j < 14 ==> (bit_of(member, j) == #[trigger] member_bit(self.bitmap, j)),
                forall|j: int| 0 <= j < i ==> !#[trigger] self.probed(j),
            decreases 14 - i,
        {
            if check_bit_32(member, i) {
                assert(self.probed(i as int));
                return i as i32;
            }
            i += 1;
        }
        -1
    }
    /// Records that an item of this bucket spilled into stash bucket `pos`:
    /// in a free overflow fingerprint slot of this bucket, else in one of the
    /// right neighbour (marked as kept for its left neighbour), else by the
    /// overflow counter. Sets the stash-check hint.
    pub fn set_indicator(&mut self, meta_hash: u8, neighbor: &mut Bucket, pos: u8)
        requires
            old(self).wf(),
            old(neighbor).wf(),
            pos < 4,
        ensures
            final(self).wf(),
            final(neighbor).wf(),
            final(self).stash_hint(),
            indicators(final(self), final(neighbor)) == indicators(old(self), old(neighbor)) + 1
                || (old(self).overflow_count == 255 && indicators(final(self), final(neighbor)) == indicators(old(self), old(neighbor))),
            member_indicators(final(self)) == member_indicators(old(self)),
            own_indicators(final(neighbor)) == own_indicators(old(neighbor)),
            final(neighbor).overflow_count == old(neighbor).overflow_count,
            final(neighbor).stash_hint() == old(neighbor).stash_hint(),
            final(self).same_slots(old(self)),
            final(neighbor).same_slots(old(neighbor)),
            final(self).version_lock == old(self).version_lock,
            final(neighbor).version_lock == old(neighbor).version_lock,
            (exists|i: int| 0 <= i < 4 && !bit8(old(self).overflow_bitmap, i)) ==> {
                &&& own_indicators(final(self)) == own_indicators(old(self)) + 1
                &&& member_indicators(final(neighbor)) == member_indicators(old(neighbor))
                &&& final(self).overflow_count == old(self).overflow_count
            },
            !(exists|i: int| 0 <= i < 4 && !bit8(old(self).overflow_bitmap, i))
                && (exists|i: int| 0 <= i < 4 && !bit8(old(neighbor).overflow_bitmap, i)) ==> {
                &&& own_indicators(final(self)) == own_indicators(old(self))
                &&& member_indicators(final(neighbor)) == member_indicators(old(neighbor)) + 1
                &&& final(self).overflow_count == old(self).overflow_count
            },
            !(exists|i: int| 0 <= i < 4 && !bit8(old(self).overflow_bitmap, i))
                && !(exists|i: int| 0 <= i < 4 && !bit8(old(neighbor).overflow_bitmap, i)) ==> {
                &&& own_indicators(final(self)) == own_indicators(old(self))
                &&& member_indicators(final(neighbor)) == member_indicators(old(neighbor))
                &&& final(self).overflow_count == if old(self).overflow_count < 255 { (old(self).overflow_count + 1) as u8 } else { 255u8 }
            },
            forall|i: int| #![trigger bit8(old(self).overflow_bitmap, i)]
                0 <= i < 4 && !bit8(old(self).overflow_bitmap, i) && (forall|j: int| 0 <= j < i ==> bit8(old(self).overflow_bitmap, j)) ==> {
                &&& bit8(final(self).overflow_bitmap, i)
                &&& !bit8(final(self).overflow_member, i)
                &&& final(self).finger_array@[14 + i] == meta_hash
                &&& (final(self).overflow_index >> ((2 * i) as u8)) & 3 == pos
                &&& forall|j: int| 0 <= j < 4 && j != i ==> bit8(final(self).overflow_bitmap, j) == bit8(old(self).overflow_bitmap, j)
                &&& final(neighbor).overflow_bitmap == old(neighbor).overflow_bitmap
            },
            (forall|j: int| 0 <= j < 4 ==> bit8(old(self).overflow_bitmap, j)) ==> forall|i: int| #![trigger bit8(old(neighbor).overflow_bitmap, i)]
                0 <= i < 4 && !bit8(old(neighbor).overflow_bitmap, i) && (forall|j: int| 0 <= j < i ==> bit8(old(neighbor).overflow_bitmap, j)) ==> {
                &&& bit8(final(neighbor).overflow_bitmap, i)
                &&& bit8(final(neighbor).overflow_member, i)
                &&& final(neighbor).finger_array@[14 + i] == meta_hash
                &&& (final(neighbor).overflow_index >> ((2 * i) as u8)) & 3 == pos
                &&& forall|j: int| 0 <= j < 4 && j != i ==> bit8(final(neighbor).overflow_bitmap, j) == bit8(old(neighbor).overflow_bitmap, j)
            },
    {
        let index = free_indicator_slot(self.overflow_bitmap);
        if index < 4 {
            let ix = index as u8;
            let ov = self.overflow_bitmap;
            proof {
                lemma_u8_set(ov, ix);
            }
            let oi = self.overflow_index;
            proof {
                lemma_index_field(oi, ix, pos);
            }
            self.finger_array[14 + index as usize] = meta_hash;
            self.overflow_bitmap = ov | (1u8 << ix);
            self.overflow_index = (oi & !(3u8 << (2 * ix))) | (pos << (2 * ix));
            proof {
                assert(own_seq(self.overflow_bitmap, self.overflow_member)
                    =~= own_seq(ov, self.overflow_member).update(ix as int, true));
                lemma_count_update(own_seq(ov, self.overflow_member), ix as int, true);
                assert(member_seq(self.overflow_bitmap, self.overflow_member)
                    =~= member_seq(ov, self.overflow_member));
            }
        } else {
            let nindex = free_indicator_slot(neighbor.overflow_bitmap);
            if nindex < 4 {
                let ix = nindex as u8;
                let ov = neighbor.overflow_bitmap;
                let mem = neighbor.overflow_member;
                proof {
                    lemma_u8_set(ov, ix);
                    lemma_u8_set(mem, ix);
                }
                let oi = neighbor.overflow_index;
                proof {
                    lemma_index_field(oi, ix, pos);
                }
                neighbor.finger_array[14 + nindex as usize] = meta_hash;
                neighbor.overflow_bitmap = ov | (1u8 << ix);
                neighbor.overflow_index = (oi & !(3u8 << (2 * ix))) | (pos << (2 * ix));
                neighbor.overflow_member = mem | (1u8 << ix);
                proof {
                    assert(member_seq(neighbor.overflow_bitmap, neighbor.overflow_member)
                        =~= member_seq(ov, mem).update(ix as int, true));
                    lemma_count_update(member_seq(ov, mem), ix as int, true);
                    assert(own_seq(neighbor.overflow_bitmap, neighbor.overflow_member) =~= own_seq(ov, mem));
                    assert(neighbor.finger_array@.subrange(0, 14) =~= old(neighbor).finger_array@.subrange(0, 14));
                }
            } else if self.overflow_count < 255 {
                self.overflow_count = self.overflow_count + 1;
            }
        }
        let ov = self.overflow_bitmap;
        proof {
            lemma_u8_set(ov, 4);
            assert(ov | 16u8 == ov | (1u8 << 4u8)) by (bit_vector);
        }
        self.overflow_bitmap = ov | OVERFLOW_SET;
        proof {
            assert(own_seq(self.overflow_bitmap, self.overflow_member) =~= own_seq(ov, self.overflow_member));
            assert(member_seq(self.overflow_bitmap, self.overflow_member) =~= member_seq(ov, self.overflow_member));
            assert(self.finger_array@.subrange(0, 14) =~= old(self).finger_array@.subrange(0, 14));
        }
    }

    /// The lowest overflow fingerprint slot recording (`member`) an item of the
    /// left neighbour or (`!member`) one of this bucket, spilled into stash
    /// bucket `pos` under fingerprint `meta_hash`.
    pub fn find_indicator(&self, meta_hash: u8, pos: u8, member: bool) -> (r: Option<u8>)
        ensures
            r is Some ==> indicator_matches(self, r->Some_0 as int, meta_hash, pos, member)
                && forall|j: int| 0 <= j < r->Some_0 ==> !#[trigger] indicator_matches(self, j, meta_hash, pos, member),
            r is None ==> forall|i: int| !#[trigger] indicator_matches(self, i, meta_hash, pos, member),
    {
        let mask = self.overflow_bitmap & OVERFLOW_BITMAP_MASK;
        let mut i: u8 = 0;
        while i < 4
            invariant
                i <= 4,
                mask == self.overflow_bitmap & 15,
                forall|j: int| 0 <= j < i ==> !#[trigger] indicator_matches(self, j, meta_hash, pos, member),
            decreases 4 - i,
        {
            proof {
                let ov = self.overflow_bitmap;
                assert(((mask >> i) & 1 == 1) == ((ov >> i) & 1 == 1)) by (bit_vector)
                    requires mask == ov & 15, i < 4;
            }
            if check_bit(mask, i as u32) && self.finger_array[14 + i as usize] == meta_hash
                && check_bit(self.overflow_member, i as u32) == member
                && (self.overflow_index >> (2 * i)) & (STASH_MASK as u8) == pos {
                return Some(i);
            }
            i += 1;
        }
        None
    }

    /// Undoes one record of a spill of this bucket into stash bucket `pos`:
    /// a matching overflow fingerprint of this bucket, else one kept for it
    /// by the right neighbour, else one count of the overflow counter. Clears
    /// the stash-check hint once nothing records a spill of this bucket.
    pub fn unset_indicator(&mut self, meta_hash: u8, neighbor: &mut Bucket, pos: u8)
        requires
            old(self).wf(),
            old(neighbor).wf(),
        ensures
            final(self).wf(),
            final(neighbor).wf(),
            indicators(final(self), final(neighbor)) + 1 == indicators(old(self), old(neighbor))
                || (old(self).overflow_count == 0 && indicators(final(self), final(neighbor)) == indicators(old(self), old(neighbor))),
            final(self).stash_hint() == (old(self).stash_hint() && indicators(final(self), final(neighbor)) > 0),
            (exists|i: int| indicator_matches(old(self), i, meta_hash, pos, false)) ==> {
                &&& own_indicators(final(self)) + 1 == own_indicators(old(self))
                &&& member_indicators(final(neighbor)) == member_indicators(old(neighbor))
                &&& final(self).overflow_count == old(self).overflow_count
            },
            !(exists|i: int| indicator_matches(old(self), i, meta_hash, pos, false))
                && (exists|i: int| indicator_matches(old(neighbor), i, meta_hash, pos, true)) ==> {
                &&& own_indicators(final(self)) == own_indicators(old(self))
                &&& member_indicators(final(neighbor)) + 1 == member_indicators(old(neighbor))
                &&& final(self).overflow_count == old(self).overflow_count
            },
            forall|i: int| #[trigger] indicator_matches(old(self), i, meta_hash, pos, false)
                && (forall|j: int| 0 <= j < i ==> !indicator_matches(old(self), j, meta_hash, pos, false)) ==> {
                &&& !bit8(final(self).overflow_bitmap, i)
                &&& forall|j: int| 0 <= j < 4 && j != i ==> bit8(final(self).overflow_bitmap, j) == bit8(old(self).overflow_bitmap, j)
                &&& final(neighbor).overflow_bitmap == old(neighbor).overflow_bitmap
            },
            !(exists|i: int| indicator_matches(old(self), i, meta_hash, pos, false)) ==> forall|i: int|
                #[trigger] indicator_matches(old(neighbor), i, meta_hash, pos, true)
                && (forall|j: int| 0 <= j < i ==> !indicator_matches(old(neighbor), j, meta_hash, pos, true)) ==> {
                &&& !bit8(final(neighbor).overflow_bitmap, i)
                &&& !bit8(final(neighbor).overflow_member, i)
                &&& forall|j: int| 0 <= j < 4 && j != i ==> bit8(final(neighbor).overflow_bitmap, j) == bit8(old(neighbor).overflow_bitmap, j)
            },
            !(exists|i: int| indicator_matches(old(self), i, meta_hash, pos, false))
                && !(exists|i: int| indicator_matches(old(neighbor), i, meta_hash, pos, true)) ==> {
                &&& own_indicators(final(self)) == own_indicators(old(self))
                &&& member_indicators(final(neighbor)) == member_indicators(old(neighbor))
                &&& final(self).overflow_count == if old(self).overflow_count > 0 { (old(self).overflow_count - 1) as u8 } else { 0u8 }
            },
            member_indicators(final(self)) == member_indicators(old(self)),
            own_indicators(final(neighbor)) == own_indicators(old(neighbor)),
            final(neighbor).overflow_count == old(neighbor).overflow_count,
            final(neighbor).stash_hint() == old(neighbor).stash_hint(),
            final(self).same_slots(old(self)),
            final(neighbor).same_slots(old(neighbor)),
            final(self).version_lock == old(self).version_lock,
            final(neighbor).version_lock == old(neighbor).version_lock,
    {
        match self.find_indicator(meta_hash, pos, false) {
            Some(i) => {
                let ov = self.overflow_bitmap;
                proof {
                    lemma_u8_clear(ov, i);
                }
                self.overflow_bitmap = ov & !(1u8 << i);
                self.overflow_index = self.overflow_index & !(3u8 << (2 * i));
                proof {
                    assert(own_seq(self.overflow_bitmap, self.overflow_member)
                        =~= own_seq(ov, self.overflow_member).update(i as int, false));
                    lemma_count_update(own_seq(ov, self.overflow_member), i as int, false);
                    assert(member_seq(self.overflow_bitmap, self.overflow_member) =~= member_seq(ov, self.overflow_member));
                }
            },
            None => {
                match neighbor.find_indicator(meta_hash, pos, true) {
                    Some(i) => {
                        let ov = neighbor.overflow_bitmap;
                        let mem = neighbor.overflow_member;
                        proof {
                            lemma_u8_clear(ov, i);
                            lemma_u8_clear(mem, i);
                        }
                        neighbor.overflow_bitmap = ov & !(1u8 << i);
                        neighbor.overflow_index = neighbor.overflow_index & !(3u8 << (2 * i));
                        neighbor.overflow_member = mem & !(1u8 << i);
                        proof {
                            assert(member_seq(neighbor.overflow_bitmap, neighbor.overflow_member)
                                =~= member_seq(ov, mem).update(i as int, false));
                            lemma_count_update(member_seq(ov, mem), i as int, false);
                            assert(own_seq(neighbor.overflow_bitmap, neighbor.overflow_member) =~= own_seq(ov, mem));
                        }
                    },
                    None => {
                        if self.overflow_count > 0 {
                            self.overflow_count = self.overflow_count - 1;
                        }
                    },
                }
            },
        }
        let mask1 = self.overflow_bitmap & OVERFLOW_BITMAP_MASK;
        let mask2 = neighbor.overflow_bitmap & OVERFLOW_BITMAP_MASK;
        proof {
            let (ov1, m1, ov2, m2) = (self.overflow_bitmap, self.overflow_member, neighbor.overflow_bitmap, neighbor.overflow_member);
            assert((mask1 & !m1 == 0) == !(((ov1 >> 0u8) & 1 == 1 && (m1 >> 0u8) & 1 != 1)
                || ((ov1 >> 1u8) & 1 == 1 && (m1 >> 1u8) & 1 != 1)
                || ((ov1 >> 2u8) & 1 == 1 && (m1 >> 2u8) & 1 != 1)
                || ((ov1 >> 3u8) & 1 == 1 && (m1 >> 3u8) & 1 != 1))) by (bit_vector)
                requires mask1 == ov1 & 15;
            assert((mask2 & m2 == 0) == !(((ov2 >> 0u8) & 1 == 1 && (m2 >> 0u8) & 1 == 1)
                || ((ov2 >> 1u8) & 1 == 1 && (m2 >> 1u8) & 1 == 1)
                || ((ov2 >> 2u8) & 1 == 1 && (m2 >> 2u8) & 1 == 1)
                || ((ov2 >> 3u8) & 1 == 1 && (m2 >> 3u8) & 1 == 1))) by (bit_vector)
                requires mask2 == ov2 & 15;
            lemma_count_zero(own_seq(ov1, m1));
            lemma_count_zero(member_seq(ov2, m2));
            assert(own_seq(ov1, m1)[0] == (bit8(ov1, 0) && !bit8(m1, 0)));
            assert(own_seq(ov1, m1)[1] == (bit8(ov1, 1) && !bit8(m1, 1)));
            assert(own_seq(ov1, m1)[2] == (bit8(ov1, 2) && !bit8(m1, 2)));
            assert(own_seq(ov1, m1)[3] == (bit8(ov1, 3) && !bit8(m1, 3)));
            assert(member_seq(ov2, m2)[0] == (bit8(ov2, 0) && bit8(m2, 0)));
            assert(member_seq(ov2, m2)[1] == (bit8(ov2, 1) && bit8(m2, 1)));
            assert(member_seq(ov2, m2)[2] == (bit8(ov2, 2) && bit8(m2, 2)));
            assert(member_seq(ov2, m2)[3] == (bit8(ov2, 3) && bit8(m2, 3)));
        }
        if mask1 & !self.overflow_member == 0 && self.overflow_count == 0 && mask2 & neighbor.overflow_member == 0 {
            self.clear_stash_check();
        }
    }

    /// Whether `key` is absent from this bucket (as owner), from the right
    /// neighbour (as hosted entry) and, when the stash-check hint is set, from
    /// the stash buckets.
    pub fn unique_check(&self, meta_hash: u8, key: &Key, neighbor: &Bucket, stash: &[Bucket]) -> (r: bool)
        requires
            self.wf(),
            neighbor.wf(),
            key.wf(),
            stash@.len() == 2,
            stash@[0].wf(),
            stash@[1].wf(),
        ensures
            r == !(self.has_match(meta_hash, key@, false) || neighbor.has_match(meta_hash, key@, true)
                || (self.stash_hint() && (stash@[0].has_match(meta_hash, key@, false)
                    || stash@[1].has_match(meta_hash, key@, false)))),
    {
        if self.find_match(meta_hash, key, false).is_some() || neighbor.find_match(meta_hash, key, true).is_some() {
            return false;
        }
        if self.test_stash_check() {
            let mut i: usize = 0;
            while i < 2
                invariant
                    i <= 2,
                    self.stash_hint(),
                    stash@.len() == 2,
                    stash@[0].wf(),
                    stash@[1].wf(),
                    key.wf(),
                    forall|j: int| 0 <= j < i ==> !#[trigger] stash@[j].has_match(meta_hash, key@, false),
                decreases 2 - i,
            {
                if stash[i].find_match(meta_hash, key, false).is_some() {
                    assert(stash@[i as int].has_match(meta_hash, key@, false));
                    assert(i == 0 || i == 1);
                    return false;
                }
                i += 1;
            }
        }
        true
    }
}

/// Writing `pos` into the two-bit index field `i` of `oi` stores it there.
pub proof fn lemma_index_field(oi: u8, i: u8, pos: u8)
    requires
        i < 4,
        pos < 4,
    ensures
        (((oi & !(3u8 << (2 * i) as u8)) | (pos << (2 * i) as u8)) >> ((2 * i) as u8)) & 3 == pos,
{
    assert((((oi & !(3u8 << (2 * i) as u8)) | (pos << (2 * i) as u8)) >> ((2 * i) as u8)) & 3 == pos) by (bit_vector)
        requires i < 4, pos < 4;
}

/// Whether overflow fingerprint slot `i` of `b` records, under fingerprint
/// `mh`, a spill into stash bucket `pos`, kept for the left neighbour
/// (`member`) or for `b` itself.
pub open spec fn indicator_matches(b: &Bucket, i: int, mh: u8, pos: u8, member: bool) -> bool {
    &&& 0 <= i < 4
    &&& bit8(b.overflow_bitmap, i)
    &&& bit8(b.overflow_member, i) == member
    &&& b.finger_array@[14 + i] == mh
    &&& (b.overflow_index >> ((2 * i) as u8)) & 1 == pos
}

/// `t2` and `n2` are `t` and its right neighbour `n` after recording one more
/// spill of `t` into the stash.
pub open spec fn indicator_added(t: &Bucket, n: &Bucket, t2: &Bucket, n2: &Bucket) -> bool {
    &&& t2.wf()
    &&& n2.wf()
    &&& t2.stash_hint()
    &&& indicators(t2, n2) == indicators(t, n) + 1 || (t.overflow_count == 255 && indicators(t2, n2) == indicators(t, n))
    &&& member_indicators(t2) == member_indicators(t)
    &&& own_indicators(n2) == own_indicators(n)
    &&& n2.overflow_count == n.overflow_count
    &&& n2.stash_hint() == n.stash_hint()
    &&& t2.same_slots(t)
    &&& n2.same_slots(n)
    &&& t2.version_lock == t.version_lock
    &&& n2.version_lock == n.version_lock
}

/// Puts a pair into the first stash bucket (at 64 and 65 of `buckets`) that
/// has room, and records the spill at `target` and its right neighbour.
pub fn stash_insert(
    buckets: &mut Vec<Bucket>,
    target: &mut Bucket,
    neighbor: &mut Bucket,
    key: Key,
    value: ValueT,
    meta_hash: u8,
) -> (r: bool)
    requires
        old(buckets)@.len() == 66,
        old(buckets)@[64].wf(),
        old(buckets)@[65].wf(),
        old(target).wf(),
        old(neighbor).wf(),
        key.wf(),
    ensures
        final(buckets)@.len() == 66,
        r == !(old(buckets)@[64].is_full() && old(buckets)@[65].is_full()),
        !r ==> final(buckets)@ == old(buckets)@ && *final(target) == *old(target) && *final(neighbor) == *old(neighbor),
        r ==> exists|sb: int, i: int| {
            &&& (sb == 64 || sb == 65)
            &&& (sb == 64 <==> !old(buckets)@[64].is_full())
            &&& final(buckets)@ == old(buckets)@.update(sb, final(buckets)@[sb])
            &&& final(buckets)@[sb].wf()
            &&& Bucket::added_slot(&old(buckets)@[sb], &final(buckets)@[sb], i, Pair { key, value }, meta_hash, false)
            &&& indicator_added(old(target), old(neighbor), final(target), final(neighbor))
        },
{
    let mut pos: u8 = 0;
    if get_count(buckets[64].bitmap) == K_NUM_PAIR_PER_BUCKET {
        if get_count(buckets[65].bitmap) == K_NUM_PAIR_PER_BUCKET {
            return false;
        }
        pos = 1;
    }
    let sb: usize = 64 + pos as usize;
    let res = buckets[sb].insert(key, value, meta_hash, false);
    match res {
        Ok(i) => {
            assert(final(buckets)@ =~= old(buckets)@.update(sb as int, buckets@[sb as int]));
        },
        Err(_) => {
            assert(false);
        },
    }
    target.set_indicator(meta_hash, neighbor, pos);
    true
}

/// In a well-formed bucket the occupancy counter equals the number of
/// allocated slots, and only allocated slots carry a membership bit.
pub proof fn lemma_bucket_metadata(b: &Bucket)
    requires
        b.wf(),
    ensures
        count_field(b.bitmap) == count_true(alloc_seq(b.bitmap)),
        count_field(b.bitmap) <= 14,
        forall|i: int| #[trigger] member_bit(b.bitmap, i) ==> alloc_bit(b.bitmap, i),
{
    lemma_count_bounds(alloc_seq(b.bitmap));
}

} // verus!
