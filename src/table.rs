//! The segment: 64 primary buckets and 2 stash buckets, with balanced
//! insert, displacement to the neighbours, stash fallback and split.
use vstd::prelude::*;
use crate::bits::{
    alloc_seq, count_field, bit_of, check_bit_32, count_true, get_count, lemma_count_bounds, lemma_count_update,
    lemma_count_zero, lemma_u32_set,
};
use crate::bucket::{
    Bucket, BucketError, indicator_added, indicators, member_indicators, own_indicators, stash_insert,
};
use crate::hashing::{bucket_index, fingerprint, home_bucket, lemma_home_bound};
use crate::pair::{Key, KeyView, Pair, ValueT, copy_bytes, hash_key, hash_of_key};
use crate::{BUCKET_MASK, K_FINGER_BITS, K_NUM_BUCKET, K_STASH_BUCKET};

verus! {

/// The high `depth` bits of a hash, as a number.
pub open spec fn prefix(h: u64, depth: int) -> int {
    if depth <= 0 {
        0
    } else {
        (h >> ((64 - depth) as u64)) as int
    }
}

/// The right neighbour of primary bucket `b`.
pub open spec fn next_of(b: int) -> int {
    (b + 1) % 64
}

/// Where slot `(b, s)` of a segment must sit, given what it holds: under
/// the fingerprint of its key's hash, with the segment's hash prefix, in its
/// home bucket (owned) or the right neighbour of it (hosted), or in a stash
/// bucket whose home bucket carries the stash-check hint.
pub open spec fn placed(bs: Seq<Bucket>, depth: int, pattern: int, b: int, s: int) -> bool {
    bs[b].live(s) ==> {
        let h = hash_of_key(bs[b].key_at(s));
        &&& bs[b].finger_array@[s] == fingerprint(h)
        &&& prefix(h, depth) == pattern
        &&& if b < 64 {
            if bs[b].probed(s) {
                home_bucket(h) == (b + 63) % 64
            } else {
                home_bucket(h) == b
            }
        } else {
            !bs[b].probed(s) && bs[home_bucket(h)].stash_hint()
        }
    }
}

/// No key is stored twice in a segment.
pub open spec fn unique_keys(bs: Seq<Bucket>) -> bool {
    forall|b1: int, s1: int, b2: int, s2: int|
        0 <= b1 < 66 && 0 <= b2 < 66 && #[trigger] bs[b1].live(s1) && #[trigger] bs[b2].live(s2)
            && bs[b1].key_at(s1) == bs[b2].key_at(s2) ==> b1 == b2 && s1 == s2
}

/// The stash slot numbered `x` (0..28).
pub open spec fn stash_bucket_of(x: int) -> int {
    if x < 14 { 64 } else { 65 }
}

pub open spec fn stash_slot_of(x: int) -> int {
    if x < 14 { x } else { x - 14 }
}

/// Whether stash slot `x` holds an item whose home bucket is `h`.
pub open spec fn stash_home(bs: Seq<Bucket>, x: int, h: int) -> bool {
    let b = stash_bucket_of(x);
    let s = stash_slot_of(x);
    bs[b].live(s) && home_bucket(hash_of_key(bs[b].key_at(s))) == h
}

/// The number of stash items whose home bucket is `h`.
pub open spec fn stash_count(bs: Seq<Bucket>, h: int) -> nat {
    count_true(Seq::new(28, |x: int| stash_home(bs, x, h)))
}

/// The invariant of a segment's buckets.
pub open spec fn buckets_inv(bs: Seq<Bucket>, depth: int, pattern: int) -> bool {
    &&& bs.len() == 66
    &&& forall|b: int| 0 <= b < 66 ==> #[trigger] bs[b].wf()
    &&& forall|b: int, s: int| 0 <= b < 66 ==> #[trigger] placed(bs, depth, pattern, b, s)
    &&& unique_keys(bs)
    &&& forall|h: int| 0 <= h < 64 ==> #[trigger] stash_count(bs, h) <= indicators(&bs[h], &bs[next_of(h)])
}

/// Whether the segment holds key `k` with value `v`.
pub open spec fn holds(bs: Seq<Bucket>, k: KeyView, v: Seq<u8>) -> bool {
    exists|b: int, s: int| 0 <= b < 66 && #[trigger] bs[b].live(s) && bs[b].key_at(s) == k && bs[b].value_at(s) == v
}

/// Whether the segment holds key `k`.
pub open spec fn holds_key(bs: Seq<Bucket>, k: KeyView) -> bool {
    exists|b: int, s: int| 0 <= b < 66 && #[trigger] bs[b].live(s) && bs[b].key_at(s) == k
}

/// The key/value pairs a segment holds.
pub open spec fn entries(bs: Seq<Bucket>) -> Set<(KeyView, Seq<u8>)> {
    Set::new(|e: (KeyView, Seq<u8>)| holds(bs, e.0, e.1))
}

/// The places where a lookup of a key with hash `h` looks: the home bucket,
/// its right neighbour, and the stash when the home bucket's hint is set.
pub open spec fn findable(bs: Seq<Bucket>, k: KeyView, h: u64) -> bool {
    let t = home_bucket(h);
    let mh = fingerprint(h);
    ||| bs[t].has_match(mh, k, false)
    ||| bs[next_of(t)].has_match(mh, k, true)
    ||| (bs[t].stash_hint() && (bs[64].has_match(mh, k, false) || bs[65].has_match(mh, k, false)))
}

/// A stored key is found where a lookup looks, and nothing found there is
/// foreign to the segment.
pub proof fn lemma_locate(bs: Seq<Bucket>, depth: int, pattern: int, k: KeyView)
    requires
        buckets_inv(bs, depth, pattern),
    ensures
        holds_key(bs, k) <==> findable(bs, k, hash_of_key(k)),
{
    let h = hash_of_key(k);
    let t = home_bucket(h);
    assert(0 <= t < 64) by {
        lemma_home_bound(h);
    }
    if holds_key(bs, k) {
        let (b, s) = choose|b: int, s: int| 0 <= b < 66 && #[trigger] bs[b].live(s) && bs[b].key_at(s) == k;
        assert(placed(bs, depth, pattern, b, s));
        if b < 64 {
            if bs[b].probed(s) {
                assert(b == next_of(t));
                assert(bs[b].matches(s, fingerprint(h), k, true));
            } else {
                assert(bs[b].matches(s, fingerprint(h), k, false));
            }
        } else {
            assert(bs[b].matches(s, fingerprint(h), k, false));
        }
    }
    if findable(bs, k, h) {
        if bs[t].has_match(fingerprint(h), k, false) {
            let s = choose|s: int| bs[t].matches(s, fingerprint(h), k, false);
            assert(bs[t].live(s));
        } else if bs[next_of(t)].has_match(fingerprint(h), k, true) {
            let s = choose|s: int| bs[next_of(t)].matches(s, fingerprint(h), k, true);
            assert(bs[next_of(t)].live(s));
        } else if bs[64].has_match(fingerprint(h), k, false) {
            let s = choose|s: int| bs[64].matches(s, fingerprint(h), k, false);
            assert(bs[64].live(s));
        } else {
            let s = choose|s: int| bs[65].matches(s, fingerprint(h), k, false);
            assert(bs[65].live(s));
        }
    }
}

/// Filling a free primary slot with a key that the segment does not hold,
/// placed where its hash says, keeps the invariant and adds the pair.
pub proof fn lemma_add_primary(bs: Seq<Bucket>, depth: int, pattern: int, b: int, nb: Bucket, i: int, p: Pair, probe: bool)
    requires
        buckets_inv(bs, depth, pattern),
        0 <= b < 64,
        nb.wf(),
        p.key.wf(),
        Bucket::added_slot(&bs[b], &nb, i, p, fingerprint(hash_of_key(p.key@)), probe),
        prefix(hash_of_key(p.key@), depth) == pattern,
        if probe { home_bucket(hash_of_key(p.key@)) == (b + 63) % 64 } else { home_bucket(hash_of_key(p.key@)) == b },
        !holds_key(bs, p.key@),
    ensures
        buckets_inv(bs.update(b, nb), depth, pattern),
        entries(bs.update(b, nb)) == entries(bs).insert((p.key@, p.value@)),
        holds_key(bs.update(b, nb), p.key@),
        forall|k: KeyView| k != p.key@ ==> (holds_key(bs.update(b, nb), k) == holds_key(bs, k)),
{
    let bs2 = bs.update(b, nb);
    assert(bs2[b] == nb);
    assert(bs[b].wf());
    assert(same_but(bs, bs2, b, i)) by {
        assert forall|c: int, s: int| 0 <= c < 66 && !(c == b && s == i) implies #[trigger] bs2[c].live(s) == bs[c].live(s) by {}
        assert forall|c: int, s: int| 0 <= c < 66 && !(c == b && s == i) && #[trigger] bs[c].live(s) implies
            bs2[c].pairs@[s] == bs[c].pairs@[s] && bs2[c].finger_array@[s] == bs[c].finger_array@[s]
            && bs2[c].probed(s) == bs[c].probed(s) by {
            assert(0 <= s < 14);
        }
    }
    lemma_slots_add(bs, bs2, b, i, p);
    assert forall|c: int, s: int| 0 <= c < 66 implies #[trigger] placed(bs2, depth, pattern, c, s) by {
        assert(placed(bs, depth, pattern, c, s));
        if c == b && s == i {
            assert(nb.pairs@[s] == Some(p));
            assert(nb.finger_array@[s] == fingerprint(hash_of_key(p.key@)));
        } else if bs2[c].live(s) {
            assert(bs[c].live(s));
        }
        if bs2[c].live(s) {
            let hb = home_bucket(hash_of_key(bs2[c].key_at(s)));
            assert(0 <= hb < 64) by {
                let h = hash_of_key(bs2[c].key_at(s));
                lemma_home_bound(h);
            }
            assert(bs2[hb].stash_hint() == bs[hb].stash_hint());
        }
    }
    assert forall|c: int| 0 <= c < 66 implies #[trigger] bs2[c].wf() by {}
    assert forall|h: int| 0 <= h < 64 implies #[trigger] stash_count(bs2, h) <= indicators(&bs2[h], &bs2[next_of(h)]) by {
        assert(Seq::new(28, |x: int| stash_home(bs2, x, h)) =~= Seq::new(28, |x: int| stash_home(bs, x, h)));
        assert(stash_count(bs, h) <= indicators(&bs[h], &bs[next_of(h)]));
    }
}

/// Emptying a live primary slot keeps the invariant and removes its pair,
/// and with it its key.
pub proof fn lemma_remove_primary(bs: Seq<Bucket>, depth: int, pattern: int, b: int, nb: Bucket, i: int)
    requires
        buckets_inv(bs, depth, pattern),
        0 <= b < 64,
        nb.wf(),
        Bucket::removed_slot(&bs[b], &nb, i),
    ensures
        buckets_inv(bs.update(b, nb), depth, pattern),
        entries(bs.update(b, nb)) == entries(bs).remove((bs[b].key_at(i), bs[b].value_at(i))),
        !holds_key(bs.update(b, nb), bs[b].key_at(i)),
        forall|k: KeyView| k != bs[b].key_at(i) ==> (holds_key(bs.update(b, nb), k) == holds_key(bs, k)),
{
    let bs2 = bs.update(b, nb);
    assert(bs2[b] == nb);
    assert(bs[b].wf());
    assert(same_but(bs, bs2, b, i)) by {
        assert forall|c: int, s: int| 0 <= c < 66 && !(c == b && s == i) implies #[trigger] bs2[c].live(s) == bs[c].live(s) by {}
        assert forall|c: int, s: int| 0 <= c < 66 && !(c == b && s == i) && #[trigger] bs[c].live(s) implies
            bs2[c].pairs@[s] == bs[c].pairs@[s] && bs2[c].finger_array@[s] == bs[c].finger_array@[s]
            && bs2[c].probed(s) == bs[c].probed(s) by {
            assert(0 <= s < 14);
        }
    }
    lemma_slots_remove(bs, bs2, b, i);
    assert forall|c: int, s: int| 0 <= c < 66 implies #[trigger] placed(bs2, depth, pattern, c, s) by {
        assert(placed(bs, depth, pattern, c, s));
        if bs2[c].live(s) {
            assert(bs[c].live(s));
            let hb = home_bucket(hash_of_key(bs2[c].key_at(s)));
            assert(0 <= hb < 64) by {
                let h = hash_of_key(bs2[c].key_at(s));
                lemma_home_bound(h);
            }
            assert(bs2[hb].stash_hint() == bs[hb].stash_hint());
        }
    }
    assert forall|c: int| 0 <= c < 66 implies #[trigger] bs2[c].wf() by {}
    assert forall|h: int| 0 <= h < 64 implies #[trigger] stash_count(bs2, h) <= indicators(&bs2[h], &bs2[next_of(h)]) by {
        assert(Seq::new(28, |x: int| stash_home(bs2, x, h)) =~= Seq::new(28, |x: int| stash_home(bs, x, h)));
        assert(stash_count(bs, h) <= indicators(&bs[h], &bs[next_of(h)]));
    }
}

/// `bs2` agrees with `bs` on every slot but `(b, i)`.
pub open spec fn same_but(bs: Seq<Bucket>, bs2: Seq<Bucket>, b: int, i: int) -> bool {
    forall|c: int, s: int| 0 <= c < 66 && !(c == b && s == i) ==> {
        &&& #[trigger] bs2[c].live(s) == bs[c].live(s)
        &&& bs[c].live(s) ==> {
            &&& bs2[c].pairs@[s] == bs[c].pairs@[s]
            &&& bs2[c].finger_array@[s] == bs[c].finger_array@[s]
            &&& bs2[c].probed(s) == bs[c].probed(s)
        }
    }
}

/// Filling slot `(b, i)` with a key the segment does not hold keeps keys
/// unique and adds the pair.
pub proof fn lemma_slots_add(bs: Seq<Bucket>, bs2: Seq<Bucket>, b: int, i: int, p: Pair)
    requires
        bs.len() == 66,
        bs2.len() == 66,
        unique_keys(bs),
        same_but(bs, bs2, b, i),
        0 <= b < 66,
        !bs[b].live(i),
        bs2[b].live(i),
        bs2[b].pairs@[i] == Some(p),
        !holds_key(bs, p.key@),
    ensures
        unique_keys(bs2),
        entries(bs2) == entries(bs).insert((p.key@, p.value@)),
        holds_key(bs2, p.key@),
        forall|k: KeyView| k != p.key@ ==> (holds_key(bs2, k) == holds_key(bs, k)),
{
    assert forall|b1: int, s1: int, b2: int, s2: int|
        0 <= b1 < 66 && 0 <= b2 < 66 && #[trigger] bs2[b1].live(s1) && #[trigger] bs2[b2].live(s2)
            && bs2[b1].key_at(s1) == bs2[b2].key_at(s2) implies b1 == b2 && s1 == s2 by {
        let n1 = b1 == b && s1 == i;
        let n2 = b2 == b && s2 == i;
        if !n1 {
            assert(bs[b1].live(s1));
        }
        if !n2 {
            assert(bs[b2].live(s2));
        }
    }
    assert(bs2[b].key_at(i) == p.key@);
    assert forall|k: KeyView| k != p.key@ implies (holds_key(bs2, k) == holds_key(bs, k)) by {
        if holds_key(bs2, k) {
            let (c, s) = choose|c: int, s: int| 0 <= c < 66 && #[trigger] bs2[c].live(s) && bs2[c].key_at(s) == k;
            assert(bs[c].live(s));
        }
        if holds_key(bs, k) {
            let (c, s) = choose|c: int, s: int| 0 <= c < 66 && #[trigger] bs[c].live(s) && bs[c].key_at(s) == k;
            assert(bs2[c].live(s));
        }
    }
    assert forall|e: (KeyView, Seq<u8>)| #[trigger] entries(bs2).contains(e) == entries(bs).insert((p.key@, p.value@)).contains(e) by {
        if holds(bs2, e.0, e.1) {
            let (c, s) = choose|c: int, s: int| 0 <= c < 66 && #[trigger] bs2[c].live(s) && bs2[c].key_at(s) == e.0 && bs2[c].value_at(s) == e.1;
            if !(c == b && s == i) {
                assert(bs[c].live(s));
            }
        }
        if holds(bs, e.0, e.1) {
            let (c, s) = choose|c: int, s: int| 0 <= c < 66 && #[trigger] bs[c].live(s) && bs[c].key_at(s) == e.0 && bs[c].value_at(s) == e.1;
            assert(bs2[c].live(s));
        }
        if e == (p.key@, p.value@) {
            assert(bs2[b].live(i));
        }
    }
    assert(entries(bs2) =~= entries(bs).insert((p.key@, p.value@)));
}

/// Emptying live slot `(b, i)` keeps keys unique and removes its pair, and
/// with it its key.
pub proof fn lemma_slots_remove(bs: Seq<Bucket>, bs2: Seq<Bucket>, b: int, i: int)
    requires
        bs.len() == 66,
        bs2.len() == 66,
        unique_keys(bs),
        same_but(bs, bs2, b, i),
        0 <= b < 66,
        bs[b].live(i),
        !bs2[b].live(i),
    ensures
        unique_keys(bs2),
        entries(bs2) == entries(bs).remove((bs[b].key_at(i), bs[b].value_at(i))),
        !holds_key(bs2, bs[b].key_at(i)),
        forall|k: KeyView| k != bs[b].key_at(i) ==> (holds_key(bs2, k) == holds_key(bs, k)),
{
    let k = bs[b].key_at(i);
    assert forall|b1: int, s1: int, b2: int, s2: int|
        0 <= b1 < 66 && 0 <= b2 < 66 && #[trigger] bs2[b1].live(s1) && #[trigger] bs2[b2].live(s2)
            && bs2[b1].key_at(s1) == bs2[b2].key_at(s2) implies b1 == b2 && s1 == s2 by {
        assert(bs[b1].live(s1));
        assert(bs[b2].live(s2));
    }
    assert forall|kk: KeyView| holds_key(bs2, kk) == (holds_key(bs, kk) && kk != k) by {
        if holds_key(bs2, kk) {
            let (c, s) = choose|c: int, s: int| 0 <= c < 66 && #[trigger] bs2[c].live(s) && bs2[c].key_at(s) == kk;
            assert(bs[c].live(s));
            assert(bs[b].live(i));
        }
        if holds_key(bs, kk) && kk != k {
            let (c, s) = choose|c: int, s: int| 0 <= c < 66 && #[trigger] bs[c].live(s) && bs[c].key_at(s) == kk;
            assert(bs2[c].live(s));
        }
    }
    assert forall|e: (KeyView, Seq<u8>)| #[trigger] entries(bs2).contains(e) == entries(bs).remove((k, bs[b].value_at(i))).contains(e) by {
        if holds(bs2, e.0, e.1) {
            let (c, s) = choose|c: int, s: int| 0 <= c < 66 && #[trigger] bs2[c].live(s) && bs2[c].key_at(s) == e.0 && bs2[c].value_at(s) == e.1;
            assert(bs[c].live(s));
            assert(bs[b].live(i));
        }
        if holds(bs, e.0, e.1) && e != (k, bs[b].value_at(i)) {
            let (c, s) = choose|c: int, s: int| 0 <= c < 66 && #[trigger] bs[c].live(s) && bs[c].key_at(s) == e.0 && bs[c].value_at(s) == e.1;
            assert(bs2[c].live(s));
        }
    }
    assert(entries(bs2) =~= entries(bs).remove((k, bs[b].value_at(i))));
}

/// A stash holding an item of home `h` counts at least one.
pub proof fn lemma_stash_count_pos(bs: Seq<Bucket>, x: int, h: int)
    requires
        0 <= x < 28,
        stash_home(bs, x, h),
    ensures
        stash_count(bs, h) >= 1,
{
    let q = Seq::new(28, |y: int| stash_home(bs, y, h));
    lemma_count_update(q, x, false);
}

/// The stash slot number of slot `i` of stash bucket `sb`.
pub open spec fn stash_number(sb: int, i: int) -> int {
    if sb == 64 { i } else { 14 + i }
}

/// Putting a key the segment does not hold into stash bucket `sb`, and
/// recording the spill at its home bucket `t` and the right neighbour of it,
/// keeps the invariant and adds the pair.
pub proof fn lemma_add_stash(
    bs: Seq<Bucket>, depth: int, pattern: int, sb: int, ns: Bucket, i: int, p: Pair,
    t: int, nt: Bucket, nn: Bucket,
)
    requires
        buckets_inv(bs, depth, pattern),
        sb == 64 || sb == 65,
        ns.wf(),
        nt.wf(),
        nn.wf(),
        p.key.wf(),
        Bucket::added_slot(&bs[sb], &ns, i, p, fingerprint(hash_of_key(p.key@)), false),
        prefix(hash_of_key(p.key@), depth) == pattern,
        home_bucket(hash_of_key(p.key@)) == t,
        !holds_key(bs, p.key@),
        nt.stash_hint(),
        indicators(&nt, &nn) == indicators(&bs[t], &bs[next_of(t)]) + 1
            || (bs[t].overflow_count == 255 && indicators(&nt, &nn) == indicators(&bs[t], &bs[next_of(t)])),
        member_indicators(&nt) == member_indicators(&bs[t]),
        own_indicators(&nn) == own_indicators(&bs[next_of(t)]),
        nn.overflow_count == bs[next_of(t)].overflow_count,
        nn.stash_hint() == bs[next_of(t)].stash_hint(),
        nt.same_slots(&bs[t]),
        nn.same_slots(&bs[next_of(t)]),
    ensures
        buckets_inv(bs.update(sb, ns).update(t, nt).update(next_of(t), nn), depth, pattern),
        entries(bs.update(sb, ns).update(t, nt).update(next_of(t), nn)) == entries(bs).insert((p.key@, p.value@)),
        holds_key(bs.update(sb, ns).update(t, nt).update(next_of(t), nn), p.key@),
{
    let bs2 = bs.update(sb, ns).update(t, nt).update(next_of(t), nn);
    let n = next_of(t);
    assert(0 <= t < 64) by {
        let h = hash_of_key(p.key@);
        lemma_home_bound(h);
    }
    assert(bs[sb].wf() && bs[t].wf() && bs[n].wf());
    assert(bs2[sb] == ns && bs2[t] == nt && bs2[n] == nn);
    assert forall|c: int| 0 <= c < 66 implies #[trigger] bs2[c].wf() by {}
    assert forall|c: int, s: int| 0 <= c < 66 && 0 <= s < 14 && (c == t || c == n) implies
        bs2[c].pairs@[s] == bs[c].pairs@[s] && bs2[c].finger_array@[s] == bs[c].finger_array@[s]
        && bs2[c].live(s) == bs[c].live(s) && bs2[c].probed(s) == bs[c].probed(s) by {
        assert(bs2[c].finger_array@[s] == bs2[c].finger_array@.subrange(0, 14)[s]);
        assert(bs[c].finger_array@[s] == bs[c].finger_array@.subrange(0, 14)[s]);
    }
    assert(same_but(bs, bs2, sb, i)) by {
        assert forall|c: int, s: int| 0 <= c < 66 && !(c == sb && s == i) implies #[trigger] bs2[c].live(s) == bs[c].live(s) by {
            if c == sb && bs2[c].live(s) {
                assert(0 <= s < 14);
            }
        }
        assert forall|c: int, s: int| 0 <= c < 66 && !(c == sb && s == i) && #[trigger] bs[c].live(s) implies
            bs2[c].pairs@[s] == bs[c].pairs@[s] && bs2[c].finger_array@[s] == bs[c].finger_array@[s]
            && bs2[c].probed(s) == bs[c].probed(s) by {
            assert(0 <= s < 14);
        }
    }
    assert(bs2[sb].pairs@[i] == Some(p));
    lemma_slots_add(bs, bs2, sb, i, p);
    assert forall|c: int, s: int| 0 <= c < 66 implies #[trigger] placed(bs2, depth, pattern, c, s) by {
        assert(placed(bs, depth, pattern, c, s));
        if bs2[c].live(s) {
            let hb = home_bucket(hash_of_key(bs2[c].key_at(s)));
            assert(0 <= hb < 64) by {
                let h = hash_of_key(bs2[c].key_at(s));
                lemma_home_bound(h);
            }
            if !(c == sb && s == i) {
                assert(bs[c].live(s));
                if hb != t {
                    assert(bs2[hb].stash_hint() == bs[hb].stash_hint());
                }
            } else {
                assert(ns.finger_array@[i] == fingerprint(hash_of_key(p.key@)));
            }
        }
    }
    assert forall|h: int| 0 <= h < 64 implies #[trigger] stash_count(bs2, h) <= indicators(&bs2[h], &bs2[next_of(h)]) by {
        let q = Seq::new(28, |x: int| stash_home(bs, x, h));
        let q2 = Seq::new(28, |x: int| stash_home(bs2, x, h));
        let x0 = stash_number(sb, i);
        assert(stash_bucket_of(x0) == sb && stash_slot_of(x0) == i);
        assert(!q[x0]);
        assert forall|x: int| 0 <= x < 28 && x != x0 implies q2[x] == q[x] by {
            let c = stash_bucket_of(x);
            let s = stash_slot_of(x);
            assert(bs2[c].live(s) == bs[c].live(s));
        }
        assert(q2 =~= q.update(x0, h == t));
        lemma_count_update(q, x0, h == t);
        lemma_count_bounds(q);
        assert(stash_count(bs, h) <= indicators(&bs[h], &bs[next_of(h)]));
        if h == t {
        } else if next_of(h) == t {
            assert(bs2[h] == bs[h]);
        } else if h == n {
            assert(next_of(h) != t && next_of(h) != sb);
            assert(bs2[next_of(h)] == bs[next_of(h)]);
        } else {
            assert(bs2[h] == bs[h]);
            assert(bs2[next_of(h)] == bs[next_of(h)]);
        }
    }
}

/// Emptying slot `i` of stash bucket `sb`, whose item has home bucket `t`,
/// and undoing one record of the spill at `t` and its right neighbour, keeps
/// the invariant and removes the pair and its key.
pub proof fn lemma_remove_stash(
    bs: Seq<Bucket>, depth: int, pattern: int, sb: int, ns: Bucket, i: int,
    t: int, nt: Bucket, nn: Bucket,
)
    requires
        buckets_inv(bs, depth, pattern),
        sb == 64 || sb == 65,
        ns.wf(),
        nt.wf(),
        nn.wf(),
        Bucket::removed_slot(&bs[sb], &ns, i),
        home_bucket(hash_of_key(bs[sb].key_at(i))) == t,
        indicators(&nt, &nn) + 1 == indicators(&bs[t], &bs[next_of(t)])
            || (bs[t].overflow_count == 0 && indicators(&nt, &nn) == indicators(&bs[t], &bs[next_of(t)])),
        nt.stash_hint() == (bs[t].stash_hint() && indicators(&nt, &nn) > 0),
        member_indicators(&nt) == member_indicators(&bs[t]),
        own_indicators(&nn) == own_indicators(&bs[next_of(t)]),
        nn.overflow_count == bs[next_of(t)].overflow_count,
        nn.stash_hint() == bs[next_of(t)].stash_hint(),
        nt.same_slots(&bs[t]),
        nn.same_slots(&bs[next_of(t)]),
    ensures
        buckets_inv(bs.update(sb, ns).update(t, nt).update(next_of(t), nn), depth, pattern),
        entries(bs.update(sb, ns).update(t, nt).update(next_of(t), nn)) == entries(bs).remove((bs[sb].key_at(i), bs[sb].value_at(i))),
        !holds_key(bs.update(sb, ns).update(t, nt).update(next_of(t), nn), bs[sb].key_at(i)),
        forall|k: KeyView| k != bs[sb].key_at(i) ==> (holds_key(bs.update(sb, ns).update(t, nt).update(next_of(t), nn), k) == holds_key(bs, k)),
{
    let bs2 = bs.update(sb, ns).update(t, nt).update(next_of(t), nn);
    let n = next_of(t);
    assert(0 <= t < 64) by {
        let h = hash_of_key(bs[sb].key_at(i));
        lemma_home_bound(h);
    }
    assert(bs[sb].wf() && bs[t].wf() && bs[n].wf());
    assert(bs2[sb] == ns && bs2[t] == nt && bs2[n] == nn);
    assert forall|c: int| 0 <= c < 66 implies #[trigger] bs2[c].wf() by {}
    assert forall|c: int, s: int| 0 <= c < 66 && 0 <= s < 14 && (c == t || c == n) implies
        bs2[c].pairs@[s] == bs[c].pairs@[s] && bs2[c].finger_array@[s] == bs[c].finger_array@[s]
        && bs2[c].live(s) == bs[c].live(s) && bs2[c].probed(s) == bs[c].probed(s) by {
        assert(bs2[c].finger_array@[s] == bs2[c].finger_array@.subrange(0, 14)[s]);
        assert(bs[c].finger_array@[s] == bs[c].finger_array@.subrange(0, 14)[s]);
    }
    assert(same_but(bs, bs2, sb, i)) by {
        assert forall|c: int, s: int| 0 <= c < 66 && !(c == sb && s == i) implies #[trigger] bs2[c].live(s) == bs[c].live(s) by {
            if c == sb && bs[c].live(s) {
                assert(0 <= s < 14);
            }
        }
        assert forall|c: int, s: int| 0 <= c < 66 && !(c == sb && s == i) && #[trigger] bs[c].live(s) implies
            bs2[c].pairs@[s] == bs[c].pairs@[s] && bs2[c].finger_array@[s] == bs[c].finger_array@[s]
            && bs2[c].probed(s) == bs[c].probed(s) by {
            assert(0 <= s < 14);
        }
    }
    lemma_slots_remove(bs, bs2, sb, i);
    let x0 = stash_number(sb, i);
    assert(stash_bucket_of(x0) == sb && stash_slot_of(x0) == i);
    assert forall|h: int| 0 <= h < 64 implies #[trigger] stash_count(bs2, h) <= indicators(&bs2[h], &bs2[next_of(h)])
        && (h == t ==> stash_count(bs2, h) + 1 == stash_count(bs, h)) by {
        let q = Seq::new(28, |x: int| stash_home(bs, x, h));
        let q2 = Seq::new(28, |x: int| stash_home(bs2, x, h));
        assert forall|x: int| 0 <= x < 28 && x != x0 implies q2[x] == q[x] by {
            let c = stash_bucket_of(x);
            let s = stash_slot_of(x);
            assert(bs2[c].live(s) == bs[c].live(s));
        }
        assert(q[x0] == (h == t));
        assert(q2 =~= q.update(x0, false));
        lemma_count_update(q, x0, false);
        assert(stash_count(bs, h) <= indicators(&bs[h], &bs[next_of(h)]));
        if h == t {
        } else if next_of(h) == t {
            assert(bs2[h] == bs[h]);
        } else if h == n {
            assert(bs2[next_of(h)] == bs[next_of(h)]);
        } else {
            assert(bs2[h] == bs[h]);
            assert(bs2[next_of(h)] == bs[next_of(h)]);
        }
    }
    assert forall|c: int, s: int| 0 <= c < 66 implies #[trigger] placed(bs2, depth, pattern, c, s) by {
        assert(placed(bs, depth, pattern, c, s));
        if bs2[c].live(s) {
            assert(bs[c].live(s));
            let hb = home_bucket(hash_of_key(bs2[c].key_at(s)));
            assert(0 <= hb < 64) by {
                let h = hash_of_key(bs2[c].key_at(s));
                lemma_home_bound(h);
            }
            if c >= 64 && hb == t {
                let x = stash_number(c, s);
                assert(stash_bucket_of(x) == c && stash_slot_of(x) == s);
                assert(stash_home(bs2, x, t));
                lemma_stash_count_pos(bs2, x, t);
                assert(stash_count(bs2, t) <= indicators(&bs2[t], &bs2[next_of(t)]));
            } else if hb != t {
                assert(bs2[hb].stash_hint() == bs[hb].stash_hint());
            }
        }
    }
}

/// `a` and `b` agree on everything but the lock word.
pub open spec fn same_content(a: Bucket, b: Bucket) -> bool {
    &&& a.pairs@ == b.pairs@
    &&& a.bitmap == b.bitmap
    &&& a.finger_array == b.finger_array
    &&& a.overflow_bitmap == b.overflow_bitmap
    &&& a.overflow_member == b.overflow_member
    &&& a.overflow_index == b.overflow_index
    &&& a.overflow_count == b.overflow_count
}

/// Lock words do not matter to the invariant or to what a segment holds.
pub proof fn lemma_same_content(bs: Seq<Bucket>, bs2: Seq<Bucket>, depth: int, pattern: int)
    requires
        buckets_inv(bs, depth, pattern),
        bs2.len() == 66,
        forall|b: int| 0 <= b < 66 ==> same_content(#[trigger] bs[b], bs2[b]),
    ensures
        buckets_inv(bs2, depth, pattern),
        entries(bs2) == entries(bs),
        forall|k: KeyView| holds_key(bs2, k) == holds_key(bs, k),
{
    assert forall|b: int| 0 <= b < 66 implies #[trigger] bs2[b].wf() by {
        assert(same_content(bs[b], bs2[b]));
        assert(bs[b].wf());
    }
    assert forall|b: int, s: int| 0 <= b < 66 implies #[trigger] placed(bs2, depth, pattern, b, s) by {
        assert(same_content(bs[b], bs2[b]));
        assert(placed(bs, depth, pattern, b, s));
        if bs2[b].live(s) {
            let hb = home_bucket(hash_of_key(bs2[b].key_at(s)));
            assert(0 <= hb < 64) by {
                let h = hash_of_key(bs2[b].key_at(s));
                lemma_home_bound(h);
            }
            assert(same_content(bs[hb], bs2[hb]));
        }
    }
    assert forall|b1: int, s1: int, b2: int, s2: int|
        0 <= b1 < 66 && 0 <= b2 < 66 && #[trigger] bs2[b1].live(s1) && #[trigger] bs2[b2].live(s2)
            && bs2[b1].key_at(s1) == bs2[b2].key_at(s2) implies b1 == b2 && s1 == s2 by {
        assert(same_content(bs[b1], bs2[b1]));
        assert(same_content(bs[b2], bs2[b2]));
        assert(bs[b1].live(s1) && bs[b2].live(s2));
    }
    assert forall|h: int| 0 <= h < 64 implies #[trigger] stash_count(bs2, h) <= indicators(&bs2[h], &bs2[next_of(h)]) by {
        assert(same_content(bs[64], bs2[64]));
        assert(same_content(bs[65], bs2[65]));
        assert(same_content(bs[h], bs2[h]));
        assert(0 <= next_of(h) < 64);
        assert(same_content(bs[next_of(h)], bs2[next_of(h)]));
        assert(Seq::new(28, |x: int| stash_home(bs2, x, h)) =~= Seq::new(28, |x: int| stash_home(bs, x, h)));
        assert(stash_count(bs, h) <= indicators(&bs[h], &bs[next_of(h)]));
    }
    assert forall|e: (KeyView, Seq<u8>)| #[trigger] entries(bs2).contains(e) == entries(bs).contains(e) by {
        if holds(bs2, e.0, e.1) {
            let (c, s) = choose|c: int, s: int| 0 <= c < 66 && #[trigger] bs2[c].live(s) && bs2[c].key_at(s) == e.0 && bs2[c].value_at(s) == e.1;
            assert(same_content(bs[c], bs2[c]));
            assert(bs[c].live(s));
        }
        if holds(bs, e.0, e.1) {
            let (c, s) = choose|c: int, s: int| 0 <= c < 66 && #[trigger] bs[c].live(s) && bs[c].key_at(s) == e.0 && bs[c].value_at(s) == e.1;
            assert(same_content(bs[c], bs2[c]));
            assert(bs2[c].live(s));
        }
    }
    assert(entries(bs2) =~= entries(bs));
    assert forall|k: KeyView| holds_key(bs2, k) == holds_key(bs, k) by {
        if holds_key(bs2, k) {
            let (c, s) = choose|c: int, s: int| 0 <= c < 66 && #[trigger] bs2[c].live(s) && bs2[c].key_at(s) == k;
            assert(same_content(bs[c], bs2[c]));
            assert(bs[c].live(s));
        }
        if holds_key(bs, k) {
            let (c, s) = choose|c: int, s: int| 0 <= c < 66 && #[trigger] bs[c].live(s) && bs[c].key_at(s) == k;
            assert(same_content(bs[c], bs2[c]));
            assert(bs2[c].live(s));
        }
    }
}

/// What a bucket matches depends on its content alone.
pub proof fn lemma_has_match_same(a: Bucket, b: Bucket, mh: u8, k: KeyView, probe: bool)
    requires
        same_content(a, b),
    ensures
        a.has_match(mh, k, probe) == b.has_match(mh, k, probe),
{
    if a.has_match(mh, k, probe) {
        let i = choose|i: int| a.matches(i, mh, k, probe);
        assert(b.matches(i, mh, k, probe));
    }
    if b.has_match(mh, k, probe) {
        let i = choose|i: int| b.matches(i, mh, k, probe);
        assert(a.matches(i, mh, k, probe));
    }
}

/// Whether bucket `b` holds key `k` with value `v` under fingerprint `mh`,
/// hosted (`probe`) or owned.
pub open spec fn lands(bs: Seq<Bucket>, b: int, k: KeyView, v: Seq<u8>, mh: u8, probe: bool) -> bool {
    exists|i: int| #[trigger] bs[b].live(i) && bs[b].probed(i) == probe && bs[b].key_at(i) == k
        && bs[b].value_at(i) == v && bs[b].finger_array@[i] == mh
}

/// Where a pair sits depends on bucket content alone.
pub proof fn lemma_lands_same(bs: Seq<Bucket>, bs2: Seq<Bucket>, b: int, k: KeyView, v: Seq<u8>, mh: u8, probe: bool)
    requires
        same_content(bs[b], bs2[b]),
        lands(bs, b, k, v, mh, probe),
    ensures
        lands(bs2, b, k, v, mh, probe),
{
    let i = choose|i: int| #[trigger] bs[b].live(i) && bs[b].probed(i) == probe && bs[b].key_at(i) == k
        && bs[b].value_at(i) == v && bs[b].finger_array@[i] == mh;
    assert(bs2[b].live(i));
}

/// `new` is `old` with live slot `i` emptied and every other slot as it was.
pub open spec fn freed(old: Bucket, new: Bucket, i: int) -> bool {
    &&& old.live(i)
    &&& !new.live(i)
    &&& new.pairs@ == old.pairs@.update(i, None)
    &&& forall|j: int| j != i ==> #[trigger] new.live(j) == old.live(j)
}

/// One record of a stash spill of home bucket `t` was undone, and the
/// primary slots of `t` and its neighbour are as they were.
pub open spec fn spill_undone(old: Seq<Bucket>, new: Seq<Bucket>, t: int) -> bool {
    &&& indicators(&new[t], &new[next_of(t)]) + 1 == indicators(&old[t], &old[next_of(t)])
        || (old[t].overflow_count == 0 && indicators(&new[t], &new[next_of(t)]) == indicators(&old[t], &old[next_of(t)]))
    &&& new[t].pairs@ == old[t].pairs@ && new[t].bitmap == old[t].bitmap
    &&& new[next_of(t)].pairs@ == old[next_of(t)].pairs@ && new[next_of(t)].bitmap == old[next_of(t)].bitmap
}

/// Delete of key `k` (fingerprint `mh`, home bucket `t`) emptied slot `i` of
/// bucket `c`, where a lookup finds it, and changed nothing else but, for a
/// stash slot, one record of the spill.
pub open spec fn deleted_at(old: Seq<Bucket>, new: Seq<Bucket>, t: int, c: int, i: int, k: KeyView, mh: u8) -> bool {
    &&& (c == t && old[c].matches(i, mh, k, false)) || (c == next_of(t) && old[c].matches(i, mh, k, true))
        || ((c == 64 || c == 65) && old[c].matches(i, mh, k, false))
    &&& freed(old[c], new[c], i)
    &&& c < 64 ==> forall|d: int| 0 <= d < 66 && d != c ==> same_content(#[trigger] new[d], old[d])
    &&& c >= 64 ==> spill_undone(old, new, t)
        && forall|d: int| 0 <= d < 66 && d != c && d != t && d != next_of(t) ==> same_content(#[trigger] new[d], old[d])
}

/// A segment's life-cycle state.
#[derive(Debug, Clone, Copy, PartialEq, Eq, Structural)]
pub enum TableState {
    Merging,
    Splitting,
    NewTable,
    Normal,
}

/// Errors of segment operations.
#[derive(Debug)]
pub enum TableError {
    TableFull,
    Internal,
    ItemDoesntExist,
    UnableToAcquireLock(String),
    KeyExists,
    UnableToInsertKey,
}

/// Errors of a segment split.
#[derive(Debug)]
pub enum SplitError {
    InternalError(String),
}

/// A segment: 64 primary buckets followed by 2 stash buckets, the number of
/// high hash bits it claims (`local_depth`) and their value (`pattern`).
pub struct Table {
    pub bucket: Vec<Bucket>,
    pub local_depth: usize,
    pub pattern: u64,
    pub number: i32,
    pub state: TableState,
}

/// Whether `p` has no more than `d` significant bits.
pub open spec fn pattern_fits(p: u64, d: usize) -> bool {
    d >= 64 || (p >> (d as u64)) == 0
}

/// Whether no bucket's writer lock is held.
pub open spec fn unlocked(bs: Seq<Bucket>) -> bool {
    forall|b: int| 0 <= b < bs.len() ==> !(#[trigger] bs[b]).locked()
}

/// `bs2` holds every lock that `bs` holds, and no other.
pub open spec fn same_locks(bs: Seq<Bucket>, bs2: Seq<Bucket>) -> bool {
    &&& bs.len() == bs2.len()
    &&& forall|b: int| 0 <= b < bs.len() ==> (#[trigger] bs2[b]).locked() == bs[b].locked()
}

impl Table {
    /// The invariant of a segment.
    pub open spec fn inv(&self) -> bool {
        &&& buckets_inv(self.bucket@, self.local_depth as int, self.pattern as int)
        &&& self.local_depth <= 64
        &&& pattern_fits(self.pattern, self.local_depth)
    }

    /// The key/value pairs the segment holds.
    pub open spec fn entries(&self) -> Set<(KeyView, Seq<u8>)> {
        entries(self.bucket@)
    }

    pub open spec fn contains_key(&self, k: KeyView) -> bool {
        holds_key(self.bucket@, k)
    }

    /// What an insert of a key with hash `h` asks of the caller: the hash is
    /// the key's, and the key belongs to this segment.
    pub open spec fn routes(&self, k: KeyView, h: u64, mh: u8) -> bool {
        &&& h == hash_of_key(k)
        &&& mh == fingerprint(h)
        &&& prefix(h, self.local_depth as int) == self.pattern as int
    }

    /// An empty segment responsible for `pattern`.
    pub fn new(pattern: u64) -> (r: Table)
        ensures
            forall|d: int, p: int| #[trigger] buckets_inv(r.bucket@, d, p),
            pattern == 0 ==> r.inv(),
            r.entries() == Set::<(KeyView, Seq<u8>)>::empty(),
            forall|k: KeyView| !r.contains_key(k),
            unlocked(r.bucket@),
            r.local_depth == 0,
            r.pattern == pattern,
            r.number == 0,
            occupied(r.bucket@) == 0,
    {
        let mut buckets: Vec<Bucket> = Vec::new();
        let mut i: usize = 0;
        while i < K_NUM_BUCKET + K_STASH_BUCKET
            invariant
                i <= 66,
                buckets@.len() == i,
                forall|j: int| 0 <= j < i ==> (#[trigger] buckets@[j]).wf() && !buckets@[j].locked()
                    && buckets@[j].overflow_count == 0 && buckets@[j].overflow_bitmap == 0
                    && buckets@[j].overflow_member == 0 && buckets@[j].occupancy() == 0
                    && forall|s: int| !#[trigger] buckets@[j].live(s),
            decreases 66 - i,
        {
            let b = Bucket::new();
            proof {
                assert(0u32 & 0x8000_0000u32 == 0) by (bit_vector);
            }
            buckets.push(b);
            i += 1;
        }
        let r = Table { bucket: buckets, local_depth: 0, pattern, number: 0, state: TableState::Normal };
        proof {
            let bs = r.bucket@;
            assert forall|h: int| 0 <= h < 64 implies #[trigger] stash_count(bs, h) == 0 by {
                assert forall|x: int| 0 <= x < 28 implies !stash_home(bs, x, h) by {
                    assert(!bs[stash_bucket_of(x)].live(stash_slot_of(x)));
                }
                lemma_count_zero(Seq::new(28, |x: int| stash_home(bs, x, h)));
            }
            assert forall|d: int, p: int| #[trigger] buckets_inv(bs, d, p) by {
                assert forall|b: int, s: int| 0 <= b < 66 implies #[trigger] placed(bs, d, p, b, s) by {
                    assert(!bs[b].live(s));
                }
                assert forall|h: int| 0 <= h < 64 implies #[trigger] stash_count(bs, h) <= indicators(&bs[h], &bs[next_of(h)]) by {
                    assert(stash_count(bs, h) == 0);
                }
            }
            assert(buckets_inv(bs, 0, pattern as int));
            assert(0u64 >> 0u64 == 0) by (bit_vector);
            assert forall|k: KeyView| !holds_key(bs, k) by {
                if holds_key(bs, k) {
                    let (c, s) = choose|c: int, s: int| 0 <= c < 66 && #[trigger] bs[c].live(s) && bs[c].key_at(s) == k;
                    assert(!bs[c].live(s));
                }
            }
            assert forall|e: (KeyView, Seq<u8>)| !#[trigger] entries(bs).contains(e) by {
                if holds(bs, e.0, e.1) {
                    let (c, s) = choose|c: int, s: int| 0 <= c < 66 && #[trigger] bs[c].live(s) && bs[c].key_at(s) == e.0 && bs[c].value_at(s) == e.1;
                    assert(!bs[c].live(s));
                }
            }
            assert(entries(bs) =~= Set::<(KeyView, Seq<u8>)>::empty());
            lemma_occ_zero(bs, 66);
        }
        r
    }

    /// Takes the writer lock of bucket `i` if it is free.
    fn try_lock_at(&mut self, i: usize) -> (r: bool)
        requires
            old(self).inv(),
            i < 66,
        ensures
            final(self).inv(),
            final(self).local_depth == old(self).local_depth,
            final(self).pattern == old(self).pattern,
            final(self).number == old(self).number,
            final(self).state == old(self).state,
            final(self).entries() == old(self).entries(),
            forall|k: KeyView| final(self).contains_key(k) == old(self).contains_key(k),
            final(self).bucket@.len() == 66,
            r == !old(self).bucket@[i as int].locked(),
            final(self).bucket@[i as int].locked(),
            forall|j: int| 0 <= j < 66 ==> same_content(#[trigger] final(self).bucket@[j], old(self).bucket@[j]),
            forall|j: int| 0 <= j < 66 && j != i ==> #[trigger] final(self).bucket@[j] == old(self).bucket@[j],
    {
        let r = self.bucket[i].try_get_lock();
        proof {
            lemma_same_content(old(self).bucket@, self.bucket@, self.local_depth as int, self.pattern as int);
        }
        r
    }

    /// Releases the writer lock of bucket `i`.
    fn unlock_at(&mut self, i: usize)
        requires
            old(self).inv(),
            i < 66,
        ensures
            final(self).inv(),
            final(self).local_depth == old(self).local_depth,
            final(self).pattern == old(self).pattern,
            final(self).number == old(self).number,
            final(self).state == old(self).state,
            final(self).entries() == old(self).entries(),
            forall|k: KeyView| final(self).contains_key(k) == old(self).contains_key(k),
            final(self).bucket@.len() == 66,
            !final(self).bucket@[i as int].locked(),
            forall|j: int| 0 <= j < 66 ==> same_content(#[trigger] final(self).bucket@[j], old(self).bucket@[j]),
            forall|j: int| 0 <= j < 66 && j != i ==> #[trigger] final(self).bucket@[j] == old(self).bucket@[j],
    {
        self.bucket[i].release_lock();
        proof {
            lemma_same_content(old(self).bucket@, self.bucket@, self.local_depth as int, self.pattern as int);
        }
    }

    /// Takes every primary bucket's writer lock, in ascending order.
    pub fn acquire_locks(&mut self)
        requires
            old(self).inv(),
            forall|b: int| 0 <= b < 64 ==> !(#[trigger] old(self).bucket@[b]).locked(),
        ensures
            final(self).inv(),
            final(self).local_depth == old(self).local_depth,
            final(self).pattern == old(self).pattern,
            final(self).entries() == old(self).entries(),
            final(self).number == old(self).number,
            forall|b: int| 0 <= b < 66 ==> (#[trigger] final(self).bucket@[b]).bitmap == old(self).bucket@[b].bitmap,
            forall|k: KeyView| #[trigger] final(self).contains_key(k) == old(self).contains_key(k),
            forall|b: int| 0 <= b < 64 ==> (#[trigger] final(self).bucket@[b]).locked(),
            forall|b: int| 64 <= b < 66 ==> (#[trigger] final(self).bucket@[b]).locked() == old(self).bucket@[b].locked(),
    {
        let mut i: usize = 0;
        while i < K_NUM_BUCKET
            invariant
                self.inv(),
                i <= 64,
                self.local_depth == old(self).local_depth,
                self.pattern == old(self).pattern,
                self.entries() == old(self).entries(),
                self.number == old(self).number,
                forall|b: int| 0 <= b < 66 ==> (#[trigger] self.bucket@[b]).bitmap == old(self).bucket@[b].bitmap,
                forall|k: KeyView| #[trigger] self.contains_key(k) == old(self).contains_key(k),
                self.bucket@.len() == 66,
                forall|b: int| 0 <= b < i ==> (#[trigger] self.bucket@[b]).locked(),
                forall|b: int| i <= b < 66 ==> (#[trigger] self.bucket@[b]) == old(self).bucket@[b],
            decreases 64 - i,
        {
            let _ = self.try_lock_at(i);
            i += 1;
        }
    }

    /// Releases every primary bucket's writer lock.
    pub fn release_locks(&mut self)
        requires
            old(self).inv(),
        ensures
            final(self).inv(),
            final(self).local_depth == old(self).local_depth,
            final(self).pattern == old(self).pattern,
            final(self).entries() == old(self).entries(),
            final(self).number == old(self).number,
            forall|b: int| 0 <= b < 66 ==> (#[trigger] final(self).bucket@[b]).bitmap == old(self).bucket@[b].bitmap,
            forall|k: KeyView| #[trigger] final(self).contains_key(k) == old(self).contains_key(k),
            forall|b: int| 0 <= b < 64 ==> !(#[trigger] final(self).bucket@[b]).locked(),
            forall|b: int| 64 <= b < 66 ==> (#[trigger] final(self).bucket@[b]).locked() == old(self).bucket@[b].locked(),
    {
        let mut i: usize = 0;
        while i < K_NUM_BUCKET
            invariant
                self.inv(),
                i <= 64,
                self.local_depth == old(self).local_depth,
                self.pattern == old(self).pattern,
                self.entries() == old(self).entries(),
                self.number == old(self).number,
                forall|b: int| 0 <= b < 66 ==> (#[trigger] self.bucket@[b]).bitmap == old(self).bucket@[b].bitmap,
                forall|k: KeyView| #[trigger] self.contains_key(k) == old(self).contains_key(k),
                self.bucket@.len() == 66,
                forall|b: int| 0 <= b < i ==> !(#[trigger] self.bucket@[b]).locked(),
                forall|b: int| i <= b < 66 ==> (#[trigger] self.bucket@[b]) == old(self).bucket@[b],
            decreases 64 - i,
        {
            self.unlock_at(i);
            i += 1;
        }
    }
}

/// The right neighbour of primary bucket `b`.
fn next_index(b: usize) -> (r: usize)
    requires
        b < 64,
    ensures
        r == next_of(b as int),
{
    if b + 1 == K_NUM_BUCKET { 0 } else { b + 1 }
}

/// The left neighbour of primary bucket `b`.
fn prev_index(b: usize) -> (r: usize)
    requires
        b < 64,
    ensures
        r == (b + 63) % 64,
{
    if b == 0 { K_NUM_BUCKET - 1 } else { b - 1 }
}

impl Table {
    /// Takes bucket `i` out of the segment, leaving an empty one in its place.
    fn take_at(&mut self, i: usize) -> (r: Bucket)
        requires
            i < old(self).bucket@.len(),
        ensures
            r == old(self).bucket@[i as int],
            final(self).bucket@.len() == old(self).bucket@.len(),
            forall|j: int| 0 <= j < old(self).bucket@.len() && j != i ==> #[trigger] final(self).bucket@[j] == old(self).bucket@[j],
            final(self).local_depth == old(self).local_depth,
            final(self).pattern == old(self).pattern,
            final(self).number == old(self).number,
            final(self).state == old(self).state,
    {
        let mut tmp = Bucket::new();
        std::mem::swap(&mut tmp, &mut self.bucket[i]);
        tmp
    }

    /// Looks `key` up where its hash routes it: the home bucket, its right
    /// neighbour and, when either carries the stash-check hint, the stash.
    pub fn search(&self, key: &Key, key_hash: u64, meta_hash: u8) -> (r: Option<ValueT>)
        requires
            self.inv(),
            key.wf(),
            key_hash == hash_of_key(key@),
            meta_hash == fingerprint(key_hash),
        ensures
            r is Some <==> self.contains_key(key@),
            r is Some ==> holds(self.bucket@, key@, r->Some_0@),
    {
        let b = bucket_index(key_hash, K_FINGER_BITS, BUCKET_MASK);
        let n = next_index(b);
        proof {
            lemma_locate(self.bucket@, self.local_depth as int, self.pattern as int, key@);
        }
        let mut value: ValueT = Vec::new();
        if self.bucket[b].check_and_get(meta_hash, key, false, &mut value) {
            proof {
                let s = choose|s: int| self.bucket@[b as int].matches(s, meta_hash, key@, false) && value@ == self.bucket@[b as int].value_at(s);
                assert(self.bucket@[b as int].live(s));
            }
            return Some(value);
        }
        if self.bucket[n].check_and_get(meta_hash, key, true, &mut value) {
            proof {
                let s = choose|s: int| self.bucket@[n as int].matches(s, meta_hash, key@, true) && value@ == self.bucket@[n as int].value_at(s);
                assert(self.bucket@[n as int].live(s));
            }
            return Some(value);
        }
        if self.bucket[b].test_stash_check() || self.bucket[n].test_stash_check() {
            let mut i: usize = K_NUM_BUCKET;
            while i < K_NUM_BUCKET + K_STASH_BUCKET
                invariant
                    self.inv(),
                    key.wf(),
                    64 <= i <= 66,
                    forall|j: int| 64 <= j < i ==> !(#[trigger] self.bucket@[j]).has_match(meta_hash, key@, false),
                decreases 66 - i,
            {
                if self.bucket[i].check_and_get(meta_hash, key, false, &mut value) {
                    proof {
                        let s = choose|s: int| self.bucket@[i as int].matches(s, meta_hash, key@, false) && value@ == self.bucket@[i as int].value_at(s);
                        assert(self.bucket@[i as int].live(s));
                    }
                    return Some(value);
                }
                i += 1;
            }
        }
        None
    }

    /// Moves an owned entry of `target` to `neighbor`, where it becomes a
    /// hosted entry, and puts the new pair, hosted, in the slot it left.
    fn next_displace(target: &mut Bucket, neighbor: &mut Bucket, key: Key, value: ValueT, meta_hash: u8) -> (r: bool)
        requires
            old(target).wf(),
            old(neighbor).wf(),
            key.wf(),
        ensures
            final(target).wf(),
            final(neighbor).wf(),
            r == (!old(neighbor).is_full() && exists|j: int| 0 <= j < 14 && #[trigger] old(target).live(j) && !old(target).probed(j)),
            !r ==> *final(target) == *old(target) && *final(neighbor) == *old(neighbor),
            r ==> exists|idx: int, j: int, mid: Bucket| {
                &&& old(target).live(idx)
                &&& !old(target).probed(idx)
                &&& forall|j: int| 0 <= j < idx ==> !(#[trigger] old(target).live(j) && !old(target).probed(j))
                &&& mid.wf()
                &&& Bucket::removed_slot(old(target), &mid, idx)
                &&& Bucket::added_slot(old(neighbor), final(neighbor), j, old(target).pairs@[idx]->Some_0, old(target).finger_array@[idx], true)
                &&& Bucket::added_slot(&mid, final(target), idx, Pair { key, value }, meta_hash, true)
            },
    {
        let displace_index = target.find_org_displacement();
        if get_count(neighbor.bitmap) != 14 && displace_index != -1 {
            let idx = displace_index as usize;
            let fp = target.finger_array[idx];
            let moved = target.take_slot(idx);
            let ghost mid = *target;
            let res = neighbor.insert(moved.key, moved.value, fp, true);
            match res {
                Ok(j) => {
                    target.insert_displace(key, value, meta_hash, displace_index, true);
                    assert(old(target).live(idx as int) && !old(target).probed(idx as int));
                    return true;
                },
                Err(_) => {
                    assert(false);
                    return false;
                },
            }
        }
        false
    }

    /// Moves a hosted entry of `target` back to `prev_neighbor`, where it is
    /// owned, and puts the new pair, owned, in the slot it left.
    pub fn prev_displace(target: &mut Bucket, prev_neighbor: &mut Bucket, key: Key, value: ValueT, meta_hash: u8) -> (r: bool)
        requires
            old(target).wf(),
            old(prev_neighbor).wf(),
            key.wf(),
        ensures
            final(target).wf(),
            final(prev_neighbor).wf(),
            r == (!old(prev_neighbor).is_full() && exists|j: int| 0 <= j < 14 && #[trigger] old(target).probed(j)),
            !r ==> *final(target) == *old(target) && *final(prev_neighbor) == *old(prev_neighbor),
            r ==> exists|idx: int, j: int, mid: Bucket| {
                &&& old(target).live(idx)
                &&& old(target).probed(idx)
                &&& forall|j: int| 0 <= j < idx ==> !#[trigger] old(target).probed(j)
                &&& mid.wf()
                &&& Bucket::removed_slot(old(target), &mid, idx)
                &&& Bucket::added_slot(old(prev_neighbor), final(prev_neighbor), j, old(target).pairs@[idx]->Some_0, old(target).finger_array@[idx], false)
                &&& Bucket::added_slot(&mid, final(target), idx, Pair { key, value }, meta_hash, false)
            },
    {
        let displace_index = target.find_probe_displacement();
        if get_count(prev_neighbor.bitmap) != 14 && displace_index != -1 {
            let idx = displace_index as usize;
            let fp = target.finger_array[idx];
            let moved = target.take_slot(idx);
            let ghost mid = *target;
            let res = prev_neighbor.insert(moved.key, moved.value, fp, false);
            match res {
                Ok(j) => {
                    target.insert_displace(key, value, meta_hash, displace_index, false);
                    assert(old(target).live(idx as int) && old(target).probed(idx as int));
                    return true;
                },
                Err(_) => {
                    assert(false);
                    return false;
                },
            }
        }
        false
    }
}

impl Table {
    /// Makes room in the right neighbour `n` of the home bucket by moving
    /// one of its owned entries on to the next bucket, and places the pair
    /// there. `None` when the next bucket's lock is held.
    fn displace_next(&mut self, b: usize, key: &Key, value: &ValueT, key_hash: u64, meta_hash: u8) -> (r: Option<bool>)
        requires
            old(self).inv(),
            key.wf(),
            old(self).routes(key@, key_hash, meta_hash),
            b == home_bucket(key_hash),
            b < 64,
            !old(self).contains_key(key@),
        ensures
            final(self).inv(),
            final(self).local_depth == old(self).local_depth,
            final(self).pattern == old(self).pattern,
            final(self).number == old(self).number,
            same_locks(old(self).bucket@, final(self).bucket@),
            r is None <==> old(self).bucket@[next_of(next_of(b as int))].locked(),
            r is Some ==> (r == Some(true) <==> (!old(self).bucket@[next_of(next_of(b as int))].is_full()
                && exists|j: int| 0 <= j < 14 && #[trigger] old(self).bucket@[next_of(b as int)].live(j) && !old(self).bucket@[next_of(b as int)].probed(j))),
            r != Some(true) ==> forall|j: int| 0 <= j < 66 ==> same_content(#[trigger] final(self).bucket@[j], old(self).bucket@[j]),
            r == Some(true) ==> lands(final(self).bucket@, next_of(b as int), key@, value@, meta_hash, true),
            r == Some(true) ==> forall|i: int| #[trigger] old(self).bucket@[next_of(b as int)].live(i) && !old(self).bucket@[next_of(b as int)].probed(i)
                && (forall|j: int| 0 <= j < i ==> !(old(self).bucket@[next_of(b as int)].live(j) && !old(self).bucket@[next_of(b as int)].probed(j)))
                ==> lands(final(self).bucket@, next_of(next_of(b as int)), old(self).bucket@[next_of(b as int)].key_at(i),
                    old(self).bucket@[next_of(b as int)].value_at(i), old(self).bucket@[next_of(b as int)].finger_array@[i], true),
            r == Some(true) ==> final(self).entries() == old(self).entries().insert((key@, value@)),
            r != Some(true) ==> final(self).entries() == old(self).entries()
                && forall|k: KeyView| final(self).contains_key(k) == old(self).contains_key(k),
            r == Some(true) ==> occupied(final(self).bucket@) == occupied(old(self).bucket@) + 1,
    {
        let n = next_index(b);
        let nn = next_index(n);
        if !self.try_lock_at(nn) {
            return None;
        }
        let ghost bs1 = self.bucket@;
        let k2 = key.duplicate();
        let v2 = copy_bytes(value);
        let ghost p = Pair { key: k2, value: v2 };
        let ghost mut wit: (int, int) = (0, 0);
        let mut nnb = self.take_at(nn);
        let ok = Self::next_displace(&mut self.bucket[n], &mut nnb, k2, v2, meta_hash);
        self.bucket.set(nn, nnb);
        proof {
            let (d, pt) = (self.local_depth as int, self.pattern as int);
            if ok {
                let (idx, j, mid) = choose|idx: int, j: int, mid: Bucket| {
                    &&& bs1[n as int].live(idx)
                    &&& !bs1[n as int].probed(idx)
                    &&& mid.wf()
                    &&& Bucket::removed_slot(&bs1[n as int], &mid, idx)
                    &&& Bucket::added_slot(&bs1[nn as int], &self.bucket@[nn as int], j, bs1[n as int].pairs@[idx]->Some_0, bs1[n as int].finger_array@[idx], true)
                    &&& Bucket::added_slot(&mid, &self.bucket@[n as int], idx, p, meta_hash, true)
                };
                wit = (idx, j);
                let moved = bs1[n as int].pairs@[idx]->Some_0;
                assert(bs1[n as int].wf());
                assert(placed(bs1, d, pt, n as int, idx));
                assert(moved.key.wf());
                lemma_remove_primary(bs1, d, pt, n as int, mid, idx);
                let bs_a = bs1.update(n as int, mid);
                assert(holds(bs1, moved.key@, moved.value@)) by {
                    assert(bs1[n as int].live(idx));
                }
                lemma_add_primary(bs_a, d, pt, nn as int, self.bucket@[nn as int], j, moved, true);
                let bs_b = bs_a.update(nn as int, self.bucket@[nn as int]);
                assert(moved.key@ != key@);
                lemma_add_primary(bs_b, d, pt, n as int, self.bucket@[n as int], idx, p, true);
                assert(bs_a[nn as int] == bs1[nn as int]);
                assert(bs_b[n as int] == mid);
                assert(count_field(mid.bitmap) + 1 == count_field(bs1[n as int].bitmap));
                assert(count_field(self.bucket@[nn as int].bitmap) == count_field(bs1[nn as int].bitmap) + 1);
                assert(count_field(self.bucket@[n as int].bitmap) == count_field(mid.bitmap) + 1);
                assert(forall|c: int| 0 <= c < 66 ==> (#[trigger] old(self).bucket@[c]).bitmap == bs1[c].bitmap);
                lemma_occ_update(bs1, n as int, mid, 66);
                lemma_occ_update(bs_a, nn as int, self.bucket@[nn as int], 66);
                lemma_occ_update(bs_b, n as int, self.bucket@[n as int], 66);
                lemma_occ_same(old(self).bucket@, bs1, 66);
                assert(self.bucket@ =~= bs_b.update(n as int, self.bucket@[n as int]));
                assert(occupied(self.bucket@) == occupied(old(self).bucket@) + 1);
                assert(bs1[nn as int].wf());
                assert(self.bucket@[nn as int].live(j));
                assert(self.bucket@[nn as int].pairs@[j] == Some(moved));
                assert(self.bucket@[nn as int].probed(j));
                assert(self.bucket@[nn as int].finger_array@[j] == bs1[n as int].finger_array@[idx]);
                assert(lands(self.bucket@, nn as int, bs1[n as int].key_at(idx), bs1[n as int].value_at(idx), bs1[n as int].finger_array@[idx], true));
                let bs_c = bs_b.update(n as int, self.bucket@[n as int]);
                assert(self.bucket@ =~= bs_c);
                assert(entries(bs_c) =~= entries(bs1).insert((key@, value@)));
                lemma_same_content(old(self).bucket@, bs1, d, pt);
            } else {
                assert(self.bucket@ =~= bs1);
            }
        }
        let ghost pre = self.bucket@;
        self.unlock_at(nn);
        proof {
            if ok {
                lemma_occ_same(pre, self.bucket@, 66);
                let (idx, j) = wit;
                let o = old(self).bucket@[n as int];
                assert(bs1[n as int].bitmap == o.bitmap && bs1[n as int].pairs@ == o.pairs@ && bs1[n as int].finger_array == o.finger_array);
                assert forall|i: int| #[trigger] o.live(i) && !o.probed(i) && (forall|jj: int| 0 <= jj < i ==> !(o.live(jj) && !o.probed(jj)))
                    implies lands(self.bucket@, nn as int, o.key_at(i), o.value_at(i), o.finger_array@[i], true) by {
                    if i < idx {
                        assert(!(bs1[n as int].live(i) && !bs1[n as int].probed(i)));
                    }
                    if idx < i {
                        assert(!(o.live(idx) && !o.probed(idx)));
                    }
                    assert(i == idx);
                    lemma_lands_same(pre, self.bucket@, nn as int, o.key_at(i), o.value_at(i), o.finger_array@[i], true);
                }
            }
        }
        Some(ok)
    }
}

impl Table {
    /// Makes room in the home bucket `b` by moving one of its hosted entries
    /// back to the previous bucket, and places the pair there. `None` when the
    /// previous bucket's lock is held.
    fn displace_prev(&mut self, b: usize, key: &Key, value: &ValueT, key_hash: u64, meta_hash: u8) -> (r: Option<bool>)
        requires
            old(self).inv(),
            key.wf(),
            old(self).routes(key@, key_hash, meta_hash),
            b == home_bucket(key_hash),
            b < 64,
            !old(self).contains_key(key@),
        ensures
            final(self).inv(),
            final(self).local_depth == old(self).local_depth,
            final(self).pattern == old(self).pattern,
            final(self).number == old(self).number,
            same_locks(old(self).bucket@, final(self).bucket@),
            r is None <==> old(self).bucket@[(b + 63) % 64].locked(),
            r is Some ==> (r == Some(true) <==> (!old(self).bucket@[(b + 63) % 64].is_full()
                && exists|j: int| 0 <= j < 14 && #[trigger] old(self).bucket@[b as int].probed(j))),
            r != Some(true) ==> forall|j: int| 0 <= j < 66 ==> same_content(#[trigger] final(self).bucket@[j], old(self).bucket@[j]),
            r == Some(true) ==> lands(final(self).bucket@, b as int, key@, value@, meta_hash, false),
            r == Some(true) ==> forall|i: int| #[trigger] old(self).bucket@[b as int].probed(i)
                && (forall|j: int| 0 <= j < i ==> !old(self).bucket@[b as int].probed(j))
                ==> lands(final(self).bucket@, (b + 63) % 64, old(self).bucket@[b as int].key_at(i),
                    old(self).bucket@[b as int].value_at(i), old(self).bucket@[b as int].finger_array@[i], false),
            r == Some(true) ==> final(self).entries() == old(self).entries().insert((key@, value@)),
            r != Some(true) ==> final(self).entries() == old(self).entries()
                && forall|k: KeyView| final(self).contains_key(k) == old(self).contains_key(k),
            r == Some(true) ==> occupied(final(self).bucket@) == occupied(old(self).bucket@) + 1,
    {
        let pv = prev_index(b);
        if !self.try_lock_at(pv) {
            return None;
        }
        let ghost bs1 = self.bucket@;
        let k2 = key.duplicate();
        let v2 = copy_bytes(value);
        let ghost p = Pair { key: k2, value: v2 };
        let ghost mut wit: (int, int) = (0, 0);
        let mut pb = self.take_at(pv);
        let ok = Self::prev_displace(&mut self.bucket[b], &mut pb, k2, v2, meta_hash);
        self.bucket.set(pv, pb);
        proof {
            let (d, pt) = (self.local_depth as int, self.pattern as int);
            if ok {
                let (idx, j, mid) = choose|idx: int, j: int, mid: Bucket| {
                    &&& bs1[b as int].live(idx)
                    &&& bs1[b as int].probed(idx)
                    &&& mid.wf()
                    &&& Bucket::removed_slot(&bs1[b as int], &mid, idx)
                    &&& Bucket::added_slot(&bs1[pv as int], &self.bucket@[pv as int], j, bs1[b as int].pairs@[idx]->Some_0, bs1[b as int].finger_array@[idx], false)
                    &&& Bucket::added_slot(&mid, &self.bucket@[b as int], idx, p, meta_hash, false)
                };
                wit = (idx, j);
                let moved = bs1[b as int].pairs@[idx]->Some_0;
                assert(bs1[b as int].wf());
                assert(placed(bs1, d, pt, b as int, idx));
                assert(moved.key.wf());
                lemma_remove_primary(bs1, d, pt, b as int, mid, idx);
                let bs_a = bs1.update(b as int, mid);
                assert(holds(bs1, moved.key@, moved.value@)) by {
                    assert(bs1[b as int].live(idx));
                }
                lemma_add_primary(bs_a, d, pt, pv as int, self.bucket@[pv as int], j, moved, false);
                let bs_b = bs_a.update(pv as int, self.bucket@[pv as int]);
                assert(moved.key@ != key@);
                lemma_add_primary(bs_b, d, pt, b as int, self.bucket@[b as int], idx, p, false);
                assert(bs_a[pv as int] == bs1[pv as int]);
                assert(bs_b[b as int] == mid);
                assert(count_field(mid.bitmap) + 1 == count_field(bs1[b as int].bitmap));
                assert(count_field(self.bucket@[pv as int].bitmap) == count_field(bs1[pv as int].bitmap) + 1);
                assert(count_field(self.bucket@[b as int].bitmap) == count_field(mid.bitmap) + 1);
                assert(forall|c: int| 0 <= c < 66 ==> (#[trigger] old(self).bucket@[c]).bitmap == bs1[c].bitmap);
                lemma_occ_update(bs1, b as int, mid, 66);
                lemma_occ_update(bs_a, pv as int, self.bucket@[pv as int], 66);
                lemma_occ_update(bs_b, b as int, self.bucket@[b as int], 66);
                lemma_occ_same(old(self).bucket@, bs1, 66);
                assert(self.bucket@ =~= bs_b.update(b as int, self.bucket@[b as int]));
                assert(occupied(self.bucket@) == occupied(old(self).bucket@) + 1);
                assert(bs1[pv as int].wf());
                assert(self.bucket@[pv as int].live(j));
                assert(self.bucket@[pv as int].pairs@[j] == Some(moved));
                assert(!self.bucket@[pv as int].probed(j));
                assert(self.bucket@[pv as int].finger_array@[j] == bs1[b as int].finger_array@[idx]);
                assert(lands(self.bucket@, pv as int, bs1[b as int].key_at(idx), bs1[b as int].value_at(idx), bs1[b as int].finger_array@[idx], false));
                let bs_c = bs_b.update(b as int, self.bucket@[b as int]);
                assert(self.bucket@ =~= bs_c);
                assert(entries(bs_c) =~= entries(bs1).insert((key@, value@)));
                lemma_same_content(old(self).bucket@, bs1, d, pt);
            } else {
                assert(self.bucket@ =~= bs1);
            }
        }
        let ghost pre = self.bucket@;
        self.unlock_at(pv);
        proof {
            if ok {
                lemma_occ_same(pre, self.bucket@, 66);
                let (idx, j) = wit;
                let o = old(self).bucket@[b as int];
                assert(bs1[b as int].bitmap == o.bitmap && bs1[b as int].pairs@ == o.pairs@ && bs1[b as int].finger_array == o.finger_array);
                assert forall|i: int| #[trigger] o.probed(i) && (forall|jj: int| 0 <= jj < i ==> !o.probed(jj))
                    implies lands(self.bucket@, (b + 63) % 64, o.key_at(i), o.value_at(i), o.finger_array@[i], false) by {
                    if i < idx {
                        assert(!bs1[b as int].probed(i));
                    }
                    if idx < i {
                        assert(!o.probed(idx));
                    }
                    assert(i == idx);
                    lemma_lands_same(pre, self.bucket@, pv as int, o.key_at(i), o.value_at(i), o.finger_array@[i], false);
                }
            }
        }
        Some(ok)
    }

    /// Places the pair in the first stash bucket with room and records the
    /// spill at the home bucket `b`. `None` when the first stash bucket's lock
    /// is held.
    fn place_in_stash(&mut self, b: usize, key: Key, value: ValueT, key_hash: u64, meta_hash: u8) -> (r: Option<bool>)
        requires
            old(self).inv(),
            key.wf(),
            old(self).routes(key@, key_hash, meta_hash),
            b == home_bucket(key_hash),
            b < 64,
            !old(self).contains_key(key@),
        ensures
            final(self).inv(),
            final(self).local_depth == old(self).local_depth,
            final(self).pattern == old(self).pattern,
            final(self).number == old(self).number,
            same_locks(old(self).bucket@, final(self).bucket@),
            r is None <==> old(self).bucket@[64].locked(),
            r is Some ==> (r == Some(true) <==> !(old(self).bucket@[64].is_full() && old(self).bucket@[65].is_full())),
            r != Some(true) ==> forall|j: int| 0 <= j < 66 ==> same_content(#[trigger] final(self).bucket@[j], old(self).bucket@[j]),
            r == Some(true) ==> lands(final(self).bucket@, if old(self).bucket@[64].is_full() { 65 } else { 64 }, key@, value@, meta_hash, false),
            r == Some(true) ==> final(self).bucket@[b as int].stash_hint(),
            r == Some(true) ==> indicators(&final(self).bucket@[b as int], &final(self).bucket@[next_of(b as int)])
                == indicators(&old(self).bucket@[b as int], &old(self).bucket@[next_of(b as int)]) + 1
                || (old(self).bucket@[b as int].overflow_count == 255 && indicators(&final(self).bucket@[b as int], &final(self).bucket@[next_of(b as int)])
                    == indicators(&old(self).bucket@[b as int], &old(self).bucket@[next_of(b as int)])),
            r == Some(true) ==> final(self).entries() == old(self).entries().insert((key@, value@)),
            r != Some(true) ==> final(self).entries() == old(self).entries()
                && forall|k: KeyView| final(self).contains_key(k) == old(self).contains_key(k),
            r == Some(true) ==> occupied(final(self).bucket@) == occupied(old(self).bucket@) + 1,
    {
        let n = next_index(b);
        if !self.try_lock_at(K_NUM_BUCKET) {
            return None;
        }
        let ghost bs1 = self.bucket@;
        let ghost p = Pair { key, value };
        let ghost mut wit: int = 64;
        let mut tb = self.take_at(b);
        let mut nb = self.take_at(n);
        let ghost bsm = self.bucket@;
        let ok = stash_insert(&mut self.bucket, &mut tb, &mut nb, key, value, meta_hash);
        let ghost bsa = self.bucket@;
        let ghost tb2 = tb;
        let ghost nb2 = nb;
        self.bucket.set(b, tb);
        self.bucket.set(n, nb);
        proof {
            let (d, pt) = (self.local_depth as int, self.pattern as int);
            assert(bs1[b as int].wf() && bs1[n as int].wf() && bs1[64].wf() && bs1[65].wf());
            assert(bsm[64] == bs1[64] && bsm[65] == bs1[65]);
            if ok {
                let (sb, i) = choose|sb: int, i: int| {
                    &&& (sb == 64 || sb == 65)
                    &&& (sb == 65 ==> bsm[64].is_full())
                    &&& bsa == bsm.update(sb, bsa[sb])
                    &&& bsa[sb].wf()
                    &&& Bucket::added_slot(&bsm[sb], &bsa[sb], i, p, meta_hash, false)
                    &&& indicator_added(&bs1[b as int], &bs1[n as int], &tb2, &nb2)
                };
                assert(self.bucket@[sb] == bsa[sb]);
                lemma_add_stash(bs1, d, pt, sb, self.bucket@[sb], i, p, b as int, self.bucket@[b as int], self.bucket@[n as int]);
                assert(self.bucket@[sb].live(i));
                assert(lands(self.bucket@, sb, key@, value@, meta_hash, false));
                let bsa1 = bs1.update(sb, self.bucket@[sb]);
                let bsa2 = bsa1.update(b as int, self.bucket@[b as int]);
                assert(bsa1[b as int] == bs1[b as int] && bsa2[n as int] == bs1[n as int]);
                assert(count_field(self.bucket@[sb].bitmap) == count_field(bs1[sb].bitmap) + 1);
                assert(self.bucket@[b as int].bitmap == bs1[b as int].bitmap);
                assert(self.bucket@[n as int].bitmap == bs1[n as int].bitmap);
                assert(forall|c: int| 0 <= c < 66 ==> (#[trigger] old(self).bucket@[c]).bitmap == bs1[c].bitmap);
                lemma_occ_update(bs1, sb, self.bucket@[sb], 66);
                lemma_occ_update(bsa1, b as int, self.bucket@[b as int], 66);
                lemma_occ_update(bsa2, n as int, self.bucket@[n as int], 66);
                lemma_occ_same(old(self).bucket@, bs1, 66);
                assert(self.bucket@ =~= bsa2.update(n as int, self.bucket@[n as int]));
                assert(occupied(self.bucket@) == occupied(old(self).bucket@) + 1);
                wit = sb;
                assert(self.bucket@ =~= bs1.update(sb, self.bucket@[sb]).update(b as int, self.bucket@[b as int]).update(n as int, self.bucket@[n as int]));
                lemma_same_content(old(self).bucket@, bs1, d, pt);
            } else {
                assert(self.bucket@ =~= bs1);
            }
        }
        let ghost pre = self.bucket@;
        self.unlock_at(K_NUM_BUCKET);
        proof {
            if ok {
                lemma_occ_same(pre, self.bucket@, 66);
                lemma_lands_same(pre, self.bucket@, wit, key@, value@, meta_hash, false);
            }
        }
        Some(ok)
    }
}

/// The bucket `insert` would use for a key with hash `h`: true for the home
/// bucket, false for its right neighbour.
pub open spec fn prefers_home(bs: Seq<Bucket>, h: u64) -> bool {
    bs[home_bucket(h)].occupancy() <= bs[next_of(home_bucket(h))].occupancy()
}

/// What an insert of a new key with hash `h` does on a segment whose locks
/// are free: 0 or 1, the less occupied of the home bucket and its neighbour;
/// 2, displacement to the next bucket; 3, displacement to the previous one;
/// 4, the stash; -1, the segment is full.
pub open spec fn insert_code(bs: Seq<Bucket>, h: u64) -> int {
    let t = home_bucket(h);
    let n = next_of(t);
    if !(bs[t].is_full() && bs[n].is_full()) {
        if prefers_home(bs, h) { 0 } else { 1 }
    } else if !bs[next_of(n)].is_full() && exists|j: int| 0 <= j < 14 && #[trigger] bs[n].live(j) && !bs[n].probed(j) {
        2
    } else if !bs[(t + 63) % 64].is_full() && exists|j: int| 0 <= j < 14 && #[trigger] bs[t].probed(j) {
        3
    } else if !(bs[64].is_full() && bs[65].is_full()) {
        4
    } else {
        -1
    }
}

/// Where an insert that reported `code` put the pair `(k, v)` with hash `h`,
/// and what it moved to make room, from segment buckets `old` to `new`.
pub open spec fn landed(old: Seq<Bucket>, new: Seq<Bucket>, h: u64, k: KeyView, v: Seq<u8>, mh: u8, code: int) -> bool {
    let t = home_bucket(h);
    let n = next_of(t);
    &&& code == 0 ==> lands(new, t, k, v, mh, false)
    &&& code == 1 ==> lands(new, n, k, v, mh, true)
    &&& code == 2 ==> lands(new, n, k, v, mh, true) && forall|i: int| #[trigger] old[n].live(i) && !old[n].probed(i)
            && (forall|j: int| 0 <= j < i ==> !(old[n].live(j) && !old[n].probed(j)))
            ==> lands(new, next_of(n), old[n].key_at(i), old[n].value_at(i), old[n].finger_array@[i], true)
    &&& code == 3 ==> lands(new, t, k, v, mh, false) && forall|i: int| #[trigger] old[t].probed(i)
            && (forall|j: int| 0 <= j < i ==> !old[t].probed(j))
            ==> lands(new, (t + 63) % 64, old[t].key_at(i), old[t].value_at(i), old[t].finger_array@[i], false)
    &&& code == 4 ==> lands(new, if old[64].is_full() { 65 } else { 64 }, k, v, mh, false) && new[t].stash_hint()
            && (indicators(&new[t], &new[n]) == indicators(&old[t], &old[n]) + 1
                || (old[t].overflow_count == 255 && indicators(&new[t], &new[n]) == indicators(&old[t], &old[n])))
}

/// Insert outcomes depend on bucket content alone.
pub proof fn lemma_insert_same(old: Seq<Bucket>, old2: Seq<Bucket>, new: Seq<Bucket>, new2: Seq<Bucket>, h: u64, k: KeyView, v: Seq<u8>, mh: u8, code: int)
    requires
        old.len() == 66,
        old2.len() == 66,
        new.len() == 66,
        new2.len() == 66,
        forall|b: int| 0 <= b < 66 ==> same_content(#[trigger] old[b], old2[b]),
        forall|b: int| 0 <= b < 66 ==> same_content(#[trigger] new[b], new2[b]),
        landed(old2, new, h, k, v, mh, code),
    ensures
        landed(old, new2, h, k, v, mh, code),
        insert_code(old, h) == insert_code(old2, h),
{
    let t = home_bucket(h);
    lemma_home_bound(h);
    let n = next_of(t);
    let nn = next_of(n);
    let p = (t + 63) % 64;
    assert(same_content(old[t], old2[t]) && same_content(old[n], old2[n]) && same_content(old[nn], old2[nn]) && same_content(old[p], old2[p]));
    assert(same_content(old[64], old2[64]) && same_content(old[65], old2[65]));
    assert(same_content(new[t], new2[t]) && same_content(new[n], new2[n]) && same_content(new[nn], new2[nn]) && same_content(new[p], new2[p]));
    assert(same_content(new[64], new2[64]) && same_content(new[65], new2[65]));
    if code == 0 {
        lemma_lands_same(new, new2, t, k, v, mh, false);
    } else if code == 1 {
        lemma_lands_same(new, new2, n, k, v, mh, true);
    } else if code == 2 {
        lemma_lands_same(new, new2, n, k, v, mh, true);
        assert forall|i: int| #[trigger] old[n].live(i) && !old[n].probed(i)
            && (forall|j: int| 0 <= j < i ==> !(old[n].live(j) && !old[n].probed(j)))
            implies lands(new2, nn, old[n].key_at(i), old[n].value_at(i), old[n].finger_array@[i], true) by {
            assert(old2[n].live(i) && !old2[n].probed(i));
            assert forall|j: int| 0 <= j < i implies !(old2[n].live(j) && !old2[n].probed(j)) by {
                assert(!(old[n].live(j) && !old[n].probed(j)));
            }
            assert(old2[n].key_at(i) == old[n].key_at(i) && old2[n].value_at(i) == old[n].value_at(i));
            lemma_lands_same(new, new2, nn, old[n].key_at(i), old[n].value_at(i), old[n].finger_array@[i], true);
        }
    } else if code == 3 {
        lemma_lands_same(new, new2, t, k, v, mh, false);
        assert forall|i: int| #[trigger] old[t].probed(i) && (forall|j: int| 0 <= j < i ==> !old[t].probed(j))
            implies lands(new2, p, old[t].key_at(i), old[t].value_at(i), old[t].finger_array@[i], false) by {
            assert(old2[t].probed(i));
            assert forall|j: int| 0 <= j < i implies !old2[t].probed(j) by {
                assert(!old[t].probed(j));
            }
            assert(old2[t].key_at(i) == old[t].key_at(i) && old2[t].value_at(i) == old[t].value_at(i));
            lemma_lands_same(new, new2, p, old[t].key_at(i), old[t].value_at(i), old[t].finger_array@[i], false);
        }
    } else if code == 4 {
        let sb = if old[64].is_full() { 65int } else { 64int };
        lemma_lands_same(new, new2, sb, k, v, mh, false);
    }
    if exists|j: int| 0 <= j < 14 && #[trigger] old[n].live(j) && !old[n].probed(j) {
        let j = choose|j: int| 0 <= j < 14 && #[trigger] old[n].live(j) && !old[n].probed(j);
        assert(old2[n].live(j));
    }
    if exists|j: int| 0 <= j < 14 && #[trigger] old2[n].live(j) && !old2[n].probed(j) {
        let j = choose|j: int| 0 <= j < 14 && #[trigger] old2[n].live(j) && !old2[n].probed(j);
        assert(old[n].live(j));
    }
    if exists|j: int| 0 <= j < 14 && #[trigger] old[t].probed(j) {
        let j = choose|j: int| 0 <= j < 14 && #[trigger] old[t].probed(j);
        assert(old2[t].probed(j));
    }
    if exists|j: int| 0 <= j < 14 && #[trigger] old2[t].probed(j) {
        let j = choose|j: int| 0 <= j < 14 && #[trigger] old2[t].probed(j);
        assert(old[t].probed(j));
    }
}

/// The number of occupied slots in the first `k` buckets.
pub open spec fn occ_upto(bs: Seq<Bucket>, k: int) -> nat
    decreases k,
{
    if k <= 0 {
        0
    } else {
        occ_upto(bs, k - 1) + count_field(bs[k - 1].bitmap) as nat
    }
}

/// The number of occupied slots of a segment.
pub open spec fn occupied(bs: Seq<Bucket>) -> nat {
    occ_upto(bs, 66)
}

pub proof fn lemma_occ_update(bs: Seq<Bucket>, b: int, nb: Bucket, k: int)
    requires
        0 <= b < bs.len(),
        k <= bs.len(),
    ensures
        occ_upto(bs.update(b, nb), k) + (if b < k { count_field(bs[b].bitmap) as int } else { 0 })
            == occ_upto(bs, k) + (if b < k { count_field(nb.bitmap) as int } else { 0 }),
    decreases k,
{
    if k > 0 {
        lemma_occ_update(bs, b, nb, k - 1);
    }
}

pub proof fn lemma_occ_same(bs: Seq<Bucket>, bs2: Seq<Bucket>, k: int)
    requires
        k <= bs.len(),
        k <= bs2.len(),
        forall|b: int| 0 <= b < k ==> (#[trigger] bs[b]).bitmap == bs2[b].bitmap,
    ensures
        occ_upto(bs, k) == occ_upto(bs2, k),
    decreases k,
{
    if k > 0 {
        lemma_occ_same(bs, bs2, k - 1);
    }
}

/// Four distinct full buckets hold 56 pairs.
pub proof fn lemma_occ_four(bs: Seq<Bucket>, a: int, b: int, c: int, d: int, k: int)
    requires
        0 <= a < 66 && 0 <= b < 66 && 0 <= c < 66 && 0 <= d < 66,
        a != b && a != c && a != d && b != c && b != d && c != d,
        bs[a].is_full() && bs[b].is_full() && bs[c].is_full() && bs[d].is_full(),
        k <= 66,
    ensures
        occ_upto(bs, k) >= (if a < k { 14int } else { 0 }) + (if b < k { 14int } else { 0 })
            + (if c < k { 14int } else { 0 }) + (if d < k { 14int } else { 0 }),
    decreases k,
{
    if k > 0 {
        lemma_occ_four(bs, a, b, c, d, k - 1);
    }
}

pub proof fn lemma_occ_mono(bs: Seq<Bucket>, k: int)
    requires
        0 <= k <= 66,
    ensures
        occ_upto(bs, k) <= occupied(bs),
    decreases 66 - k,
{
    if k < 66 {
        lemma_occ_mono(bs, k + 1);
    }
}

pub proof fn lemma_occ_zero(bs: Seq<Bucket>, k: int)
    requires
        k <= bs.len(),
        forall|b: int| 0 <= b < k ==> count_field((#[trigger] bs[b]).bitmap) == 0,
    ensures
        occ_upto(bs, k) == 0,
    decreases k,
{
    if k > 0 {
        lemma_occ_zero(bs, k - 1);
    }
}

pub proof fn lemma_count_take(s: Seq<bool>, k: int)
    requires
        0 <= k < s.len(),
    ensures
        count_true(s.take(k + 1)) == count_true(s.take(k)) + if s[k] { 1nat } else { 0nat },
{
    assert(s.take(k + 1).drop_last() =~= s.take(k));
}

pub proof fn lemma_count_take_le(s: Seq<bool>, k: int)
    requires
        0 <= k <= s.len(),
    ensures
        count_true(s.take(k)) <= count_true(s),
    decreases s.len() - k,
{
    if k < s.len() {
        lemma_count_take(s, k);
        lemma_count_take_le(s, k + 1);
    } else {
        assert(s.take(k) =~= s);
    }
}

/// A segment that no insert can take holds at least 56 pairs.
pub proof fn lemma_full_segment(bs: Seq<Bucket>, h: u64)
    requires
        bs.len() == 66,
        insert_code(bs, h) == -1,
    ensures
        occupied(bs) >= 56,
{
    lemma_home_bound(h);
    let t = home_bucket(h);
    lemma_occ_four(bs, t, next_of(t), 64, 65, 66);
}

impl Table {
    /// Places a pair the segment does not hold, by the fallback chain:
    /// the less occupied of the home bucket `b` and its neighbour, then
    /// displacement to the next or the previous bucket, then the stash.
    fn place(&mut self, b: usize, key: &Key, value: &ValueT, key_hash: u64, meta_hash: u8) -> (r: Result<i32, TableError>)
        requires
            old(self).inv(),
            key.wf(),
            old(self).routes(key@, key_hash, meta_hash),
            b == home_bucket(key_hash),
            b < 64,
            !old(self).contains_key(key@),
        ensures
            final(self).inv(),
            final(self).local_depth == old(self).local_depth,
            final(self).pattern == old(self).pattern,
            final(self).number == old(self).number,
            same_locks(old(self).bucket@, final(self).bucket@),
            r is Ok ==> final(self).entries() == old(self).entries().insert((key@, value@))
                && 0 <= r->Ok_0 <= 4 && r->Ok_0 == insert_code(old(self).bucket@, key_hash),
            r is Ok ==> landed(old(self).bucket@, final(self).bucket@, key_hash, key@, value@, meta_hash, r->Ok_0 as int),
            r is Err ==> forall|j: int| 0 <= j < 66 ==> same_content(#[trigger] final(self).bucket@[j], old(self).bucket@[j]),
            r is Err ==> final(self).entries() == old(self).entries()
                && forall|k: KeyView| final(self).contains_key(k) == old(self).contains_key(k),
            r is Err ==> (r->Err_0 is UnableToAcquireLock || r->Err_0 is TableFull),
            r is Err && r->Err_0 is TableFull ==> insert_code(old(self).bucket@, key_hash) == -1,
            !old(self).bucket@[next_of(next_of(b as int))].locked() && !old(self).bucket@[(b + 63) % 64].locked()
                && !old(self).bucket@[64].locked() ==> if insert_code(old(self).bucket@, key_hash) == -1 {
                r is Err && r->Err_0 is TableFull
            } else {
                r is Ok
            },
            r is Ok ==> occupied(final(self).bucket@) == occupied(old(self).bucket@) + 1,
    {
        let n = next_index(b);
        let ghost s0 = self.bucket@;
        proof {
            assert(s0[b as int].wf() && s0[n as int].wf());
            lemma_count_bounds(alloc_seq(s0[b as int].bitmap));
            lemma_count_bounds(alloc_seq(s0[n as int].bitmap));
        }
        if get_count(self.bucket[b].bitmap) == 14 && get_count(self.bucket[n].bitmap) == 14 {
            match self.displace_next(b, key, value, key_hash, meta_hash) {
                None => {
                    return Err(TableError::UnableToAcquireLock("Unable to acquire the lock for next neighbor".to_owned()));
                },
                Some(true) => {
                    return Ok(2);
                },
                Some(false) => {},
            }
            let ghost s1 = self.bucket@;
            proof {
                lemma_insert_same(s0, s1, s1, s1, key_hash, key@, value@, meta_hash, -1);
            }
            match self.displace_prev(b, key, value, key_hash, meta_hash) {
                None => {
                    return Err(TableError::UnableToAcquireLock("Unable to acquire the lock for previous neighbor".to_owned()));
                },
                Some(true) => {
                    proof {
                        lemma_insert_same(s0, s1, self.bucket@, self.bucket@, key_hash, key@, value@, meta_hash, 3);
                        lemma_occ_same(s0, s1, 66);
                    }
                    return Ok(3);
                },
                Some(false) => {},
            }
            let ghost s2 = self.bucket@;
            proof {
                lemma_insert_same(s0, s2, s2, s2, key_hash, key@, value@, meta_hash, -1);
            }
            match self.place_in_stash(b, key.duplicate(), copy_bytes(value), key_hash, meta_hash) {
                None => {
                    return Err(TableError::UnableToAcquireLock("Unable to acquire the lock for stash bucket".to_owned()));
                },
                Some(true) => {
                    proof {
                        lemma_insert_same(s0, s2, self.bucket@, self.bucket@, key_hash, key@, value@, meta_hash, 4);
                        lemma_occ_same(s0, s2, 66);
                    }
                    return Ok(4);
                },
                Some(false) => {
                    return Err(TableError::TableFull);
                },
            }
        } else {
            let probe = get_count(self.bucket[b].bitmap) > get_count(self.bucket[n].bitmap);
            let ib = if probe { n } else { b };
            let k2 = key.duplicate();
            let v2 = copy_bytes(value);
            let ghost p = Pair { key: k2, value: v2 };
            let res = self.bucket[ib].insert(k2, v2, meta_hash, probe);
            proof {
                assert(res is Ok);
                let i = res->Ok_0 as int;
                assert(s0[ib as int].wf());
                lemma_add_primary(s0, self.local_depth as int, self.pattern as int, ib as int, self.bucket@[ib as int], i, p, probe);
                assert(self.bucket@ =~= s0.update(ib as int, self.bucket@[ib as int]));
                lemma_occ_update(s0, ib as int, self.bucket@[ib as int], 66);
                assert(self.bucket@[ib as int].live(i));
                assert(lands(self.bucket@, ib as int, key@, value@, meta_hash, probe));
            }
            Ok(if probe { 1 } else { 0 })
        }
    }

    /// Inserts a pair whose key has hash `key_hash` and fingerprint
    /// `meta_hash`: into the less occupied of the home bucket and its right
    /// neighbour, else by displacement to the next or previous bucket, else
    /// into the stash. Reports where it went (0 home, 1 neighbour, 2 next,
    /// 3 previous, 4 stash).
    pub fn insert(&mut self, key: Key, value: ValueT, key_hash: u64, meta_hash: u8) -> (r: Result<i32, TableError>)
        requires
            old(self).inv(),
            key.wf(),
            old(self).routes(key@, key_hash, meta_hash),
        ensures
            final(self).inv(),
            final(self).local_depth == old(self).local_depth,
            final(self).pattern == old(self).pattern,
            final(self).number == old(self).number,
            same_locks(old(self).bucket@, final(self).bucket@),
            r is Ok ==> final(self).entries() == old(self).entries().insert((key@, value@))
                && 0 <= r->Ok_0 <= 4 && r->Ok_0 == insert_code(old(self).bucket@, key_hash),
            r is Ok ==> landed(old(self).bucket@, final(self).bucket@, key_hash, key@, value@, meta_hash, r->Ok_0 as int),
            r is Err ==> forall|j: int| 0 <= j < 66 ==> same_content(#[trigger] final(self).bucket@[j], old(self).bucket@[j]),
            r is Err ==> final(self).entries() == old(self).entries()
                && forall|k: KeyView| final(self).contains_key(k) == old(self).contains_key(k),
            r is Ok ==> !old(self).contains_key(key@),
            r is Err ==> (r->Err_0 is UnableToAcquireLock || r->Err_0 is KeyExists || r->Err_0 is TableFull),
            r is Err && r->Err_0 is KeyExists ==> old(self).contains_key(key@),
            r is Err && r->Err_0 is TableFull ==> !old(self).contains_key(key@) && insert_code(old(self).bucket@, key_hash) == -1,
            unlocked(old(self).bucket@) ==> !(r is Err && r->Err_0 is UnableToAcquireLock),
            unlocked(old(self).bucket@) && !old(self).contains_key(key@) ==> if insert_code(old(self).bucket@, key_hash) == -1 {
                r is Err && r->Err_0 is TableFull
            } else {
                r == Ok::<i32, TableError>(insert_code(old(self).bucket@, key_hash) as i32)
            },
    {
        let b = bucket_index(key_hash, K_FINGER_BITS, BUCKET_MASK);
        let n = next_index(b);
        if !self.try_lock_at(b) {
            return Err(TableError::UnableToAcquireLock("Unable to acquire target lock".to_owned()));
        }
        if !self.try_lock_at(n) {
            self.unlock_at(b);
            return Err(TableError::UnableToAcquireLock("Unable to acquire neighbor lock".to_owned()));
        }
        let ghost bs1 = self.bucket@;
        proof {
            lemma_locate(bs1, self.local_depth as int, self.pattern as int, key@);
            assert(self.bucket@.len() == 66);
        }
        let unique = self.bucket[b].unique_check(meta_hash, &key, &self.bucket[n], &self.bucket.as_slice()[64..66]);
        if !unique {
            self.unlock_at(n);
            self.unlock_at(b);
            return Err(TableError::KeyExists);
        }
        let r = self.place(b, &key, &value, key_hash, meta_hash);
        let ghost after = self.bucket@;
        self.unlock_at(n);
        self.unlock_at(b);
        proof {
            if r is Ok {
                lemma_insert_same(old(self).bucket@, bs1, after, self.bucket@, key_hash, key@, value@, meta_hash, r->Ok_0 as int);
            } else {
                lemma_insert_same(old(self).bucket@, bs1, bs1, bs1, key_hash, key@, value@, meta_hash, -1);
            }
        }
        r
    }


}

impl Table {
    /// Removes `key` from primary bucket `b`, looking for it as owned
    /// (`!probe`) or hosted entry. `None` when the bucket's lock is held.
    fn delete_in_primary(&mut self, b: usize, key: &Key, meta_hash: u8, probe: bool) -> (r: Option<bool>)
        requires
            old(self).inv(),
            key.wf(),
            b < 64,
        ensures
            final(self).inv(),
            final(self).local_depth == old(self).local_depth,
            final(self).pattern == old(self).pattern,
            final(self).number == old(self).number,
            same_locks(old(self).bucket@, final(self).bucket@),
            r is None <==> old(self).bucket@[b as int].locked(),
            r is Some ==> (r == Some(true) <==> old(self).bucket@[b as int].has_match(meta_hash, key@, probe)),
            r == Some(true) ==> exists|i: int| #[trigger] old(self).bucket@[b as int].matches(i, meta_hash, key@, probe)
                && freed(old(self).bucket@[b as int], final(self).bucket@[b as int], i),
            r == Some(true) ==> forall|d: int| 0 <= d < 66 && d != b ==> same_content(#[trigger] final(self).bucket@[d], old(self).bucket@[d]),
            r == Some(true) ==> !final(self).contains_key(key@)
                && (exists|v: Seq<u8>| old(self).entries().contains((key@, v)) && final(self).entries() == old(self).entries().remove((key@, v)))
                && forall|k: KeyView| k != key@ ==> final(self).contains_key(k) == old(self).contains_key(k),
            r != Some(true) ==> final(self).entries() == old(self).entries()
                && forall|k: KeyView| final(self).contains_key(k) == old(self).contains_key(k),
            r != Some(true) ==> forall|j: int| 0 <= j < 66 ==> same_content(#[trigger] final(self).bucket@[j], old(self).bucket@[j]),
    {
        if !self.try_lock_at(b) {
            return None;
        }
        let ghost bs1 = self.bucket@;
        proof {
            lemma_has_match_same(bs1[b as int], old(self).bucket@[b as int], meta_hash, key@, probe);
        }
        let ghost mut wi: int = 0;
        let res = self.bucket[b].delete(key, meta_hash, probe);
        proof {
            let (d, pt) = (self.local_depth as int, self.pattern as int);
            assert(bs1[b as int].wf());
            if res is Ok {
                let i = choose|i: int| bs1[b as int].matches(i, meta_hash, key@, probe)
                    && Bucket::removed_slot(&bs1[b as int], &self.bucket@[b as int], i);
                wi = i;
                lemma_remove_primary(bs1, d, pt, b as int, self.bucket@[b as int], i);
                assert(self.bucket@ =~= bs1.update(b as int, self.bucket@[b as int]));
                assert(holds(bs1, key@, bs1[b as int].value_at(i)));
            } else {
                assert(self.bucket@ =~= bs1);
            }
            lemma_same_content(old(self).bucket@, bs1, d, pt);
        }
        let ghost after = self.bucket@;
        self.unlock_at(b);
        proof {
            if res is Ok {
                assert(old(self).bucket@[b as int].matches(wi, meta_hash, key@, probe));
                assert(freed(old(self).bucket@[b as int], self.bucket@[b as int], wi));
            }
        }
        Some(res.is_ok())
    }

    /// Removes `key` from stash bucket `sb` and undoes one record of its
    /// spill at its home bucket `b`. `None` when the stash bucket's lock is
    /// held.
    fn delete_in_stash(&mut self, sb: usize, b: usize, key: &Key, key_hash: u64, meta_hash: u8) -> (r: Option<bool>)
        requires
            old(self).inv(),
            key.wf(),
            sb == 64 || sb == 65,
            b < 64,
            key_hash == hash_of_key(key@),
            b == home_bucket(key_hash),
        ensures
            final(self).inv(),
            final(self).local_depth == old(self).local_depth,
            final(self).pattern == old(self).pattern,
            final(self).number == old(self).number,
            same_locks(old(self).bucket@, final(self).bucket@),
            r is None <==> old(self).bucket@[sb as int].locked(),
            r is Some ==> (r == Some(true) <==> old(self).bucket@[sb as int].has_match(meta_hash, key@, false)),
            r == Some(true) ==> exists|i: int| #[trigger] old(self).bucket@[sb as int].matches(i, meta_hash, key@, false)
                && freed(old(self).bucket@[sb as int], final(self).bucket@[sb as int], i),
            r == Some(true) ==> forall|d: int| 0 <= d < 66 && d != sb && d != b && d != next_of(b as int)
                ==> same_content(#[trigger] final(self).bucket@[d], old(self).bucket@[d]),
            r == Some(true) ==> spill_undone(old(self).bucket@, final(self).bucket@, b as int),
            r == Some(true) ==> !final(self).contains_key(key@)
                && (exists|v: Seq<u8>| old(self).entries().contains((key@, v)) && final(self).entries() == old(self).entries().remove((key@, v)))
                && forall|k: KeyView| k != key@ ==> final(self).contains_key(k) == old(self).contains_key(k),
            r != Some(true) ==> final(self).entries() == old(self).entries()
                && forall|k: KeyView| final(self).contains_key(k) == old(self).contains_key(k),
            r != Some(true) ==> forall|j: int| 0 <= j < 66 ==> same_content(#[trigger] final(self).bucket@[j], old(self).bucket@[j]),
    {
        if !self.try_lock_at(sb) {
            return None;
        }
        let ghost bs1 = self.bucket@;
        proof {
            lemma_has_match_same(bs1[sb as int], old(self).bucket@[sb as int], meta_hash, key@, false);
        }
        let ghost mut wi: int = 0;
        let res = self.bucket[sb].delete(key, meta_hash, false);
        let ok = res.is_ok();
        if ok {
            let n = next_index(b);
            let ghost bs2 = self.bucket@;
            let mut nb = self.take_at(n);
            self.bucket[b].unset_indicator(meta_hash, &mut nb, (sb - K_NUM_BUCKET) as u8);
            let ghost nb2 = nb;
            self.bucket.set(n, nb);
            proof {
                let (d, pt) = (self.local_depth as int, self.pattern as int);
                assert(bs1[sb as int].wf() && bs1[b as int].wf() && bs1[n as int].wf());
                let i = choose|i: int| bs1[sb as int].matches(i, meta_hash, key@, false)
                    && Bucket::removed_slot(&bs1[sb as int], &bs2[sb as int], i);
                wi = i;
                assert(bs2[b as int] == bs1[b as int] && bs2[n as int] == bs1[n as int]);
                lemma_remove_stash(bs1, d, pt, sb as int, bs2[sb as int], i, b as int, self.bucket@[b as int], nb2);
                assert(self.bucket@ =~= bs1.update(sb as int, bs2[sb as int]).update(b as int, self.bucket@[b as int]).update(n as int, nb2));
                assert(holds(bs1, key@, bs1[sb as int].value_at(i)));
            }
        } else {
            proof {
                assert(self.bucket@ =~= bs1);
            }
        }
        proof {
            lemma_same_content(old(self).bucket@, bs1, self.local_depth as int, self.pattern as int);
        }
        let ghost after = self.bucket@;
        self.unlock_at(sb);
        proof {
            if ok {
                assert(old(self).bucket@[sb as int].matches(wi, meta_hash, key@, false));
                assert(freed(old(self).bucket@[sb as int], self.bucket@[sb as int], wi));
            }
        }
        Some(ok)
    }

    /// Removes `key`: from its home bucket, else its right neighbour, else
    /// the stash.
    pub fn delete(&mut self, key: &Key, key_hash: u64, meta_hash: u8) -> (r: Result<(), BucketError>)
        requires
            old(self).inv(),
            key.wf(),
            key_hash == hash_of_key(key@),
            meta_hash == fingerprint(key_hash),
        ensures
            final(self).inv(),
            final(self).local_depth == old(self).local_depth,
            final(self).pattern == old(self).pattern,
            final(self).number == old(self).number,
            same_locks(old(self).bucket@, final(self).bucket@),
            r is Ok ==> old(self).contains_key(key@) && !final(self).contains_key(key@)
                && (exists|v: Seq<u8>| old(self).entries().contains((key@, v)) && final(self).entries() == old(self).entries().remove((key@, v)))
                && forall|k: KeyView| k != key@ ==> final(self).contains_key(k) == old(self).contains_key(k),
            r is Err ==> final(self).entries() == old(self).entries()
                && forall|k: KeyView| final(self).contains_key(k) == old(self).contains_key(k),
            r is Err ==> r == Err::<(), BucketError>(BucketError::ItemDoesntExist) || r == Err::<(), BucketError>(BucketError::Internal),
            r == Err::<(), BucketError>(BucketError::ItemDoesntExist) ==> !old(self).contains_key(key@),
            unlocked(old(self).bucket@) ==> r != Err::<(), BucketError>(BucketError::Internal),
            unlocked(old(self).bucket@) && old(self).contains_key(key@) ==> r is Ok,
            r is Err ==> forall|j: int| 0 <= j < 66 ==> same_content(#[trigger] final(self).bucket@[j], old(self).bucket@[j]),
            r is Ok ==> exists|c: int, i: int| deleted_at(old(self).bucket@, final(self).bucket@, home_bucket(key_hash), c, i, key@, meta_hash),
    {
        let b = bucket_index(key_hash, K_FINGER_BITS, BUCKET_MASK);
        let n = next_index(b);
        let ghost s0 = self.bucket@;
        proof {
            lemma_locate(self.bucket@, self.local_depth as int, self.pattern as int, key@);
        }
        match self.delete_in_primary(b, key, meta_hash, false) {
            None => {
                return Err(BucketError::Internal);
            },
            Some(true) => {
                proof {
                    let c = b as int;
                    assert(forall|d: int| 0 <= d < 66 ==> same_content(#[trigger] s0[d], s0[d]));
                    assert(same_content(s0[c], s0[c]));
                    let i = choose|i: int| #[trigger] s0[c].matches(i, meta_hash, key@, false)
                        && freed(s0[c], self.bucket@[c], i);
                    assert(s0[c].matches(i, meta_hash, key@, false));
                    assert(freed(s0[c], self.bucket@[c], i));
                    
                    assert(deleted_at(s0, self.bucket@, b as int, c, i, key@, meta_hash));
                }
                return Ok(());
            },
            Some(false) => {},
        }
        let ghost s1 = self.bucket@;
        match self.delete_in_primary(n, key, meta_hash, true) {
            None => {
                return Err(BucketError::Internal);
            },
            Some(true) => {
                proof {
                    let c = n as int;
                    assert(forall|d: int| 0 <= d < 66 ==> same_content(#[trigger] s1[d], s0[d]));
                    assert(same_content(s1[c], s0[c]));
                    let i = choose|i: int| #[trigger] s1[c].matches(i, meta_hash, key@, true)
                        && freed(s1[c], self.bucket@[c], i);
                    assert(s0[c].matches(i, meta_hash, key@, true));
                    assert(freed(s0[c], self.bucket@[c], i));
                    
                    assert(deleted_at(s0, self.bucket@, b as int, c, i, key@, meta_hash));
                }
                return Ok(());
            },
            Some(false) => {},
        }
        let ghost s2 = self.bucket@;
        match self.delete_in_stash(K_NUM_BUCKET, b, key, key_hash, meta_hash) {
            None => {
                return Err(BucketError::Internal);
            },
            Some(true) => {
                proof {
                    let c = 64int;
                    assert(forall|d: int| 0 <= d < 66 ==> same_content(#[trigger] s2[d], s0[d]));
                    assert(same_content(s2[c], s0[c]));
                    let i = choose|i: int| #[trigger] s2[c].matches(i, meta_hash, key@, false)
                        && freed(s2[c], self.bucket@[c], i);
                    assert(s0[c].matches(i, meta_hash, key@, false));
                    assert(freed(s0[c], self.bucket@[c], i));
                    assert(same_content(s2[b as int], s0[b as int]) && same_content(s2[n as int], s0[n as int]));
                    assert(deleted_at(s0, self.bucket@, b as int, c, i, key@, meta_hash));
                }
                return Ok(());
            },
            Some(false) => {},
        }
        let ghost s3 = self.bucket@;
        match self.delete_in_stash(K_NUM_BUCKET + 1, b, key, key_hash, meta_hash) {
            None => {
                return Err(BucketError::Internal);
            },
            Some(true) => {
                proof {
                    let c = 65int;
                    assert(forall|d: int| 0 <= d < 66 ==> same_content(#[trigger] s3[d], s0[d]));
                    assert(same_content(s3[c], s0[c]));
                    let i = choose|i: int| #[trigger] s3[c].matches(i, meta_hash, key@, false)
                        && freed(s3[c], self.bucket@[c], i);
                    assert(s0[c].matches(i, meta_hash, key@, false));
                    assert(freed(s0[c], self.bucket@[c], i));
                    assert(same_content(s3[b as int], s0[b as int]) && same_content(s3[n as int], s0[n as int]));
                    assert(deleted_at(s0, self.bucket@, b as int, c, i, key@, meta_hash));
                }
                return Ok(());
            },
            Some(false) => {},
        }
        proof {
            assert(same_content(s1[n as int], s0[n as int]));
            assert(same_content(s2[64], s0[64]));
            assert(same_content(s3[65], s0[65]));
            lemma_has_match_same(s1[n as int], s0[n as int], meta_hash, key@, true);
            lemma_has_match_same(s2[64], s0[64], meta_hash, key@, false);
            lemma_has_match_same(s3[65], s0[65], meta_hash, key@, false);
        }
        Err(BucketError::ItemDoesntExist)
    }
}

impl Table {
    /// Inserts a pair that the segment is known not to hold, as during a
    /// split: like `insert`, without the duplicate check.
    pub fn insert_4_split(&mut self, key: &Key, value: &ValueT, key_hash: u64, meta_hash: u8) -> (r: Result<i32, TableError>)
        requires
            old(self).inv(),
            key.wf(),
            old(self).routes(key@, key_hash, meta_hash),
            !old(self).contains_key(key@),
        ensures
            final(self).inv(),
            final(self).local_depth == old(self).local_depth,
            final(self).pattern == old(self).pattern,
            final(self).number == old(self).number,
            same_locks(old(self).bucket@, final(self).bucket@),
            r is Ok ==> final(self).entries() == old(self).entries().insert((key@, value@))
                && 0 <= r->Ok_0 <= 4 && r->Ok_0 == insert_code(old(self).bucket@, key_hash),
            r is Ok ==> landed(old(self).bucket@, final(self).bucket@, key_hash, key@, value@, meta_hash, r->Ok_0 as int),
            r is Err ==> forall|j: int| 0 <= j < 66 ==> same_content(#[trigger] final(self).bucket@[j], old(self).bucket@[j]),
            r is Err ==> final(self).entries() == old(self).entries()
                && forall|k: KeyView| final(self).contains_key(k) == old(self).contains_key(k),
            r is Ok ==> final(self).contains_key(key@)
                && forall|k: KeyView| k != key@ ==> final(self).contains_key(k) == old(self).contains_key(k),
            r is Err ==> (r->Err_0 is UnableToAcquireLock || r->Err_0 is TableFull),
            r is Err && r->Err_0 is TableFull ==> insert_code(old(self).bucket@, key_hash) == -1,
            unlocked(old(self).bucket@) ==> if insert_code(old(self).bucket@, key_hash) == -1 {
                r is Err && r->Err_0 is TableFull
            } else {
                r == Ok::<i32, TableError>(insert_code(old(self).bucket@, key_hash) as i32)
            },
            r is Ok ==> occupied(final(self).bucket@) == occupied(old(self).bucket@) + 1,
    {
        let b = bucket_index(key_hash, K_FINGER_BITS, BUCKET_MASK);
        let ghost bs0 = self.bucket@;
        let r = self.place(b, key, value, key_hash, meta_hash);
        proof {
            if r is Ok {
                assert(entries(self.bucket@).contains((key@, value@)));
                assert(holds_key(self.bucket@, key@));
                assert forall|k: KeyView| k != key@ implies holds_key(self.bucket@, k) == holds_key(bs0, k) by {
                    if holds_key(self.bucket@, k) {
                        let (c, s) = choose|c: int, s: int| 0 <= c < 66 && #[trigger] self.bucket@[c].live(s) && self.bucket@[c].key_at(s) == k;
                        assert(entries(self.bucket@).contains((k, self.bucket@[c].value_at(s))));
                        assert(holds(bs0, k, self.bucket@[c].value_at(s)));
                    }
                    if holds_key(bs0, k) {
                        let (c, s) = choose|c: int, s: int| 0 <= c < 66 && #[trigger] bs0[c].live(s) && bs0[c].key_at(s) == k;
                        assert(entries(bs0).contains((k, bs0[c].value_at(s))));
                        assert(entries(bs0).insert((key@, value@)).contains((k, bs0[c].value_at(s))));
                        assert(entries(self.bucket@).contains((k, bs0[c].value_at(s))));
                        assert(holds(self.bucket@, k, bs0[c].value_at(s)));
                    }
                }
            }
        }
        r
    }

}

/// Whether slot `(c, s)` holds an item that a split of a segment of depth
/// `d` and pattern `p` hands to the sibling: one whose next hash bit is set.
pub open spec fn moving(bs: Seq<Bucket>, d: int, p: int, c: int, s: int) -> bool {
    &&& bs[c].live(s)
    &&& prefix(hash_of_key(bs[c].key_at(s)), d + 1) == 2 * p + 1
}

/// The pairs of moving slots among the first `lim` (in bucket-major order).
pub open spec fn moved_upto(bs: Seq<Bucket>, d: int, p: int, lim: int) -> Set<(KeyView, Seq<u8>)> {
    Set::new(|e: (KeyView, Seq<u8>)| exists|c: int, s: int|
        0 <= c < 66 && 0 <= s < 14 && c * 14 + s < lim && #[trigger] moving(bs, d, p, c, s)
            && bs[c].key_at(s) == e.0 && bs[c].value_at(s) == e.1)
}

/// Whether some moving slot among the first `lim` holds key `k`.
pub open spec fn moved_key_upto(bs: Seq<Bucket>, d: int, p: int, lim: int, k: KeyView) -> bool {
    exists|c: int, s: int| 0 <= c < 66 && 0 <= s < 14 && c * 14 + s < lim && #[trigger] moving(bs, d, p, c, s)
        && bs[c].key_at(s) == k
}

/// One more hash bit splits a prefix in two.
pub proof fn lemma_prefix_step(h: u64, d: int)
    requires
        0 <= d < 64,
    ensures
        prefix(h, d + 1) == 2 * prefix(h, d) || prefix(h, d + 1) == 2 * prefix(h, d) + 1,
{
    let s = (63 - d) as u64;
    let x = h >> s;
    if d == 0 {
        assert(h >> 63u64 <= 1) by (bit_vector);
    } else {
        assert((h >> s) >> 1u64 == h >> ((s + 1) as u64)) by (bit_vector) requires s < 63;
        assert(((x >> 1u64) * 2 == x || (x >> 1u64) * 2 + 1 == x)) by (bit_vector);
    }
}

/// A segment whose live items all carry prefix `p2` at depth `d2` may claim
/// it.
pub proof fn lemma_repattern(bs: Seq<Bucket>, d: int, p: int, d2: int, p2: int)
    requires
        buckets_inv(bs, d, p),
        forall|c: int, s: int| 0 <= c < 66 && #[trigger] bs[c].live(s) ==> prefix(hash_of_key(bs[c].key_at(s)), d2) == p2,
    ensures
        buckets_inv(bs, d2, p2),
{
    assert forall|c: int, s: int| 0 <= c < 66 implies #[trigger] placed(bs, d2, p2, c, s) by {
        assert(placed(bs, d, p, c, s));
    }
}

impl Table {
    /// Copies into `sibling` every item of bucket `i` whose next hash bit is
    /// set, and returns the mask of their slots; `None` when the sibling
    /// cannot take one.
    fn split_copy_bucket(&self, i: usize, sibling: &mut Table) -> (r: Option<u32>)
        requires
            self.inv(),
            self.local_depth < 64,
            i < 66,
            old(sibling).inv(),
            old(sibling).local_depth == self.local_depth + 1,
            old(sibling).pattern == 2 * self.pattern + 1,
            unlocked(old(sibling).bucket@),
            forall|k: KeyView| #[trigger] old(sibling).contains_key(k) ==> moved_key_upto(self.bucket@, self.local_depth as int, self.pattern as int, i * 14, k),
            occupied(old(sibling).bucket@) <= occ_upto(self.bucket@, i as int),
        ensures
            r is None ==> occupied(self.bucket@) >= 57,
            r is Some ==> occupied(final(sibling).bucket@) <= occ_upto(self.bucket@, i + 1),
            final(sibling).inv(),
            final(sibling).local_depth == old(sibling).local_depth,
            final(sibling).pattern == old(sibling).pattern,
            unlocked(final(sibling).bucket@),
            r is Some ==> {
                &&& forall|s: int| 0 <= s < 14 ==> (bit_of(r->Some_0, s) == #[trigger] moving(self.bucket@, self.local_depth as int, self.pattern as int, i as int, s))
                &&& forall|s: int| 14 <= s < 32 ==> !#[trigger] bit_of(r->Some_0, s)
                &&& final(sibling).entries() == old(sibling).entries() + (moved_upto(self.bucket@, self.local_depth as int, self.pattern as int, i * 14 + 14) - moved_upto(self.bucket@, self.local_depth as int, self.pattern as int, i * 14))
                &&& forall|k: KeyView| #[trigger] final(sibling).contains_key(k) ==> moved_key_upto(self.bucket@, self.local_depth as int, self.pattern as int, i * 14 + 14, k)
            },
    {
        let ghost (bs, d, p) = (self.bucket@, self.local_depth as int, self.pattern as int);
        let shift: u64 = 63 - self.local_depth as u64;
        let target: u64 = 2 * self.pattern + 1;
        let mut mask: u32 = 0;
        proof {
            assert forall|t: int| 0 <= t < 32 implies !#[trigger] bit_of(0u32, t) by {
                let k = t as u32;
                assert((0u32 >> k) & 1 == 0) by (bit_vector);
            }
        }
        let mut s: usize = 0;
        while s < 14
            invariant
                self.inv(),
                bs == self.bucket@,
                d == self.local_depth as int,
                p == self.pattern as int,
                self.local_depth < 64,
                shift == 63 - self.local_depth,
                target == 2 * p + 1,
                i < 66,
                s <= 14,
                sibling.inv(),
                sibling.local_depth == old(sibling).local_depth,
                sibling.pattern == old(sibling).pattern,
                sibling.local_depth == self.local_depth + 1,
                sibling.pattern == 2 * self.pattern + 1,
                unlocked(sibling.bucket@),
                forall|t: int| 0 <= t < s ==> (bit_of(mask, t) == #[trigger] moving(bs, d, p, i as int, t)),
                forall|t: int| s <= t < 32 ==> !#[trigger] bit_of(mask, t),
                sibling.entries() == old(sibling).entries() + (moved_upto(bs, d, p, i * 14 + s) - moved_upto(bs, d, p, i * 14)),
                forall|k: KeyView| #[trigger] sibling.contains_key(k) ==> moved_key_upto(bs, d, p, i * 14 + s, k),
                occupied(sibling.bucket@) <= occ_upto(bs, i as int) + count_true(alloc_seq(bs[i as int].bitmap).take(s as int)),
            decreases 14 - s,
        {
            let ghost lim = i * 14 + s;
            let ghost base = i * 14;
            proof {
                assert(bs[i as int].wf());
                assert(placed(bs, d, p, i as int, s as int));
                lemma_count_take(alloc_seq(bs[i as int].bitmap), s as int);
                lemma_count_take_le(alloc_seq(bs[i as int].bitmap), s as int + 1);
                lemma_occ_mono(bs, i as int + 1);
                assert(alloc_seq(bs[i as int].bitmap)[s as int] == bs[i as int].live(s as int));
            }
            match &self.bucket[i].pairs[s] {
                Some(pair) => {
                    let h = hash_key(&pair.key);
                    proof {
                        assert(bs[i as int].live(s as int));
                        assert(pair.key.wf());
                        assert(prefix(h, d + 1) == (h >> shift) as int);
                    }
                    if (h >> shift) == target {
                        let fp = self.bucket[i].finger_array[s];
                        proof {
                            let k = pair.key@;
                            assert(moving(bs, d, p, i as int, s as int));
                            assert(bs[i as int].key_at(s as int) == k);
                            assert(h == hash_of_key(k));
                            assert(fp == bs[i as int].finger_array@[s as int]);
                            assert(fp == fingerprint(h));
                            assert(prefix(h, sibling.local_depth as int) == sibling.pattern as int);
                            if sibling.contains_key(k) {
                                let (c, t) = choose|c: int, t: int| 0 <= c < 66 && 0 <= t < 14 && c * 14 + t < lim
                                    && #[trigger] moving(bs, d, p, c, t) && bs[c].key_at(t) == k;
                                assert(bs[c].live(t));
                                assert(false);
                            }
                        }
                        let ghost sib0 = sibling.entries();
                        let ghost sib_b = sibling.bucket@;
                        match sibling.insert_4_split(&pair.key, &pair.value, h, fp) {
                            Ok(_) => {
                                proof {
                                    lemma_u32_set(mask, s as u32);
                                    let kv = (pair.key@, pair.value@);
                                    assert(moved_upto(bs, d, p, lim + 1) =~= moved_upto(bs, d, p, lim).insert(kv)) by {
                                        assert forall|e: (KeyView, Seq<u8>)| #[trigger] moved_upto(bs, d, p, lim + 1).contains(e)
                                            implies moved_upto(bs, d, p, lim).insert(kv).contains(e) by {
                                            let (c, t) = choose|c: int, t: int| 0 <= c < 66 && 0 <= t < 14 && c * 14 + t < lim + 1
                                                && #[trigger] moving(bs, d, p, c, t) && bs[c].key_at(t) == e.0 && bs[c].value_at(t) == e.1;
                                            if c * 14 + t == lim {
                                                assert(c == i && t == s);
                                            }
                                        }
                                        assert(moving(bs, d, p, i as int, s as int));
                                    }
                                    assert(!moved_upto(bs, d, p, base).contains(kv)) by {
                                        if moved_upto(bs, d, p, base).contains(kv) {
                                            let (c, t) = choose|c: int, t: int| 0 <= c < 66 && 0 <= t < 14 && c * 14 + t < base
                                                && #[trigger] moving(bs, d, p, c, t) && bs[c].key_at(t) == kv.0 && bs[c].value_at(t) == kv.1;
                                            assert(bs[c].live(t));
                                        }
                                    }
                                    assert(sibling.entries() =~= old(sibling).entries() + (moved_upto(bs, d, p, lim + 1) - moved_upto(bs, d, p, base)));
                                    assert forall|k: KeyView| #[trigger] sibling.contains_key(k) implies moved_key_upto(bs, d, p, lim + 1, k) by {
                                        if k == pair.key@ {
                                            assert(moving(bs, d, p, i as int, s as int));
                                        } else {
                                            let (c, t) = choose|c: int, t: int| 0 <= c < 66 && 0 <= t < 14 && c * 14 + t < lim
                                                && #[trigger] moving(bs, d, p, c, t) && bs[c].key_at(t) == k;
                                        }
                                    }
                                }
                                mask = mask | (1u32 << s as u32);
                            },
                            Err(_) => {
                                proof {
                                    lemma_full_segment(sib_b, h);
                                }
                                return None;
                            },
                        }
                    } else {
                        proof {
                            assert(!moving(bs, d, p, i as int, s as int));
                            assert(moved_upto(bs, d, p, lim + 1) =~= moved_upto(bs, d, p, lim)) by {
                                assert forall|e: (KeyView, Seq<u8>)| #[trigger] moved_upto(bs, d, p, lim + 1).contains(e)
                                    implies moved_upto(bs, d, p, lim).contains(e) by {
                                    let (c, t) = choose|c: int, t: int| 0 <= c < 66 && 0 <= t < 14 && c * 14 + t < lim + 1
                                        && #[trigger] moving(bs, d, p, c, t) && bs[c].key_at(t) == e.0 && bs[c].value_at(t) == e.1;
                                    if c * 14 + t == lim {
                                        assert(c == i && t == s);
                                    }
                                }
                            }
                            assert forall|k: KeyView| #[trigger] sibling.contains_key(k) implies moved_key_upto(bs, d, p, lim + 1, k) by {
                                let (c, t) = choose|c: int, t: int| 0 <= c < 66 && 0 <= t < 14 && c * 14 + t < lim
                                    && #[trigger] moving(bs, d, p, c, t) && bs[c].key_at(t) == k;
                            }
                        }
                    }
                },
                None => {
                    proof {
                        assert(!bs[i as int].live(s as int));
                        assert(moved_upto(bs, d, p, lim + 1) =~= moved_upto(bs, d, p, lim)) by {
                            assert forall|e: (KeyView, Seq<u8>)| #[trigger] moved_upto(bs, d, p, lim + 1).contains(e)
                                implies moved_upto(bs, d, p, lim).contains(e) by {
                                let (c, t) = choose|c: int, t: int| 0 <= c < 66 && 0 <= t < 14 && c * 14 + t < lim + 1
                                    && #[trigger] moving(bs, d, p, c, t) && bs[c].key_at(t) == e.0 && bs[c].value_at(t) == e.1;
                                if c * 14 + t == lim {
                                    assert(c == i && t == s);
                                }
                            }
                        }
                        assert forall|k: KeyView| #[trigger] sibling.contains_key(k) implies moved_key_upto(bs, d, p, lim + 1, k) by {
                            let (c, t) = choose|c: int, t: int| 0 <= c < 66 && 0 <= t < 14 && c * 14 + t < lim
                                && #[trigger] moving(bs, d, p, c, t) && bs[c].key_at(t) == k;
                        }
                    }
                },
            }
            s += 1;
        }
        proof {
            assert(alloc_seq(bs[i as int].bitmap).take(14) =~= alloc_seq(bs[i as int].bitmap));
            assert(bs[i as int].wf());
        }
        Some(mask)
    }
}

/// The pairs of the moving slots of bucket `c` below slot `lim`.
pub open spec fn moved_in(bs: Seq<Bucket>, d: int, p: int, c: int, lim: int) -> Set<(KeyView, Seq<u8>)> {
    Set::new(|e: (KeyView, Seq<u8>)| exists|t: int|
        0 <= t < lim && #[trigger] moving(bs, d, p, c, t) && bs[c].key_at(t) == e.0 && bs[c].value_at(t) == e.1)
}

impl Table {
    /// Empties the slots of bucket `i` that `mask` marks, all of them
    /// moving; for a stash bucket, also undoes the records of the spills.
    fn split_clear_bucket(&mut self, i: usize, mask: u32)
        requires
            old(self).inv(),
            old(self).local_depth < 64,
            i < 66,
            forall|s: int| 0 <= s < 14 ==> (bit_of(mask, s) == #[trigger] moving(old(self).bucket@, old(self).local_depth as int, old(self).pattern as int, i as int, s)),
        ensures
            final(self).inv(),
            final(self).local_depth == old(self).local_depth,
            final(self).pattern == old(self).pattern,
            final(self).number == old(self).number,
            final(self).state == old(self).state,
            final(self).entries() == old(self).entries() - moved_in(old(self).bucket@, old(self).local_depth as int, old(self).pattern as int, i as int, 14),
            forall|c: int| 0 <= c < 66 && c != i ==> (#[trigger] final(self).bucket@[c]).same_slots(&old(self).bucket@[c]),
            forall|s: int| #[trigger] final(self).bucket@[i as int].live(s) == (old(self).bucket@[i as int].live(s)
                && !moving(old(self).bucket@, old(self).local_depth as int, old(self).pattern as int, i as int, s)),
            forall|s: int| #[trigger] final(self).bucket@[i as int].live(s) ==> final(self).bucket@[i as int].pairs@[s] == old(self).bucket@[i as int].pairs@[s],
            forall|c: int| 0 <= c < 66 ==> (#[trigger] final(self).bucket@[c]).version_lock == old(self).bucket@[c].version_lock,
    {
        let ghost (bs0, d, p) = (self.bucket@, self.local_depth as int, self.pattern as int);
        let mut s: usize = 0;
        while s < 14
            invariant
                self.inv(),
                self.local_depth as int == d,
                self.pattern as int == p,
                self.number == old(self).number,
                self.state == old(self).state,
                bs0 == old(self).bucket@,
                d < 64,
                i < 66,
                s <= 14,
                forall|t: int| 0 <= t < 14 ==> (bit_of(mask, t) == #[trigger] moving(bs0, d, p, i as int, t)),
                self.entries() == entries(bs0) - moved_in(bs0, d, p, i as int, s as int),
                forall|c: int| 0 <= c < 66 && c != i ==> (#[trigger] self.bucket@[c]).same_slots(&bs0[c]),
                forall|t: int| #[trigger] self.bucket@[i as int].live(t) == (bs0[i as int].live(t) && !(t < s && moving(bs0, d, p, i as int, t))),
                forall|t: int| #[trigger] self.bucket@[i as int].live(t) ==> self.bucket@[i as int].pairs@[t] == bs0[i as int].pairs@[t],
                self.bucket@[i as int].finger_array == bs0[i as int].finger_array,
                forall|c: int| 0 <= c < 66 ==> (#[trigger] self.bucket@[c]).version_lock == bs0[c].version_lock,
            decreases 14 - s,
        {
            let ghost cur = self.bucket@;
            if check_bit_32(mask, s as u32) {
                let ghost kv = (bs0[i as int].key_at(s as int), bs0[i as int].value_at(s as int));
                proof {
                    assert(moving(bs0, d, p, i as int, s as int));
                    assert(cur[i as int].live(s as int));
                    assert(cur[i as int].wf());
                }
                if i < K_NUM_BUCKET {
                    let _ = self.bucket[i].take_slot(s);
                    proof {
                        lemma_remove_primary(cur, d, p, i as int, self.bucket@[i as int], s as int);
                        assert(self.bucket@ =~= cur.update(i as int, self.bucket@[i as int]));
                    }
                } else {
                    let pair = self.bucket[i].take_slot(s);
                    let h = hash_key(&pair.key);
                    let t = bucket_index(h, K_FINGER_BITS, BUCKET_MASK);
                    let n = next_index(t);
                    let fp = self.bucket[i].finger_array[s];
                    let ghost mid = self.bucket@;
                    let mut nb = self.take_at(n);
                    self.bucket[t].unset_indicator(fp, &mut nb, (i - K_NUM_BUCKET) as u8);
                    let ghost nb2 = nb;
                    self.bucket.set(n, nb);
                    proof {
                        assert(cur[t as int].wf() && cur[n as int].wf());
                        assert(mid[t as int] == cur[t as int]);
                        lemma_remove_stash(cur, d, p, i as int, mid[i as int], s as int, t as int, self.bucket@[t as int], nb2);
                        assert(self.bucket@ =~= cur.update(i as int, mid[i as int]).update(t as int, self.bucket@[t as int]).update(n as int, nb2));
                    }
                }
                proof {
                    assert(moved_in(bs0, d, p, i as int, s as int + 1) =~= moved_in(bs0, d, p, i as int, s as int).insert(kv)) by {
                        assert(moving(bs0, d, p, i as int, s as int));
                    }
                    assert(cur[i as int].key_at(s as int) == kv.0 && cur[i as int].value_at(s as int) == kv.1);
                    assert(self.entries() =~= entries(bs0) - moved_in(bs0, d, p, i as int, s as int + 1));
                }
            } else {
                proof {
                    assert(moved_in(bs0, d, p, i as int, s as int + 1) =~= moved_in(bs0, d, p, i as int, s as int));
                }
            }
            s += 1;
        }
        proof {
            assert(moved_in(bs0, d, p, i as int, 14) =~= moved_in(bs0, d, p, i as int, s as int));
        }
    }
}

/// A moving slot's pair is among the moved pairs of every larger bound.
pub proof fn lemma_moved_grows(bs: Seq<Bucket>, d: int, p: int, a: int, b: int)
    requires
        a <= b,
    ensures
        moved_upto(bs, d, p, a).subset_of(moved_upto(bs, d, p, b)),
{
}

impl Table {
    /// Splits the segment in two by the next hash bit: items whose bit is set
    /// are copied into a new sibling segment (pattern `2p + 1`), then emptied
    /// from this one, which keeps pattern `2p`; both claim one more bit. The
    /// caller holds the primary buckets' locks. Nothing changes when the
    /// sibling cannot take every item.
    pub fn split(&mut self) -> (r: Result<Table, SplitError>)
        requires
            old(self).inv(),
            old(self).local_depth < 64,
        ensures
            r is Err ==> *final(self) == *old(self),
            r is Err ==> occupied(old(self).bucket@) >= 57,
            occupied(old(self).bucket@) <= 56 ==> r is Ok,
            r is Ok ==> {
                let sib = r->Ok_0;
                &&& final(self).inv()
                &&& sib.inv()
                &&& final(self).local_depth == old(self).local_depth + 1
                &&& sib.local_depth == old(self).local_depth + 1
                &&& final(self).pattern == 2 * old(self).pattern
                &&& sib.pattern == 2 * old(self).pattern + 1
                &&& final(self).number == old(self).number
                &&& unlocked(sib.bucket@)
                &&& forall|c: int| 0 <= c < 66 ==> (#[trigger] final(self).bucket@[c]).version_lock == old(self).bucket@[c].version_lock
                &&& final(self).bucket@.len() == 66
                &&& old(self).entries() == final(self).entries() + sib.entries()
                &&& final(self).entries().disjoint(sib.entries())
                &&& forall|k: KeyView| #![trigger old(self).contains_key(k)] old(self).contains_key(k) == (final(self).contains_key(k) || sib.contains_key(k))
                &&& forall|k: KeyView| !(#[trigger] final(self).contains_key(k) && sib.contains_key(k))
            },
    {
        let ghost (bs0, d, p) = (self.bucket@, self.local_depth as int, self.pattern as int);
        proof {
            let (pp, dd) = (self.pattern, self.local_depth as u64);
            assert(pp >> dd == 0 && dd < 64 ==> pp < 0x8000_0000_0000_0000u64
                && (pp << 1u64) < 0xffff_ffff_ffff_ffffu64
                && (((pp << 1u64) + 1) as u64) >> ((dd + 1) as u64) == 0
                && (pp << 1u64) >> ((dd + 1) as u64) == 0 && pp << 1u64 == ((pp * 2) as u64)) by (bit_vector);
        }
        let new_pattern = (self.pattern << 1) + 1;
        let old_pattern = self.pattern << 1;
        let mut next_table = Table::new(new_pattern);
        let ghost nt0 = next_table;
        next_table.local_depth = self.local_depth + 1;
        next_table.state = TableState::NewTable;
        proof {
            assert(next_table.bucket@ == nt0.bucket@);
            assert forall|k: KeyView| !#[trigger] next_table.contains_key(k) by {
                assert(!nt0.contains_key(k));
            }
            assert(buckets_inv(next_table.bucket@, d + 1, 2 * p + 1));
        }
        let mut invalid_buckets: Vec<u32> = Vec::new();
        proof {
            assert(moved_upto(bs0, d, p, 0) =~= Set::<(KeyView, Seq<u8>)>::empty());
        }
        let mut i: usize = 0;
        while i < K_NUM_BUCKET + K_STASH_BUCKET
            invariant
                *self == *old(self),
                bs0 == self.bucket@,
                d == self.local_depth as int,
                p == self.pattern as int,
                self.inv(),
                d < 64,
                i <= 66,
                next_table.inv(),
                next_table.local_depth == self.local_depth + 1,
                next_table.pattern == 2 * self.pattern + 1,
                unlocked(next_table.bucket@),
                next_table.entries() == moved_upto(bs0, d, p, i * 14),
                forall|k: KeyView| #[trigger] next_table.contains_key(k) ==> moved_key_upto(bs0, d, p, i * 14, k),
                invalid_buckets@.len() == i,
                forall|c: int, s: int| 0 <= c < i && 0 <= s < 14 ==> (bit_of(invalid_buckets@[c], s) == #[trigger] moving(bs0, d, p, c, s)),
                occupied(next_table.bucket@) <= occ_upto(bs0, i as int),
            decreases 66 - i,
        {
            match self.split_copy_bucket(i, &mut next_table) {
                Some(m) => {
                    proof {
                        lemma_moved_grows(bs0, d, p, i * 14, i * 14 + 14);
                        assert(next_table.entries() =~= moved_upto(bs0, d, p, i * 14 + 14));
                    }
                    invalid_buckets.push(m);
                },
                None => {
                    proof {
                        assert(occupied(bs0) >= 57);
                    }
                    return Err(SplitError::InternalError("a split item did not fit in the sibling".to_owned()));
                },
            }
            i += 1;
        }
        let mut c: usize = 0;
        while c < K_NUM_BUCKET + K_STASH_BUCKET
            invariant
                self.inv(),
                self.local_depth as int == d,
                self.pattern as int == p,
                self.number == old(self).number,
                bs0 == old(self).bucket@,
                d < 64,
                c <= 66,
                invalid_buckets@.len() == 66,
                forall|c2: int, s: int| 0 <= c2 < 66 && 0 <= s < 14 ==> (bit_of(invalid_buckets@[c2], s) == #[trigger] moving(bs0, d, p, c2, s)),
                self.entries() == entries(bs0) - moved_upto(bs0, d, p, c * 14),
                forall|c2: int| c <= c2 < 66 ==> (#[trigger] self.bucket@[c2]).same_slots(&bs0[c2]),
                forall|c2: int, s: int| 0 <= c2 < c && #[trigger] self.bucket@[c2].live(s) ==>
                    bs0[c2].live(s) && self.bucket@[c2].pairs@[s] == bs0[c2].pairs@[s] && !moving(bs0, d, p, c2, s),
                forall|c2: int, s: int| 0 <= c2 < c && #[trigger] bs0[c2].live(s) && !moving(bs0, d, p, c2, s) ==> self.bucket@[c2].live(s),
                forall|c2: int| 0 <= c2 < 66 ==> (#[trigger] self.bucket@[c2]).version_lock == bs0[c2].version_lock,
            decreases 66 - c,
        {
            let ghost cur = self.bucket@;
            proof {
                assert(cur[c as int].same_slots(&bs0[c as int]));
                assert forall|s: int| 0 <= s < 14 implies (bit_of(invalid_buckets@[c as int], s) == #[trigger] moving(cur, d, p, c as int, s)) by {
                    assert(moving(bs0, d, p, c as int, s) == moving(cur, d, p, c as int, s));
                }
            }
            self.split_clear_bucket(c, invalid_buckets[c]);
            proof {
                assert(moved_in(cur, d, p, c as int, 14) =~= moved_in(bs0, d, p, c as int, 14)) by {
                    assert forall|e: (KeyView, Seq<u8>)| moved_in(cur, d, p, c as int, 14).contains(e) == moved_in(bs0, d, p, c as int, 14).contains(e) by {
                        if moved_in(cur, d, p, c as int, 14).contains(e) {
                            let t = choose|t: int| 0 <= t < 14 && #[trigger] moving(cur, d, p, c as int, t) && cur[c as int].key_at(t) == e.0 && cur[c as int].value_at(t) == e.1;
                            assert(moving(bs0, d, p, c as int, t));
                        }
                        if moved_in(bs0, d, p, c as int, 14).contains(e) {
                            let t = choose|t: int| 0 <= t < 14 && #[trigger] moving(bs0, d, p, c as int, t) && bs0[c as int].key_at(t) == e.0 && bs0[c as int].value_at(t) == e.1;
                            assert(moving(cur, d, p, c as int, t));
                        }
                    }
                }
                assert(moved_upto(bs0, d, p, c * 14 + 14) =~= moved_upto(bs0, d, p, c * 14) + moved_in(bs0, d, p, c as int, 14)) by {
                    assert forall|e: (KeyView, Seq<u8>)| #[trigger] moved_upto(bs0, d, p, c * 14 + 14).contains(e) implies
                        (moved_upto(bs0, d, p, c * 14) + moved_in(bs0, d, p, c as int, 14)).contains(e) by {
                        let (c2, t) = choose|c2: int, t: int| 0 <= c2 < 66 && 0 <= t < 14 && c2 * 14 + t < c * 14 + 14
                            && #[trigger] moving(bs0, d, p, c2, t) && bs0[c2].key_at(t) == e.0 && bs0[c2].value_at(t) == e.1;
                        if c2 * 14 + t >= c * 14 {
                            assert(c2 == c);
                        }
                    }
                    assert forall|e: (KeyView, Seq<u8>)| #[trigger] moved_in(bs0, d, p, c as int, 14).contains(e) implies
                        moved_upto(bs0, d, p, c * 14 + 14).contains(e) by {
                        let t = choose|t: int| 0 <= t < 14 && #[trigger] moving(bs0, d, p, c as int, t) && bs0[c as int].key_at(t) == e.0 && bs0[c as int].value_at(t) == e.1;
                    }
                    lemma_moved_grows(bs0, d, p, c * 14, c * 14 + 14);
                }
                assert(self.entries() =~= entries(bs0) - moved_upto(bs0, d, p, c * 14 + 14));
                assert forall|c2: int, s: int| 0 <= c2 < c + 1 && #[trigger] self.bucket@[c2].live(s) implies
                    bs0[c2].live(s) && self.bucket@[c2].pairs@[s] == bs0[c2].pairs@[s] && !moving(bs0, d, p, c2, s) by {
                    if c2 < c {
                        assert(self.bucket@[c2].same_slots(&cur[c2]));
                        assert(cur[c2].live(s));
                    } else {
                        assert(moving(bs0, d, p, c2, s) == moving(cur, d, p, c2, s));
                    }
                }
                assert forall|c2: int, s: int| 0 <= c2 < c + 1 && #[trigger] bs0[c2].live(s) && !moving(bs0, d, p, c2, s) implies self.bucket@[c2].live(s) by {
                    if c2 < c {
                        assert(self.bucket@[c2].same_slots(&cur[c2]));
                        assert(cur[c2].live(s));
                    } else {
                        assert(moving(bs0, d, p, c2, s) == moving(cur, d, p, c2, s));
                    }
                }
                assert forall|c2: int| c + 1 <= c2 < 66 implies (#[trigger] self.bucket@[c2]).same_slots(&bs0[c2]) by {
                    assert(self.bucket@[c2].same_slots(&cur[c2]));
                }
            }
            c += 1;
        }
        proof {
            let bs = self.bucket@;
            assert forall|c2: int, s: int| 0 <= c2 < 66 && #[trigger] bs[c2].live(s) implies
                prefix(hash_of_key(bs[c2].key_at(s)), d + 1) == 2 * p by {
                assert(bs0[c2].live(s));
                assert(placed(bs0, d, p, c2, s));
                lemma_prefix_step(hash_of_key(bs0[c2].key_at(s)), d);
            }
            lemma_repattern(bs, d, p, d + 1, 2 * p);
        }
        self.local_depth = self.local_depth + 1;
        self.pattern = old_pattern;
        proof {
            let m = moved_upto(bs0, d, p, 924);
            let (fe, se) = (self.entries(), next_table.entries());
            assert(m.subset_of(entries(bs0))) by {
                assert forall|e: (KeyView, Seq<u8>)| #[trigger] m.contains(e) implies entries(bs0).contains(e) by {
                    let (c2, t) = choose|c2: int, t: int| 0 <= c2 < 66 && 0 <= t < 14 && c2 * 14 + t < 924
                        && #[trigger] moving(bs0, d, p, c2, t) && bs0[c2].key_at(t) == e.0 && bs0[c2].value_at(t) == e.1;
                    assert(bs0[c2].live(t));
                }
            }
            assert(entries(bs0) =~= fe + se);
            assert(fe.disjoint(se));
            assert forall|k: KeyView| !(#[trigger] self.contains_key(k) && next_table.contains_key(k)) by {
                if self.contains_key(k) && next_table.contains_key(k) {
                    let (c1, s1) = choose|c1: int, s1: int| 0 <= c1 < 66 && #[trigger] self.bucket@[c1].live(s1) && self.bucket@[c1].key_at(s1) == k;
                    let (c2, s2) = choose|c2: int, s2: int| 0 <= c2 < 66 && 0 <= s2 < 14 && c2 * 14 + s2 < 924
                        && #[trigger] moving(bs0, d, p, c2, s2) && bs0[c2].key_at(s2) == k;
                    assert(bs0[c1].live(s1));
                    assert(bs0[c2].live(s2));
                }
            }
            assert forall|k: KeyView| #![trigger holds_key(bs0, k)] holds_key(bs0, k) == (self.contains_key(k) || next_table.contains_key(k)) by {
                if holds_key(bs0, k) {
                    let (c1, s1) = choose|c1: int, s1: int| 0 <= c1 < 66 && #[trigger] bs0[c1].live(s1) && bs0[c1].key_at(s1) == k;
                    if moving(bs0, d, p, c1, s1) {
                        assert(m.contains((k, bs0[c1].value_at(s1))));
                        assert(se.contains((k, bs0[c1].value_at(s1))));
                        assert(next_table.bucket@.len() == 66);
                    } else {
                        assert(self.bucket@[c1].live(s1));
                    }
                }
                if self.contains_key(k) {
                    let (c1, s1) = choose|c1: int, s1: int| 0 <= c1 < 66 && #[trigger] self.bucket@[c1].live(s1) && self.bucket@[c1].key_at(s1) == k;
                    assert(bs0[c1].live(s1));
                }
                if next_table.contains_key(k) {
                    let (c2, s2) = choose|c2: int, s2: int| 0 <= c2 < 66 && 0 <= s2 < 14 && c2 * 14 + s2 < 924
                        && #[trigger] moving(bs0, d, p, c2, s2) && bs0[c2].key_at(s2) == k;
                    assert(bs0[c2].live(s2));
                }
            }
        }
        Ok(next_table)
    }
}

/// A key a segment holds carries the segment's prefix.
pub proof fn lemma_key_prefix(t: &Table, k: KeyView)
    requires
        t.inv(),
        t.contains_key(k),
    ensures
        prefix(hash_of_key(k), t.local_depth as int) == t.pattern as int,
{
    let bs = t.bucket@;
    let (c, s) = choose|c: int, s: int| 0 <= c < 66 && #[trigger] bs[c].live(s) && bs[c].key_at(s) == k;
    assert(placed(bs, t.local_depth as int, t.pattern as int, c, s));
}

/// A segment holds at most one value per key, and holds a key exactly when
/// it holds a pair with it.
pub proof fn lemma_entries_functional(t: &Table, k: KeyView)
    requires
        t.inv(),
    ensures
        forall|v1: Seq<u8>, v2: Seq<u8>| t.entries().contains((k, v1)) && t.entries().contains((k, v2)) ==> v1 == v2,
        t.contains_key(k) <==> exists|v: Seq<u8>| t.entries().contains((k, v)),
{
    let bs = t.bucket@;
    assert forall|v1: Seq<u8>, v2: Seq<u8>| t.entries().contains((k, v1)) && t.entries().contains((k, v2)) implies v1 == v2 by {
        let (c1, s1) = choose|c: int, s: int| 0 <= c < 66 && #[trigger] bs[c].live(s) && bs[c].key_at(s) == k && bs[c].value_at(s) == v1;
        let (c2, s2) = choose|c: int, s: int| 0 <= c < 66 && #[trigger] bs[c].live(s) && bs[c].key_at(s) == k && bs[c].value_at(s) == v2;
    }
    if t.contains_key(k) {
        let (c, s) = choose|c: int, s: int| 0 <= c < 66 && #[trigger] bs[c].live(s) && bs[c].key_at(s) == k;
        assert(t.entries().contains((k, bs[c].value_at(s))));
    }
    if exists|v: Seq<u8>| t.entries().contains((k, v)) {
        let v = choose|v: Seq<u8>| t.entries().contains((k, v));
        let (c, s) = choose|c: int, s: int| 0 <= c < 66 && #[trigger] bs[c].live(s) && bs[c].key_at(s) == k && bs[c].value_at(s) == v;
    }
}

/// An item in a stash bucket of a well-formed segment is discoverable: its
/// home bucket carries the stash-check hint, and the records of spills from
/// that home bucket number at least the stash items it owns.
pub proof fn lemma_stash_discoverable(t: &Table, sb: int, s: int)
    requires
        t.inv(),
        sb == 64 || sb == 65,
        t.bucket@[sb].live(s),
    ensures
        t.bucket@[home_bucket(hash_of_key(t.bucket@[sb].key_at(s)))].stash_hint(),
        stash_count(t.bucket@, home_bucket(hash_of_key(t.bucket@[sb].key_at(s))))
            <= indicators(&t.bucket@[home_bucket(hash_of_key(t.bucket@[sb].key_at(s)))],
                &t.bucket@[next_of(home_bucket(hash_of_key(t.bucket@[sb].key_at(s))))]),
        indicators(&t.bucket@[home_bucket(hash_of_key(t.bucket@[sb].key_at(s)))],
                &t.bucket@[next_of(home_bucket(hash_of_key(t.bucket@[sb].key_at(s))))]) > 0,
{
    let bs = t.bucket@;
    let h = home_bucket(hash_of_key(bs[sb].key_at(s)));
    assert(placed(bs, t.local_depth as int, t.pattern as int, sb, s));
    assert(0 <= h < 64) by {
        let x = hash_of_key(bs[sb].key_at(s));
        lemma_home_bound(x);
    }
    let x = stash_number(sb, s);
    assert(stash_bucket_of(x) == sb && stash_slot_of(x) == s);
    lemma_stash_count_pos(bs, x, h);
}

} // verus!
