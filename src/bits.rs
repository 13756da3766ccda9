//! The packed bucket metadata word and small bit helpers.
//!
//! A bucket's 32-bit `bitmap` holds, from the top: fourteen allocation bits
//! (bits 18..31, one per slot), fourteen membership bits (bits 4..17, set for
//! a slot that hosts an entry of the left neighbour) and a four-bit occupancy
//! count (bits 0..3).
use vstd::prelude::*;

verus! {

pub const COUNT_MASK: u32 = 15;

pub const ALLOC_MASK: u32 = 16383;

/// Bit `i` of a word.
pub open spec fn bit_of(x: u32, i: int) -> bool {
    0 <= i < 32 && (x >> (i as u32)) & 1 == 1
}

/// Bit `i` of a byte.
pub open spec fn bit8(x: u8, i: int) -> bool {
    0 <= i < 8 && (x >> (i as u8)) & 1 == 1
}

/// Whether slot `i` is allocated.
pub open spec fn alloc_bit(bm: u32, i: int) -> bool {
    0 <= i < 14 && bit_of(bm, i + 18)
}

/// Whether slot `i` hosts an entry of the left neighbour.
pub open spec fn member_bit(bm: u32, i: int) -> bool {
    0 <= i < 14 && bit_of(bm, i + 4)
}

/// The occupancy counter.
pub open spec fn count_field(bm: u32) -> u32 {
    bm & 15
}

/// The allocation bitmap as a sequence of fourteen flags.
pub open spec fn alloc_seq(bm: u32) -> Seq<bool> {
    Seq::new(14, |i: int| alloc_bit(bm, i))
}

/// The number of set flags.
pub open spec fn count_true(s: Seq<bool>) -> nat
    decreases s.len(),
{
    if s.len() == 0 {
        0
    } else {
        count_true(s.drop_last()) + if s.last() { 1nat } else { 0nat }
    }
}

/// The number of allocated slots.
pub open spec fn popcount_alloc(bm: u32) -> nat {
    count_true(alloc_seq(bm))
}

/// The consistency of a metadata word: the counter equals the number of
/// allocated slots, and every membership bit lies on an allocated slot.
pub open spec fn bitmap_ok(bm: u32) -> bool {
    &&& count_field(bm) == popcount_alloc(bm)
    &&& forall|i: int| #[trigger] member_bit(bm, i) ==> alloc_bit(bm, i)
}

pub proof fn lemma_count_update(s: Seq<bool>, i: int, b: bool)
    requires
        0 <= i < s.len(),
    ensures
        count_true(s.update(i, b)) + (if s[i] { 1int } else { 0int }) == count_true(s) + (if b { 1int } else { 0int }),
    decreases s.len(),
{
    let t = s.update(i, b);
    if i == s.len() - 1 {
        assert(t.drop_last() =~= s.drop_last());
    } else {
        assert(t.drop_last() =~= s.drop_last().update(i, b));
        lemma_count_update(s.drop_last(), i, b);
    }
}

pub proof fn lemma_count_bounds(s: Seq<bool>)
    ensures
        count_true(s) <= s.len(),
        count_true(s) == s.len() ==> forall|i: int| 0 <= i < s.len() ==> s[i],
    decreases s.len(),
{
    if s.len() > 0 {
        lemma_count_bounds(s.drop_last());
        if count_true(s) == s.len() {
            assert forall|i: int| 0 <= i < s.len() implies s[i] by {
                if i < s.len() - 1 {
                    assert(s[i] == s.drop_last()[i]);
                }
            }
        }
    }
}

pub proof fn lemma_count_zero(s: Seq<bool>)
    ensures
        count_true(s) == 0 <==> forall|i: int| 0 <= i < s.len() ==> !s[i],
    decreases s.len(),
{
    if s.len() > 0 {
        lemma_count_zero(s.drop_last());
        if count_true(s) == 0 {
            assert forall|i: int| 0 <= i < s.len() implies !s[i] by {
                if i < s.len() - 1 {
                    assert(s[i] == s.drop_last()[i]);
                }
            }
        } else if forall|i: int| 0 <= i < s.len() ==> !s[i] {
            assert forall|i: int| 0 <= i < s.drop_last().len() implies !s.drop_last()[i] by {
                assert(s.drop_last()[i] == s[i]);
            }
            assert(!s[s.len() - 1]);
        }
    }
}

pub proof fn lemma_count_all(s: Seq<bool>)
    requires
        forall|i: int| 0 <= i < s.len() ==> s[i],
    ensures
        count_true(s) == s.len(),
    decreases s.len(),
{
    if s.len() > 0 {
        assert forall|i: int| 0 <= i < s.drop_last().len() implies s.drop_last()[i] by {
            assert(s.drop_last()[i] == s[i]);
        }
        lemma_count_all(s.drop_last());
    }
}

/// Setting bit `i` of a word changes that bit alone.
pub proof fn lemma_u32_set(x: u32, i: u32)
    requires
        i < 32,
    ensures
        forall|j: int| #[trigger] bit_of(x | (1u32 << i), j) == (bit_of(x, j) || (j == i)),
{
    assert forall|j: int| #[trigger] bit_of(x | (1u32 << i), j) == (bit_of(x, j) || (j == i)) by {
        if 0 <= j < 32 {
            let k = j as u32;
            let y = x | (1u32 << i);
            assert(((y >> k) & 1 == 1) == (((x >> k) & 1 == 1) || k == i)) by (bit_vector)
                requires y == x | (1u32 << i), i < 32, k < 32;
        }
    }
}

/// Setting bit `i` of a byte changes that bit alone.
pub proof fn lemma_u8_set(x: u8, i: u8)
    requires
        i < 8,
    ensures
        forall|j: int| #[trigger] bit8(x | (1u8 << i), j) == (bit8(x, j) || (j == i)),
{
    assert forall|j: int| #[trigger] bit8(x | (1u8 << i), j) == (bit8(x, j) || (j == i)) by {
        if 0 <= j < 8 {
            let k = j as u8;
            let y = x | (1u8 << i);
            assert(((y >> k) & 1 == 1) == (((x >> k) & 1 == 1) || k == i)) by (bit_vector)
                requires y == x | (1u8 << i), i < 8, k < 8;
        }
    }
}

/// Clearing bit `i` of a byte changes that bit alone.
pub proof fn lemma_u8_clear(x: u8, i: u8)
    requires
        i < 8,
    ensures
        forall|j: int| #[trigger] bit8(x & !(1u8 << i), j) == (bit8(x, j) && (j != i)),
{
    assert forall|j: int| #[trigger] bit8(x & !(1u8 << i), j) == (bit8(x, j) && (j != i)) by {
        if 0 <= j < 8 {
            let k = j as u8;
            let y = x & !(1u8 << i);
            assert(((y >> k) & 1 == 1) == (((x >> k) & 1 == 1) && k != i)) by (bit_vector)
                requires y == x & !(1u8 << i), i < 8, k < 8;
        }
    }
}

/// Setting slot `idx` (free before) in a consistent word, and bumping the
/// counter, gives a consistent word with exactly that slot added.
pub proof fn lemma_set_slot(bm: u32, idx: u32, probe: bool, mid: u32)
    requires
        bitmap_ok(bm),
        idx < 14,
        !alloc_bit(bm, idx as int),
        mid == (if probe { bm | (1u32 << (idx + 18)) | (1u32 << (idx + 4)) } else { bm | (1u32 << (idx + 18)) }),
    ensures
        mid < u32::MAX,
        bitmap_ok((mid + 1) as u32),
        count_field((mid + 1) as u32) == count_field(bm) + 1,
        forall|j: int| #[trigger] alloc_bit((mid + 1) as u32, j) == (alloc_bit(bm, j) || j == idx),
        forall|j: int| #[trigger] member_bit((mid + 1) as u32, j) == (member_bit(bm, j) || (probe && j == idx)),
{
    lemma_count_update(alloc_seq(bm), idx as int, true);
    lemma_count_bounds(alloc_seq(bm));
    assert(count_field(bm) < 14) by {
        assert(!alloc_seq(bm)[idx as int]);
    }
    let c = bm & 15;
    assert(c < 14);
    let pm: u32 = if probe { 1u32 << (idx + 4) } else { 0u32 };
    assert(mid == bm | (1u32 << (idx + 18)) | pm) by {
        if !probe {
            assert(bm | (1u32 << (idx + 18)) | 0u32 == bm | (1u32 << (idx + 18))) by (bit_vector);
        }
    }
    let new_bm = (mid + 1) as u32;
    assert(mid < 0xffff_ffffu32 && new_bm & 15 == c + 1) by (bit_vector)
        requires
            c == bm & 15, c < 14, idx < 14, mid == bm | (1u32 << (idx + 18)) | pm,
            pm == 0 || pm == 1u32 << (idx + 4), new_bm == (mid + 1) as u32;
    assert(probe == (pm != 0)) by {
        if probe {
            assert(idx < 14 ==> 1u32 << (idx + 4) != 0) by (bit_vector);
        }
    }
    assert forall|j: int| #[trigger] alloc_bit(new_bm, j) == (alloc_bit(bm, j) || j == idx) by {
        if 0 <= j < 14 {
            let k = j as u32;
            assert((k + 18) as int == j + 18);
            assert(((new_bm >> (k + 18)) & 1 == 1) == (((bm >> (k + 18)) & 1 == 1) || k == idx))
                by (bit_vector)
                requires
                    mid == bm | (1u32 << (idx + 18)) | pm,
                    pm == 0 || pm == 1u32 << (idx + 4),
                    new_bm == (mid + 1) as u32,
                    bm & 15 < 14, k < 14, idx < 14;
        }
    }
    assert forall|j: int| #[trigger] member_bit(new_bm, j) == (member_bit(bm, j) || (probe && j == idx)) by {
        if 0 <= j < 14 {
            let k = j as u32;
            assert((k + 4) as int == j + 4);
            assert(((new_bm >> (k + 4)) & 1 == 1) == (((bm >> (k + 4)) & 1 == 1) || (pm != 0 && k == idx)))
                by (bit_vector)
                requires
                    mid == bm | (1u32 << (idx + 18)) | pm,
                    pm == 0 || pm == 1u32 << (idx + 4),
                    new_bm == (mid + 1) as u32,
                    bm & 15 < 14, k < 14, idx < 14;
        }
    }
    assert(alloc_seq(new_bm) =~= alloc_seq(bm).update(idx as int, true));
}

/// Clearing allocated slot `idx` of a consistent word, and lowering the
/// counter, gives a consistent word with exactly that slot removed.
pub proof fn lemma_clear_slot(bm: u32, idx: u32, mid: u32)
    requires
        bitmap_ok(bm),
        idx < 14,
        alloc_bit(bm, idx as int),
        mid == bm & !(1u32 << (idx + 18)) & !(1u32 << (idx + 4)),
    ensures
        mid >= 1,
        bitmap_ok((mid - 1) as u32),
        count_field((mid - 1) as u32) + 1 == count_field(bm),
        forall|j: int| #[trigger] alloc_bit((mid - 1) as u32, j) == (alloc_bit(bm, j) && j != idx),
        forall|j: int| #[trigger] member_bit((mid - 1) as u32, j) == (member_bit(bm, j) && j != idx),
{
    lemma_count_update(alloc_seq(bm), idx as int, false);
    lemma_count_bounds(alloc_seq(bm));
    let c = bm & 15;
    assert(c >= 1);
    assert(c <= 14);
    let new_bm = (mid - 1) as u32;
    assert(mid >= 1 && new_bm & 15 == c - 1) by (bit_vector)
        requires c == bm & 15, c >= 1, idx < 14, mid == bm & !(1u32 << (idx + 18)) & !(1u32 << (idx + 4)),
            new_bm == (mid - 1) as u32;
    assert forall|j: int| #[trigger] alloc_bit(new_bm, j) == (alloc_bit(bm, j) && j != idx) by {
        if 0 <= j < 14 {
            let k = j as u32;
            assert((k + 18) as int == j + 18);
            assert(((new_bm >> (k + 18)) & 1 == 1) == (((bm >> (k + 18)) & 1 == 1) && k != idx))
                by (bit_vector)
                requires
                    mid == bm & !(1u32 << (idx + 18)) & !(1u32 << (idx + 4)),
                    new_bm == (mid - 1) as u32,
                    bm & 15 >= 1, k < 14, idx < 14;
        }
    }
    assert forall|j: int| #[trigger] member_bit(new_bm, j) == (member_bit(bm, j) && j != idx) by {
        if 0 <= j < 14 {
            let k = j as u32;
            assert((k + 4) as int == j + 4);
            assert(((new_bm >> (k + 4)) & 1 == 1) == (((bm >> (k + 4)) & 1 == 1) && k != idx))
                by (bit_vector)
                requires
                    mid == bm & !(1u32 << (idx + 18)) & !(1u32 << (idx + 4)),
                    new_bm == (mid - 1) as u32,
                    bm & 15 >= 1, k < 14, idx < 14;
        }
    }
    assert(alloc_seq(new_bm) =~= alloc_seq(bm).update(idx as int, false));
}

/// The occupancy counter of a metadata word.
pub fn get_count(var: u32) -> (r: u32)
    ensures
        r == count_field(var),
{
    var & COUNT_MASK
}

/// The allocation bitmap of a metadata word, one bit per slot.
pub fn get_bitmap(var: u32) -> (r: u32)
    ensures
        forall|i: int| 0 <= i < 14 ==> (bit_of(r, i) == #[trigger] alloc_bit(var, i)),
        forall|i: int| 14 <= i < 32 ==> !#[trigger] bit_of(r, i),
{
    let r = var >> 18;
    assert forall|i: int| 0 <= i < 32 implies (bit_of(r, i) == (i < 14 && alloc_bit(var, i))) by {
        let k = i as u32;
        assert((k + 18) as int == i + 18);
        assert(((r >> k) & 1 == 1) == (k < 14 && (var >> (k + 18)) & 1 == 1)) by (bit_vector)
            requires r == var >> 18, k < 32;
    }
    r
}

/// The membership bitmap of a metadata word, one bit per slot.
pub fn get_member(var: u32) -> (r: u32)
    ensures
        forall|i: int| 0 <= i < 14 ==> (bit_of(r, i) == #[trigger] member_bit(var, i)),
        forall|i: int| 14 <= i < 32 ==> !#[trigger] bit_of(r, i),
{
    let r = (var >> 4) & ALLOC_MASK;
    assert forall|i: int| 0 <= i < 32 implies (bit_of(r, i) == (i < 14 && member_bit(var, i))) by {
        let k = i as u32;
        assert((k + 4) as int == i + 4);
        assert(((r >> k) & 1 == 1) == (k < 14 && (var >> (k + 4)) & 1 == 1)) by (bit_vector)
            requires r == (var >> 4) & 16383, k < 32;
    }
    r
}

/// The slots whose membership bit is clear, one bit per slot.
pub fn get_inverse_member(var: u32) -> (r: u32)
    ensures
        forall|i: int| 0 <= i < 14 ==> (bit_of(r, i) == !#[trigger] member_bit(var, i)),
        forall|i: int| 14 <= i < 32 ==> !#[trigger] bit_of(r, i),
{
    let r = !(var >> 4) & ALLOC_MASK;
    assert forall|i: int| 0 <= i < 32 implies (bit_of(r, i) == (i < 14 && !member_bit(var, i))) by {
        let k = i as u32;
        assert((k + 4) as int == i + 4);
        assert(((r >> k) & 1 == 1) == (k < 14 && (var >> (k + 4)) & 1 != 1)) by (bit_vector)
            requires r == !(var >> 4) & 16383, k < 32;
    }
    r
}

/// Whether bit `pos` of a byte is set.
pub fn check_bit(var: u8, pos: u32) -> (r: bool)
    requires
        pos < 8,
    ensures
        r == bit8(var, pos as int),
{
    let p = pos as u8;
    let r = var & (1u8 << p) > 0;
    assert(r == ((var >> p) & 1 == 1)) by (bit_vector)
        requires r == (var & (1u8 << p) > 0), p < 8;
    r
}

/// Whether bit `pos` of a word is set.
pub fn check_bit_32(var: u32, pos: u32) -> (r: bool)
    requires
        pos < 32,
    ensures
        r == bit_of(var, pos as int),
{
    let r = var & (1u32 << pos) > 0;
    assert(r == ((var >> pos) & 1 == 1)) by (bit_vector)
        requires r == (var & (1u32 << pos) > 0), pos < 32;
    r
}

} // verus!
