//! The directory: 2^G entries, each naming the segment that claims the top
//! G bits of a hash, over a heap of segments.
use vstd::prelude::*;
use vstd::arithmetic::power2::pow2;
use crate::pair::{KeyView, hash_of_key};
use crate::table::{
    Table, buckets_inv, lemma_occ_same, occupied, lemma_entries_functional, lemma_key_prefix, lemma_prefix_step, prefix, unlocked,
};

verus! {

/// The largest global depth the directory grows to.
pub const MAX_GLOBAL_DEPTH: usize = 30;

/// The top `d` of the `g` bits of directory index `i`.
pub open spec fn entry_prefix(i: int, g: int, d: int) -> int {
    if d <= 0 {
        0
    } else {
        ((i as u64) >> ((g - d) as u64)) as int
    }
}

/// The directory index of hash `h` is its top `g` bits; their top `d` bits
/// are the top `d` bits of `h`.
pub proof fn lemma_route(h: u64, g: int, d: int)
    requires
        0 <= d <= g <= 64,
    ensures
        entry_prefix(prefix(h, g), g, d) == prefix(h, d),
{
    if d > 0 {
        let a = (64 - g) as u64;
        let b = (g - d) as u64;
        let x = h >> a;
        lemma_shr_compose(h, a, b);
        assert(prefix(h, g) == x as int);
    }
}

/// Shifting right twice is shifting right once by the sum.
pub proof fn lemma_shr_compose(h: u64, a: u64, b: u64)
    requires
        a + b < 64,
    ensures
        (h >> a) >> b == h >> ((a + b) as u64),
{
    vstd::bits::lemma_u64_shr_is_div(h, a);
    vstd::bits::lemma_u64_shr_is_div(h >> a, b);
    vstd::bits::lemma_u64_shr_is_div(h, (a + b) as u64);
    vstd::arithmetic::power2::lemma_pow2_adds(a as nat, b as nat);
    vstd::arithmetic::power2::lemma_pow2_pos(a as nat);
    vstd::arithmetic::power2::lemma_pow2_pos(b as nat);
    vstd::arithmetic::div_mod::lemma_div_denominator(h as int, pow2(a as nat) as int, pow2(b as nat) as int);
}

/// One more index bit: the top `d` bits of `i` are the top `d` bits of `i / 2`
/// one level up.
pub proof fn lemma_entry_double(j: int, g: int, d: int)
    requires
        0 <= d <= g < 64,
        0 <= j < 0x1_0000_0000_0000_0000,
    ensures
        entry_prefix(j, g + 1, d) == entry_prefix(j / 2, g, d),
{
    if d > 0 {
        let x = j as u64;
        let b = (g - d) as u64;
        assert((x >> ((b + 1) as u64)) == ((x >> 1u64) >> b)) by (bit_vector) requires b < 64;
        assert(x >> 1u64 == x / 2) by (bit_vector);
    }
}

/// The top `d + 1` bits of an index, less their last, are its top `d` bits.
pub proof fn lemma_entry_step(j: int, g: int, d: int)
    requires
        0 <= d < g < 64,
        0 <= j < 0x1_0000_0000_0000_0000,
        (j as u64) >> (g as u64) == 0,
    ensures
        entry_prefix(j, g, d) == entry_prefix(j, g, d + 1) / 2,
{
    let x = j as u64;
    let b = (g - d - 1) as u64;
    let gg = g as u64;
    assert((x >> b) >> 1u64 == ((x >> b) / 2) as u64) by (bit_vector);
    if d == 0 {
        assert((x >> b) >> 1u64 == x >> gg) by (bit_vector) requires b + 1 == gg, gg < 64;
    } else {
        assert((x >> ((b + 1) as u64)) == ((x >> b) >> 1u64)) by (bit_vector) requires b < 64;
    }
}

/// The directory: `segments` maps each of the 2^G indices to a segment of
/// `tables`, the heap of segments. Several entries may name one segment.
pub struct Directory {
    pub segments: Vec<usize>,
    pub tables: Vec<Table>,
    pub global_depth: usize,
    pub version: usize,
    pub depth_count: usize,
}

impl Directory {
    /// Whether segment `t` claims directory index `i`: its pattern is the top
    /// bits of `i`.
    pub open spec fn claims(&self, t: int, i: int) -> bool {
        entry_prefix(i, self.global_depth as int, self.tables@[t].local_depth as int) == self.tables@[t].pattern as int
    }

    /// The invariant of the directory: every index names the one segment
    /// that claims it, and every segment is well formed and unlocked.
    pub open spec fn wf(&self) -> bool {
        let g = self.global_depth as int;
        let n = self.segments@.len();
        &&& g <= MAX_GLOBAL_DEPTH
        &&& forall|h: u64| #[trigger] prefix(h, g) < n
        &&& n == pow2(self.global_depth as nat)
        &&& self.depth_count == self.tables@.len()
        &&& forall|i: int| 0 <= i < n ==> (#[trigger] self.segments@[i]) < self.tables@.len()
        &&& forall|t: int| 0 <= t < self.tables@.len() ==> {
            &&& (#[trigger] self.tables@[t]).inv()
            &&& self.tables@[t].local_depth <= g
            &&& unlocked(self.tables@[t].bucket@)
        }
        &&& forall|i: int| 0 <= i < n ==> self.claims(#[trigger] self.segments@[i] as int, i)
        &&& forall|t: int, i: int| 0 <= t < self.tables@.len() && 0 <= i < n && #[trigger] self.claims(t, i) ==> self.segments@[i] == t
    }

    /// The segment that a hash routes to.
    pub open spec fn route(&self, h: u64) -> int {
        self.segments@[prefix(h, self.global_depth as int)] as int
    }

    /// Whether some segment holds key `k`.
    pub open spec fn has(&self, k: KeyView) -> bool {
        exists|t: int| 0 <= t < self.tables@.len() && #[trigger] self.tables@[t].contains_key(k)
    }

    /// Whether some segment holds key `k` with value `v`.
    pub open spec fn holds(&self, k: KeyView, v: Seq<u8>) -> bool {
        exists|t: int| 0 <= t < self.tables@.len() && #[trigger] self.tables@[t].entries().contains((k, v))
    }

    /// What the index holds, as a map.
    pub open spec fn map(&self) -> Map<KeyView, Seq<u8>> {
        Map::new(|k: KeyView| self.has(k), |k: KeyView| choose|v: Seq<u8>| self.holds(k, v))
    }

    /// A key can only be where its hash routes it.
    pub proof fn lemma_routed(&self, k: KeyView)
        requires
            self.wf(),
        ensures
            0 <= self.route(hash_of_key(k)) < self.tables@.len(),
            self.has(k) <==> self.tables@[self.route(hash_of_key(k))].contains_key(k),
            forall|v: Seq<u8>| self.holds(k, v) <==> #[trigger] self.tables@[self.route(hash_of_key(k))].entries().contains((k, v)),
            forall|v: Seq<u8>| self.map().contains_key(k) && self.map()[k] == v <==> #[trigger] self.holds(k, v),
            forall|u: int| 0 <= u < self.tables@.len() && #[trigger] self.tables@[u].contains_key(k) ==> u == self.route(hash_of_key(k)),
    {
        let h = hash_of_key(k);
        let g = self.global_depth as int;
        let i = prefix(h, g);
        assert(0 <= i < self.segments@.len());
        let r = self.route(h);
        assert(self.segments@[i] < self.tables@.len());
        assert forall|t: int| 0 <= t < self.tables@.len() && #[trigger] self.tables@[t].contains_key(k) implies t == r by {
            let tb = self.tables@[t];
            assert(tb.inv());
            lemma_key_prefix(&tb, k);
            lemma_route(h, g, tb.local_depth as int);
            assert(self.claims(t, i));
        }
        assert forall|v: Seq<u8>| self.holds(k, v) <==> #[trigger] self.tables@[r].entries().contains((k, v)) by {
            if self.holds(k, v) {
                let t = choose|t: int| 0 <= t < self.tables@.len() && #[trigger] self.tables@[t].entries().contains((k, v));
                lemma_entries_functional(&self.tables@[t], k);
                assert(self.tables@[t].contains_key(k));
            }
        }
        lemma_entries_functional(&self.tables@[r], k);
        assert forall|v: Seq<u8>| self.map().contains_key(k) && self.map()[k] == v <==> #[trigger] self.holds(k, v) by {
            if self.holds(k, v) {
                assert(self.tables@[r].entries().contains((k, v)));
                assert(self.tables@[r].contains_key(k));
                let w = choose|w: Seq<u8>| self.holds(k, w);
                assert(self.holds(k, w));
                assert(self.tables@[r].entries().contains((k, w)));
            }
            if self.map().contains_key(k) {
                let w = choose|w: Seq<u8>| self.holds(k, w);
                assert(self.tables@[r].entries().contains((k, w)) || !self.holds(k, w));
                if !self.holds(k, w) {
                    let v0 = choose|v0: Seq<u8>| self.tables@[r].entries().contains((k, v0));
                    assert(self.holds(k, v0));
                }
            }
        }
    }

    /// Every hash is routed to a segment whose pattern is the hash's own
    /// prefix at that segment's depth: the entries cover the whole hash space,
    /// each part by the one segment that claims it.
    pub proof fn lemma_route_claims(&self, h: u64)
        requires
            self.wf(),
        ensures
            0 <= self.route(h) < self.tables@.len(),
            prefix(h, self.tables@[self.route(h)].local_depth as int) == self.tables@[self.route(h)].pattern as int,
    {
        let i = prefix(h, self.global_depth as int);
        assert(self.claims(self.segments@[i] as int, i));
        lemma_route(h, self.global_depth as int, self.tables@[self.route(h)].local_depth as int);
    }

    /// A directory of `capacity` entries rounded up to a power of two, each
    /// naming an empty segment of its own.
    pub fn new(capacity: usize, version: usize) -> (r: Directory)
        requires
            1 <= capacity <= 0x4000_0000,
        ensures
            r.wf(),
            r.map() == Map::<KeyView, Seq<u8>>::empty(),
            r.segments@.len() >= capacity,
            r.version == version,
            r.depth_count == r.segments@.len(),
            forall|i: int| 0 <= i < r.segments@.len() ==> #[trigger] r.segments@[i] == i && r.tables@[i].pattern == i
                && r.tables@[i].local_depth == r.global_depth,
            forall|g: int| 0 <= g <= 30 && #[trigger] pow2(g as nat) == capacity ==> r.global_depth == g && r.segments@.len() == capacity,
    {
        let mut c: usize = 1;
        let mut g: usize = 0;
        proof {
            vstd::arithmetic::power2::lemma2_to64();
        }
        while c < capacity
            invariant
                1 <= capacity <= 0x4000_0000,
                c as int == pow2(g as nat),
                c >= 1,
                g <= 30,
                c <= 0x4000_0000,
                forall|h: u64| #[trigger] prefix(h, g as int) < c,
                forall|g2: int| 0 <= g2 <= 30 && #[trigger] pow2(g2 as nat) == capacity ==> g <= g2,
            decreases 30 - g,
        {
            proof {
                assert forall|h: u64| #[trigger] prefix(h, g as int + 1) < 2 * c by {
                    lemma_prefix_step(h, g as int);
                }
                vstd::arithmetic::power2::lemma_pow2_unfold((g + 1) as nat);
                assert forall|g2: int| 0 <= g2 <= 30 && #[trigger] pow2(g2 as nat) == capacity implies g + 1 <= g2 by {
                    if g2 < g {
                        vstd::arithmetic::power2::lemma_pow2_strictly_increases(g2 as nat, g as nat);
                    }
                }
                vstd::arithmetic::power2::lemma2_to64();
                if g >= 30 {
                    if g > 30 {
                        vstd::arithmetic::power2::lemma_pow2_strictly_increases(30, g as nat);
                    }
                    assert(false);
                }
                assert(2 * c <= 0x4000_0000) by {
                    if g + 1 < 30 {
                        vstd::arithmetic::power2::lemma_pow2_strictly_increases((g + 1) as nat, 30);
                    }
                }
            }
            c = c * 2;
            g = g + 1;
        }
        let mut segments: Vec<usize> = Vec::new();
        let mut tables: Vec<Table> = Vec::new();
        let mut i: usize = 0;
        while i < c
            invariant
                c as int == pow2(g as nat),
                g <= 30,
                c <= 0x4000_0000,
                i <= c,
                segments@.len() == i,
                tables@.len() == i,
                forall|j: int| 0 <= j < i ==> #[trigger] segments@[j] == j,
                forall|j: int| 0 <= j < i ==> {
                    &&& (#[trigger] tables@[j]).inv()
                    &&& tables@[j].local_depth == g
                    &&& tables@[j].pattern == j
                    &&& unlocked(tables@[j].bucket@)
                    &&& forall|k: KeyView| !tables@[j].contains_key(k)
                },
            decreases c - i,
        {
            let mut t = Table::new(i as u64);
            let ghost t0 = t;
            t.local_depth = g;
            proof {
                vstd::bits::lemma_u64_shr_is_div(i as u64, g as u64);
                vstd::arithmetic::div_mod::lemma_basic_div(i as int, c as int);
                assert(buckets_inv(t.bucket@, g as int, i as int));
                assert(t.inv());
                assert(t.bucket@ == t0.bucket@);
                assert forall|k: KeyView| !t.contains_key(k) by {
                    assert(!t0.contains_key(k));
                }
                assert(unlocked(t.bucket@));
            }
            tables.push(t);
            segments.push(i);
            i += 1;
        }
        let r = Directory { segments, tables, global_depth: g, version, depth_count: c };
        proof {
            let gg = r.global_depth as int;

            assert forall|t: int, j: int| 0 <= t < c && 0 <= j < c implies (#[trigger] r.claims(t, j)) == (t == j) by {
                if g > 0 {
                    vstd::bits::lemma_u64_shr_is_div(j as u64, 0);
                    vstd::arithmetic::power2::lemma2_to64();
                } else {
                    assert(c == 1);
                }
            }
            assert forall|k: KeyView| !r.has(k) by {
                if r.has(k) {
                    let t = choose|t: int| 0 <= t < r.tables@.len() && #[trigger] r.tables@[t].contains_key(k);
                    assert(!r.tables@[t].contains_key(k));
                }
            }
            assert(r.map() =~= Map::<KeyView, Seq<u8>>::empty());
            assert(r.global_depth <= MAX_GLOBAL_DEPTH);
            assert(forall|h: u64| #[trigger] prefix(h, g as int) < r.segments@.len());
            assert(forall|t: int| 0 <= t < r.tables@.len() ==> {
                &&& (#[trigger] r.tables@[t]).inv()
                &&& r.tables@[t].local_depth <= g
                &&& unlocked(r.tables@[t].bucket@)
            });
            assert(forall|j: int| 0 <= j < r.segments@.len() ==> r.claims(#[trigger] r.segments@[j] as int, j));
            assert(forall|t: int, j: int| 0 <= t < r.tables@.len() && 0 <= j < r.segments@.len() && #[trigger] r.claims(t, j) ==> r.segments@[j] == t);
            let n = r.segments@.len();
            assert(forall|h: u64| #[trigger] prefix(h, gg) < n);
            assert(forall|t: int| 0 <= t < r.tables@.len() ==> {
                &&& (#[trigger] r.tables@[t]).inv()
                &&& r.tables@[t].local_depth <= gg
                &&& unlocked(r.tables@[t].bucket@)
            });
        }
        r
    }
}

/// Index `j` has no more than `g` bits.
pub proof fn lemma_index_fits(j: int, g: int)
    requires
        0 <= g <= 30,
        0 <= j < pow2(g as nat),
    ensures
        ((j as u64) >> (g as u64)) == 0,
        0 <= j < 0x1_0000_0000_0000_0000,
{
    vstd::arithmetic::power2::lemma2_to64();
    if g < 30 {
        vstd::arithmetic::power2::lemma_pow2_strictly_increases(g as nat, 30);
    }
    vstd::bits::lemma_u64_shr_is_div(j as u64, g as u64);
    vstd::arithmetic::div_mod::lemma_basic_div(j, pow2(g as nat) as int);
}

/// At full depth an index's prefix is the index itself.
pub proof fn lemma_entry_full(j: int, g: int)
    requires
        0 < g <= 64,
        0 <= j < 0x1_0000_0000_0000_0000,
    ensures
        entry_prefix(j, g, g) == j,
{
    let x = j as u64;
    assert(x >> 0u64 == x) by (bit_vector);
}

impl Directory {
    /// Splits the segment that index `idx` names and publishes the sibling:
    /// the entries whose top bits now match the sibling's pattern name it,
    /// doubling the directory first when the segment already claims every
    /// bit of an index. Nothing changes when that cannot be done.
    pub fn split_segment(&mut self, idx: usize) -> (r: bool)
        requires
            old(self).wf(),
            idx < old(self).segments@.len(),
        ensures
            final(self).wf(),
            final(self).map() == old(self).map(),
            r ==> forall|h: u64| #[trigger] old(self).route(h) == old(self).segments@[idx as int] ==>
                final(self).tables@[final(self).route(h)].local_depth == old(self).tables@[old(self).segments@[idx as int] as int].local_depth + 1,
            r ==> final(self).tables@.len() == old(self).tables@.len() + 1,
            r ==> final(self).depth_count == old(self).depth_count + 1,
            !(old(self).tables@[old(self).segments@[idx as int] as int].local_depth == old(self).global_depth
                && old(self).global_depth >= MAX_GLOBAL_DEPTH)
                && occupied(old(self).tables@[old(self).segments@[idx as int] as int].bucket@) <= 56 ==> r,
    {
        let t = self.segments[idx];
        let d = self.tables[t].local_depth;
        if d == self.global_depth && self.global_depth >= MAX_GLOBAL_DEPTH {
            return false;
        }
        let ghost d0 = *self;
        let ghost g = self.global_depth as int;
        let ghost n = self.segments@.len() as int;
        let ghost p = self.tables@[t as int].pattern as int;
        proof {
            assert(d0.tables@[t as int].inv());
            assert(d0.claims(t as int, idx as int));
        }
        self.tables[t].acquire_locks();
        let ghost locked_t = self.tables@[t as int];
        let res = self.tables[t].split();
        let ghost split_t = self.tables@[t as int];
        self.tables[t].release_locks();
        let ghost rel_t = self.tables@[t as int];
        proof {
            assert(self.tables@ == d0.tables@.update(t as int, rel_t));
            assert(unlocked(rel_t.bucket@)) by {
                assert forall|c: int| 0 <= c < rel_t.bucket@.len() implies !(#[trigger] rel_t.bucket@[c]).locked() by {
                    if c >= 64 {
                        assert(split_t.bucket@[c].locked() == locked_t.bucket@[c].locked());
                        assert(!d0.tables@[t as int].bucket@[c].locked());
                    }
                }
            }
        }
        let sib = match res {
            Ok(sib) => sib,
            Err(_) => {
                proof {
                    lemma_occ_same(locked_t.bucket@, d0.tables@[t as int].bucket@, 66);
                    lemma_replace_table(d0, *self, t as int);
                    assert forall|k: KeyView| #[trigger] self.map().contains_key(k) == d0.map().contains_key(k)
                        && (self.map().contains_key(k) ==> self.map()[k] == d0.map()[k]) by {
                        self.lemma_routed(k);
                        d0.lemma_routed(k);
                        if self.map().contains_key(k) {
                            assert(self.holds(k, self.map()[k]));
                        }
                        if d0.map().contains_key(k) {
                            assert(d0.holds(k, d0.map()[k]));
                            assert(self.holds(k, d0.map()[k]));
                        }
                    }
                    assert(self.map() =~= d0.map());
                }
                return false;
            },
        };
        let s = self.tables.len();
        self.tables.push(sib);
        self.depth_count = self.tables.len();
        let ghost tb = self.tables@;
        proof {
            assert(tb[t as int].local_depth == d + 1 && tb[s as int].local_depth == d + 1);
            assert(tb[t as int].pattern == 2 * p && tb[s as int].pattern == 2 * p + 1);
            assert(forall|u: int| 0 <= u < s && u != t ==> #[trigger] tb[u] == d0.tables@[u]);
            assert(tb[t as int] == rel_t);
            assert(forall|k: KeyView| #![trigger d0.tables@[t as int].contains_key(k)]
                d0.tables@[t as int].contains_key(k) == (tb[t as int].contains_key(k) || tb[s as int].contains_key(k))) by {
                assert forall|k: KeyView| #![trigger d0.tables@[t as int].contains_key(k)]
                    d0.tables@[t as int].contains_key(k) == (tb[t as int].contains_key(k) || tb[s as int].contains_key(k)) by {
                    assert(locked_t.contains_key(k) == d0.tables@[t as int].contains_key(k));
                    assert(rel_t.contains_key(k) == split_t.contains_key(k));
                }
            }
        }
        if d < self.global_depth {
            let shift: u64 = (self.global_depth - d - 1) as u64;
            let target: u64 = self.tables[t].pattern + 1;
            proof {
                assert(target == 2 * p + 1);
            }
            let mut j: usize = 0;
            while j < self.segments.len()
                invariant
                    self.tables@ == tb,
                    self.depth_count == tb.len(),
                    self.global_depth == d0.global_depth,
                    self.segments@.len() == n,
                    n == d0.segments@.len(),
                    j <= n,
                    g <= 30,
                    n == pow2(g as nat),
                    shift == g - d - 1,
                    shift < 64,
                    target == 2 * p + 1,
                    forall|i: int| 0 <= i < j ==> #[trigger] self.segments@[i] == (if entry_prefix(i, g, d + 1) == 2 * p + 1 { s } else { d0.segments@[i] }),
                    forall|i: int| j <= i < n ==> #[trigger] self.segments@[i] == d0.segments@[i],
                decreases n - j,
            {
                proof {
                    lemma_index_fits(j as int, g);
                }
                if (j as u64 >> shift) == target {
                    self.segments.set(j, s);
                }
                j += 1;
            }
            proof {
                self.lemma_after_repoint(d0, t as int, s as int, d as int, p);
            }
        } else {
            let ghost i0 = idx as int;
            proof {
                vstd::arithmetic::power2::lemma2_to64();
                lemma_index_fits(i0, g);
                if g > 0 {
                    lemma_entry_full(i0, g);
                }
                assert(p == i0);
            }
            self.directory_doubling(idx, s);
            proof {
                self.lemma_after_doubling(d0, t as int, s as int, p);
            }
        }
        proof {
            self.lemma_split_map(d0, t as int, s as int, idx as int);
        }
        true
    }
}

/// The segments after segment `t` of `d0` (depth `d`, pattern `p`) split
/// into itself and a sibling `s` appended to the heap.
pub open spec fn split_tables(d0: Directory, tb: Seq<Table>, t: int, s: int, d: int, p: int) -> bool {
    &&& s == d0.tables@.len()
    &&& tb.len() == s + 1
    &&& 0 <= t < s
    &&& d0.tables@[t].local_depth == d
    &&& d0.tables@[t].pattern == p
    &&& tb[t].local_depth == d + 1
    &&& tb[s].local_depth == d + 1
    &&& tb[t].pattern == 2 * p
    &&& tb[s].pattern == 2 * p + 1
    &&& tb[t].inv()
    &&& tb[s].inv()
    &&& unlocked(tb[t].bucket@)
    &&& unlocked(tb[s].bucket@)
    &&& forall|u: int| 0 <= u < s && u != t ==> #[trigger] tb[u] == d0.tables@[u]
    &&& d0.tables@[t].entries() == tb[t].entries() + tb[s].entries()
    &&& forall|k: KeyView| #![trigger d0.tables@[t].contains_key(k)] d0.tables@[t].contains_key(k) == (tb[t].contains_key(k) || tb[s].contains_key(k))
}

/// Replacing one segment by a well-formed one with the same claim keeps the
/// directory well formed; the index then holds what the other segments hold
/// and what the new one holds.
pub proof fn lemma_replace_table(d0: Directory, d1: Directory, t: int)
    requires
        d0.wf(),
        0 <= t < d0.tables@.len(),
        d1.segments@ == d0.segments@,
        d1.global_depth == d0.global_depth,
        d1.depth_count == d0.depth_count,
        d1.tables@.len() == d0.tables@.len(),
        forall|u: int| 0 <= u < d0.tables@.len() && u != t ==> #[trigger] d1.tables@[u] == d0.tables@[u],
        d1.tables@[t].inv(),
        d1.tables@[t].local_depth == d0.tables@[t].local_depth,
        d1.tables@[t].pattern == d0.tables@[t].pattern,
        unlocked(d1.tables@[t].bucket@),
    ensures
        d1.wf(),
        forall|k: KeyView, v: Seq<u8>| #[trigger] d1.holds(k, v) == ((d0.holds(k, v) && !d0.tables@[t].entries().contains((k, v)))
            || d1.tables@[t].entries().contains((k, v))),
{
    assert forall|u: int, i: int| 0 <= u < d1.tables@.len() && 0 <= i < d1.segments@.len() && #[trigger] d1.claims(u, i)
        implies d1.segments@[i] == u by {
        assert(d0.claims(u, i));
    }
    assert forall|i: int| 0 <= i < d1.segments@.len() implies d1.claims(#[trigger] d1.segments@[i] as int, i) by {
        assert(d0.claims(d0.segments@[i] as int, i));
    }
    assert forall|k: KeyView, v: Seq<u8>| #[trigger] d1.holds(k, v) == ((d0.holds(k, v) && !d0.tables@[t].entries().contains((k, v)))
        || d1.tables@[t].entries().contains((k, v))) by {
        if d1.holds(k, v) {
            let u = choose|u: int| 0 <= u < d1.tables@.len() && #[trigger] d1.tables@[u].entries().contains((k, v));
            if u != t {
                assert(d0.tables@[u].entries().contains((k, v)));
                d0.lemma_routed(k);
                lemma_entries_functional(&d0.tables@[u], k);
                lemma_entries_functional(&d0.tables@[t], k);
                assert(d0.tables@[u].contains_key(k));
                if d0.tables@[t].entries().contains((k, v)) {
                    assert(d0.tables@[t].contains_key(k));
                }
            }
        }
        if d0.holds(k, v) && !d0.tables@[t].entries().contains((k, v)) {
            let u = choose|u: int| 0 <= u < d0.tables@.len() && #[trigger] d0.tables@[u].entries().contains((k, v));
            assert(d1.tables@[u].entries().contains((k, v)));
        }
    }
}

impl Directory {
    /// Doubles the directory: each entry `i` becomes entries `2i` and
    /// `2i + 1`, and entry `2 * new_table_index + 1` then names `sibling`.
    fn directory_doubling(&mut self, new_table_index: usize, sibling: usize)
        requires
            old(self).global_depth < MAX_GLOBAL_DEPTH,
            old(self).segments@.len() == pow2(old(self).global_depth as nat),
            new_table_index < old(self).segments@.len(),
        ensures
            final(self).global_depth == old(self).global_depth + 1,
            final(self).tables == old(self).tables,
            final(self).depth_count == old(self).depth_count,
            old(self).version < usize::MAX ==> final(self).version == old(self).version + 1,
            final(self).segments@.len() == 2 * old(self).segments@.len(),
            forall|j: int| 0 <= j < final(self).segments@.len() ==> #[trigger] final(self).segments@[j]
                == (if j == 2 * new_table_index + 1 { sibling } else { old(self).segments@[j / 2] }),
    {
        let n = self.segments.len();
        proof {
            vstd::arithmetic::power2::lemma2_to64();
            if self.global_depth < 30 {
                vstd::arithmetic::power2::lemma_pow2_strictly_increases(self.global_depth as nat, 30);
            }
        }
        let mut new_segments: Vec<usize> = Vec::new();
        let mut i: usize = 0;
        while i < n
            invariant
                n == self.segments@.len(),
                n <= 0x4000_0000,
                i <= n,
                new_segments@.len() == 2 * i,
                forall|j: int| 0 <= j < 2 * i ==> #[trigger] new_segments@[j] == self.segments@[j / 2],
            decreases n - i,
        {
            new_segments.push(self.segments[i]);
            new_segments.push(self.segments[i]);
            i += 1;
        }
        new_segments.set(2 * new_table_index + 1, sibling);
        self.segments = new_segments;
        self.global_depth = self.global_depth + 1;
        self.version = self.version.wrapping_add(1);
    }

    /// After a split whose sibling's depth stays within the global depth,
    /// repointing the entries that match the sibling restores the invariant.
    proof fn lemma_after_repoint(&self, d0: Directory, t: int, s: int, d: int, p: int)
        requires
            d0.wf(),
            s <= usize::MAX,
            self.depth_count == self.tables@.len(),
            split_tables(d0, self.tables@, t, s, d, p),
            d < d0.global_depth,
            self.global_depth == d0.global_depth,
            self.segments@.len() == d0.segments@.len(),
            forall|i: int| 0 <= i < self.segments@.len() ==> #[trigger] self.segments@[i]
                == (if entry_prefix(i, d0.global_depth as int, d + 1) == 2 * p + 1 { s as usize } else { d0.segments@[i] }),
        ensures
            self.wf(),
    {
        let g = d0.global_depth as int;
        let n = self.segments@.len();
        let tb = self.tables@;
        assert forall|u: int| 0 <= u < tb.len() implies {
            &&& (#[trigger] tb[u]).inv()
            &&& tb[u].local_depth <= g
            &&& unlocked(tb[u].bucket@)
        } by {
            if u != t && u != s {
                assert(tb[u] == d0.tables@[u]);
            }
        }
        assert forall|i: int| 0 <= i < n implies self.claims(#[trigger] self.segments@[i] as int, i) by {
            lemma_index_fits(i, g);
            lemma_entry_step(i, g, d);
            let u = d0.segments@[i] as int;
            assert(d0.claims(u, i));
            assert(u < s);
            let x = entry_prefix(i, g, d + 1);
            if x == 2 * p + 1 {
                assert(self.segments@[i] as int == s);
                assert(self.claims(s, i));
            } else if u == t {
                assert(entry_prefix(i, g, d) == p);
                assert(x == 2 * p);
                assert(self.segments@[i] as int == t);
                assert(self.claims(t, i));
            } else {
                assert(tb[u] == d0.tables@[u]);
                assert(self.segments@[i] as int == u);
                assert(self.claims(u, i));
            }
        }
        assert forall|u: int, i: int| 0 <= u < tb.len() && 0 <= i < n && #[trigger] self.claims(u, i) implies self.segments@[i] == u by {
            lemma_index_fits(i, g);
            lemma_entry_step(i, g, d);
            if u == s {
            } else if u == t {
                assert(d0.claims(t, i));
            } else {
                assert(tb[u] == d0.tables@[u]);
                assert(d0.claims(u, i));
                if entry_prefix(i, g, d + 1) == 2 * p + 1 {
                    assert(d0.claims(t, i));
                }
            }
        }
        assert forall|i: int| 0 <= i < n implies (#[trigger] self.segments@[i]) < tb.len() by {
            assert(d0.segments@[i] < d0.tables@.len());
        }
    }

    /// After a split of a segment that claimed all bits of one entry,
    /// doubling the directory and pointing the new odd entry at the sibling
    /// restores the invariant.
    proof fn lemma_after_doubling(&self, d0: Directory, t: int, s: int, p: int)
        requires
            d0.wf(),
            s <= usize::MAX,
            self.depth_count == self.tables@.len(),
            split_tables(d0, self.tables@, t, s, d0.global_depth as int, p),
            d0.global_depth < MAX_GLOBAL_DEPTH,
            self.global_depth == d0.global_depth + 1,
            self.segments@.len() == 2 * d0.segments@.len(),
            0 <= p < d0.segments@.len(),
            forall|j: int| 0 <= j < self.segments@.len() ==> #[trigger] self.segments@[j]
                == (if j == 2 * p + 1 { s as usize } else { d0.segments@[j / 2] }),
        ensures
            self.wf(),
    {
        let g = d0.global_depth as int;
        let n = d0.segments@.len();
        let tb = self.tables@;
        vstd::arithmetic::power2::lemma2_to64();
        vstd::arithmetic::power2::lemma_pow2_unfold((g + 1) as nat);
        assert forall|h: u64| #[trigger] prefix(h, g + 1) < 2 * n by {
            lemma_prefix_step(h, g);
            assert(prefix(h, g) < n);
        }
        assert forall|u: int| 0 <= u < tb.len() implies {
            &&& (#[trigger] tb[u]).inv()
            &&& tb[u].local_depth <= g + 1
            &&& unlocked(tb[u].bucket@)
        } by {
            if u != t && u != s {
                assert(tb[u] == d0.tables@[u]);
            }
        }
        assert(d0.segments@[p] == t) by {
            vstd::arithmetic::power2::lemma2_to64();
            lemma_index_fits(p, g);
            if g > 0 {
                lemma_entry_full(p, g);
            }
            assert(d0.claims(t, p));
        }
        assert forall|j: int| 0 <= j < 2 * n implies self.claims(#[trigger] self.segments@[j] as int, j) by {
            lemma_index_fits(j, g + 1);
            lemma_entry_full(j, g + 1);
            let u = d0.segments@[j / 2] as int;
            assert(d0.claims(u, j / 2));
            if j != 2 * p + 1 {
                if u == t {
                    lemma_index_fits(j / 2, g);
                    if g > 0 {
                        lemma_entry_full(j / 2, g);
                    }
                    assert(j / 2 == p);
                } else {
                    assert(tb[u] == d0.tables@[u]);
                    lemma_entry_double(j, g, tb[u].local_depth as int);
                }
            }
        }
        assert forall|u: int, j: int| 0 <= u < tb.len() && 0 <= j < 2 * n && #[trigger] self.claims(u, j) implies self.segments@[j] == u by {
            lemma_index_fits(j, g + 1);
            lemma_entry_full(j, g + 1);
            if u == s {
            } else if u == t {
            } else {
                assert(tb[u] == d0.tables@[u]);
                lemma_entry_double(j, g, tb[u].local_depth as int);
                assert(d0.claims(u, j / 2));
            }
        }
        assert forall|j: int| 0 <= j < 2 * n implies (#[trigger] self.segments@[j]) < tb.len() by {
            assert(d0.segments@[j / 2] < d0.tables@.len());
        }
    }

    /// A published split keeps what the index holds, and deepens the route
    /// of every hash that went to the split segment.
    proof fn lemma_split_map(&self, d0: Directory, t: int, s: int, idx: int)
        requires
            d0.wf(),
            self.wf(),
            0 <= idx < d0.segments@.len(),
            d0.segments@[idx] == t,
            split_tables(d0, self.tables@, t, s, d0.tables@[t].local_depth as int, d0.tables@[t].pattern as int),
            self.global_depth >= d0.global_depth,
        ensures
            self.map() == d0.map(),
            forall|h: u64| #[trigger] d0.route(h) == t ==> self.tables@[self.route(h)].local_depth == d0.tables@[t].local_depth + 1,
    {
        let tb = self.tables@;
        let d = d0.tables@[t].local_depth as int;
        let p = d0.tables@[t].pattern as int;
        assert forall|k: KeyView| #[trigger] self.has(k) == d0.has(k) by {
            if self.has(k) {
                let u = choose|u: int| 0 <= u < tb.len() && #[trigger] tb[u].contains_key(k);
                if u == s || u == t {
                    assert(d0.tables@[t].contains_key(k));
                } else {
                    assert(tb[u] == d0.tables@[u]);
                }
            }
            if d0.has(k) {
                let u = choose|u: int| 0 <= u < d0.tables@.len() && #[trigger] d0.tables@[u].contains_key(k);
                if u == t {
                    assert(tb[t].contains_key(k) || tb[s].contains_key(k));
                } else {
                    assert(tb[u] == d0.tables@[u]);
                    assert(tb[u].contains_key(k));
                }
            }
        }
        assert forall|k: KeyView, v: Seq<u8>| #[trigger] self.holds(k, v) == d0.holds(k, v) by {
            if self.holds(k, v) {
                let u = choose|u: int| 0 <= u < tb.len() && #[trigger] tb[u].entries().contains((k, v));
                if u == s || u == t {
                    assert(d0.tables@[t].entries().contains((k, v)));
                } else {
                    assert(tb[u] == d0.tables@[u]);
                }
            }
            if d0.holds(k, v) {
                let u = choose|u: int| 0 <= u < d0.tables@.len() && #[trigger] d0.tables@[u].entries().contains((k, v));
                if u == t {
                    assert(tb[t].entries().contains((k, v)) || tb[s].entries().contains((k, v)));
                } else {
                    assert(tb[u] == d0.tables@[u]);
                    assert(tb[u].entries().contains((k, v)));
                }
            }
        }
        assert forall|k: KeyView| #[trigger] self.map().contains_key(k) == d0.map().contains_key(k)
            && (self.map().contains_key(k) ==> self.map()[k] == d0.map()[k]) by {
            self.lemma_routed(k);
            d0.lemma_routed(k);
            if self.map().contains_key(k) {
                let v = self.map()[k];
                assert(self.holds(k, v));
                assert(d0.holds(k, v));
            }
        }
        assert(self.map() =~= d0.map());
        assert forall|h: u64| #[trigger] d0.route(h) == t implies self.tables@[self.route(h)].local_depth == d + 1 by {
            let g0 = d0.global_depth as int;
            let g1 = self.global_depth as int;
            let i = prefix(h, g0);
            assert(d0.claims(t, i));
            lemma_route(h, g0, d);
            lemma_prefix_step(h, d);
            lemma_route(h, g1, d + 1);
            let i1 = prefix(h, g1);
            assert(i1 < self.segments@.len());
            if prefix(h, d + 1) == 2 * p {
                assert(self.claims(t, i1));
            } else {
                assert(self.claims(s, i1));
            }
        }
    }
}

} // verus!
