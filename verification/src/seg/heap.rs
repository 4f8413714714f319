use vstd::prelude::*;
use vstd::std_specs::bits::{axiom_u64_trailing_zeros, u64_trailing_zeros};

verus! {

/// A complete binary tree of 32 leaves, its 63 nodes numbered level by level from the
/// root, which is 0: the children of `v` are `2v + 1` and `2v + 2`, and the leaves are
/// the nodes 31 to 62. Sets of nodes are masks of 64 bits.
pub struct Heap32 {}

/// The mask whose bits `start..=end` are set.
pub open spec fn span_mask(start: u32, end: u32) -> u64 {
    (((1u64 << ((end - start + 1) as u64)) - 1) as u64) << (start as u64)
}

/// The bit `v` of `mask` is set.
pub open spec fn bit(mask: u64, v: u64) -> bool {
    (mask >> v) & 1 == 1
}

/// The first leaf under the node `v`, counted from 0.
pub open spec fn first_leaf(v: int) -> int
    decreases 63 - v,
{
    if v < 0 || v >= 31 {
        v - 31
    } else {
        first_leaf(2 * v + 1)
    }
}

/// The last leaf under the node `v`, counted from 0.
pub open spec fn last_leaf(v: int) -> int
    decreases 63 - v,
{
    if v < 0 || v >= 31 {
        v - 31
    } else {
        last_leaf(2 * v + 2)
    }
}

/// The level of the node `v`, the root being on level 0.
pub open spec fn level_of(v: int) -> int {
    if v >= 31 {
        5
    } else if v >= 15 {
        4
    } else if v >= 7 {
        3
    } else if v >= 3 {
        2
    } else if v >= 1 {
        1
    } else {
        0
    }
}

/// Every leaf under the node `v` lies in `start..=end`.
pub open spec fn covered(v: int, start: int, end: int) -> bool {
    start <= first_leaf(v) && last_leaf(v) <= end
}

/// The node `v` is one of those that make up the range `start..=end`: all its leaves
/// lie in the range, and not all those of its parent.
pub open spec fn chosen(v: int, start: int, end: int) -> bool {
    &&& 0 <= v < 63
    &&& covered(v, start, end)
    &&& (v == 0 || !covered((v - 1) / 2, start, end))
}

/// The leaves under a node, level by level.
pub proof fn lemma_leaves(v: int)
    requires
        0 <= v < 63,
    ensures
        31 <= v ==> first_leaf(v) == v - 31 && last_leaf(v) == v - 31,
        15 <= v < 31 ==> first_leaf(v) == 2 * v - 30 && last_leaf(v) == 2 * v - 29,
        7 <= v < 15 ==> first_leaf(v) == 4 * v - 28 && last_leaf(v) == 4 * v - 25,
        3 <= v < 7 ==> first_leaf(v) == 8 * v - 24 && last_leaf(v) == 8 * v - 17,
        1 <= v < 3 ==> first_leaf(v) == 16 * v - 16 && last_leaf(v) == 16 * v - 1,
        v == 0 ==> first_leaf(v) == 0 && last_leaf(v) == 31,
        0 <= first_leaf(v) <= last_leaf(v) <= 31,
{
    reveal_with_fuel(first_leaf, 6);
    reveal_with_fuel(last_leaf, 6);
}

/// A node is covered if and only if both its children are.
pub proof fn lemma_covered_children(u: int, start: int, end: int)
    requires
        0 <= u < 31,
    ensures
        covered(u, start, end) == (covered(2 * u + 1, start, end) && covered(
            2 * u + 2,
            start,
            end,
        )),
        level_of(2 * u + 1) == level_of(u) + 1,
        level_of(2 * u + 2) == level_of(u) + 1,
{
    lemma_leaves(u);
    lemma_leaves(2 * u + 1);
    lemma_leaves(2 * u + 2);
}

/// Where no node of a level is covered, none above it is.
pub proof fn lemma_none_above(v: int, d: int, start: int, end: int)
    requires
        0 <= v < 63,
        level_of(v) <= d <= 5,
        forall|x: int| 0 <= x < 63 && level_of(x) == d ==> !covered(x, start, end),
    ensures
        !covered(v, start, end),
    decreases 63 - v,
{
    if level_of(v) < d {
        lemma_covered_children(v, start, end);
        lemma_none_above(2 * v + 1, d, start, end);
    }
}

/// The bits of a span mask.
pub proof fn lemma_bit_span(start: u32, end: u32, v: u64)
    requires
        start <= end < 64,
        end - start < 63,
        v < 64,
    ensures
        bit(span_mask(start, end), v) == (start <= v <= end),
{
    let s = start as u64;
    let e = end as u64;
    assert(((((1u64 << ((e - s + 1) as u64)) - 1) as u64) << s) >> v & 1 == 1 <==> (s <= v && v
        <= e)) by (bit_vector)
        requires
            s <= e,
            e < 64,
            e - s < 63,
            v < 64,
    ;
}

/// Setting a bit sets that bit and no other.
pub proof fn lemma_bit_set(x: u64, p: u64, v: u64)
    requires
        p < 64,
        v < 64,
    ensures
        bit(x | (1u64 << p), v) == (bit(x, v) || v == p),
{
    assert(((x | (1u64 << p)) >> v) & 1 == 1 <==> ((x >> v) & 1 == 1 || v == p)) by (bit_vector)
        requires
            p < 64,
            v < 64,
    ;
}

/// Clearing two neighbouring bits clears those and no other.
pub proof fn lemma_bit_clear_pair(x: u64, lt: u64, v: u64)
    requires
        lt < 63,
        v < 64,
    ensures
        bit(x & !(3u64 << lt), v) == (bit(x, v) && v != lt && v != lt + 1),
{
    assert(((x & !(3u64 << lt)) >> v) & 1 == 1 <==> ((x >> v) & 1 == 1 && v != lt && v != lt
        + 1)) by (bit_vector)
        requires
            lt < 63,
            v < 64,
    ;
}

/// Masking with a single bit tests that bit.
pub proof fn lemma_bit_test(x: u64, p: u64)
    requires
        p < 64,
    ensures
        (((1u64 << p) & x) != 0) == bit(x, p),
{
    assert((((1u64 << p) & x) != 0) <==> ((x >> p) & 1 == 1)) by (bit_vector)
        requires
            p < 64,
    ;
}

/// `x & (x - 1)` is `x` without its lowest set bit.
pub proof fn lemma_bit_drop_lowest(x: u64, v: u64)
    requires
        x != 0,
        v < 64,
    ensures
        bit(x & ((x - 1) as u64), v) == (bit(x, v) && v != u64_trailing_zeros(x)),
{
    axiom_u64_trailing_zeros(x);
    let t = u64_trailing_zeros(x) as u64;
    let y = (x - 1) as u64;
    assert(forall|j: u64| 0 <= j < t ==> #[trigger] (x >> j) & 1u64 == 0u64);
    if v < t {
        assert((x >> v) & 1 == 0);
        assert(((x & y) >> v) & 1 == 1 ==> (x >> v) & 1 == 1) by (bit_vector)
            requires
                v < 64,
        ;
    } else {
        // below the lowest bit that is set, all bits are clear
        lemma_low_clear(x, t, t);
        assert(x & (((1u64 << t) - 1) as u64) == 0);
        assert(((x & y) >> v) & 1 == 1 <==> ((x >> v) & 1 == 1 && v != t)) by (bit_vector)
            requires
                x != 0,
                y == (x - 1) as u64,
                t < 64,
                t <= v,
                v < 64,
                (x >> t) & 1 == 1,
                x & (((1u64 << t) - 1) as u64) == 0,
        ;
    }
}

/// Where the bits below `t` are clear one by one, they are clear as a whole.
pub proof fn lemma_low_clear(x: u64, t: u64, k: u64)
    requires
        k <= t < 64,
        forall|j: u64| 0 <= j < t ==> #[trigger] (x >> j) & 1u64 == 0u64,
    ensures
        x & (((1u64 << k) - 1) as u64) == 0,
    decreases k,
{
    if k == 0 {
        assert(x & (((1u64 << 0u64) - 1) as u64) == 0) by (bit_vector);
    } else {
        let j = (k - 1) as u64;
        lemma_low_clear(x, t, j);
        assert((x >> j) & 1u64 == 0u64);
        assert(x & (((1u64 << k) - 1) as u64) == 0) by (bit_vector)
            requires
                k < 64,
                k >= 1,
                j == (k - 1) as u64,
                (x >> j) & 1u64 == 0u64,
                x & (((1u64 << j) - 1) as u64) == 0,
        ;
    }
}

/// The masks that span bits of a `u64`.
pub trait BitOp {
    fn fill(start: u32, end: u32) -> (r: u64)
        requires
            start <= end,
            end - start < 63,
            end < 64,
        ensures
            r == span_mask(start, end),
            forall|v: u64| v < 64 ==> #[trigger] bit(r, v) == (start <= v <= end),
    ;
}

impl BitOp for u64 {
    fn fill(start: u32, end: u32) -> (r: u64) {
        let width: u64 = (end - start + 1) as u64;
        assert((1u64 << width) >= 1) by (bit_vector)
            requires
                width < 64,
        ;
        let r = ((1u64 << (end - start + 1)) - 1) << start;
        proof {
            assert forall|v: u64| v < 64 implies #[trigger] bit(r, v) == (start <= v <= end) by {
                lemma_bit_span(start, end, v);
            }
        }
        r
    }
}

impl Heap32 {
    /// The number of nodes above the leaves.
    pub const SUB_CAPACITY: u32 = 31;

    /// The binary logarithm of the number of leaves.
    pub const POWER: u32 = 5;

    /// The nodes that make up the range of leaves `start..=end`, as a mask: every leaf
    /// of the range lies under exactly one of them, and no other leaf under any.
    #[verifier::rlimit(100)]
    pub fn range_to_mask(start: u32, end: u32) -> (m: u64)
        requires
            start <= end < 32,
        ensures
            forall|v: u64| v < 64 ==> #[trigger] bit(m, v) == chosen(v as int, start as int, end as int),
    {
        let ghost s = start as int;
        let ghost e = end as int;
        if end - start == 31 {
            proof {
                assert forall|v: u64| v < 64 implies #[trigger] bit(1u64, v) == chosen(
                    v as int,
                    s,
                    e,
                ) by {
                    assert(((1u64 >> v) & 1 == 1) <==> v == 0) by (bit_vector)
                        requires
                            v < 64,
                    ;
                    if v < 63 {
                        lemma_leaves(v as int);
                        if v > 0 {
                            lemma_leaves((v - 1) / 2);
                        }
                    }
                }
            }
            return 1
        }
        let i0 = Self::order_to_heap_index(start);
        let i1 = Self::order_to_heap_index(end);
        let mut w = u64::fill(i0, i1);

        let mut m: u64 = 0;
        let ghost mut d: int = 5;
        proof {
            lemma_leaves(0);
            assert forall|v: u64| v < 64 implies #[trigger] bit(w, v) == (v < 63 && level_of(
                v as int,
            ) == 5 && covered(v as int, s, e)) by {
                if v < 63 {
                    lemma_leaves(v as int);
                }
            }
            assert forall|v: u64| v < 64 implies !#[trigger] bit(0u64, v) by {
                assert((0u64 >> v) & 1 == 0) by (bit_vector);
            }
            assert(bit(w, i0 as u64));
            assert(!bit(0u64, i0 as u64));
        }
        while w > 0
            invariant
                s == start,
                e == end,
                0 <= s <= e < 32,
                !covered(0, s, e),
                0 <= d <= 5,
                forall|v: u64|
                    v < 64 ==> #[trigger] bit(w, v) == (v < 63 && level_of(v as int) == d
                        && covered(v as int, s, e)),
                forall|v: u64|
                    v < 64 ==> #[trigger] bit(m, v) == (chosen(v as int, s, e) && level_of(
                        v as int,
                    ) > d),
                w == 0 ==> forall|x: int| 0 <= x < 63 && level_of(x) == d ==> !covered(x, s, e),
            ensures
                forall|v: u64|
                    v < 64 ==> #[trigger] bit(m, v) == (chosen(v as int, s, e) && level_of(
                        v as int,
                    ) > d),
                0 <= d <= 5,
                forall|x: int| 0 <= x < 63 && level_of(x) == d ==> !covered(x, s, e),
            decreases d,
        {
            let mut wi = w;
            w = 0;
            let ghost mut bound: u64 = 1;
            proof {
                axiom_u64_trailing_zeros(wi);
                let t = u64_trailing_zeros(wi) as u64;
                assert(bit(wi, t));
                assert(d >= 1);
                assert forall|v: u64| v < 64 implies !#[trigger] bit(0u64, v) by {
                    assert((0u64 >> v) & 1 == 0) by (bit_vector);
                }
            }
            while wi != 0
                invariant
                    s == start,
                    e == end,
                    0 <= s <= e < 32,
                    !covered(0, s, e),
                    1 <= d <= 5,
                    1 <= bound <= 63,
                    bound % 2 == 1,
                    forall|v: u64|
                        v < 64 ==> #[trigger] bit(wi, v) == (v < 63 && level_of(v as int) == d
                            && covered(v as int, s, e) && v >= bound),
                    forall|u: u64|
                        u < 64 ==> #[trigger] bit(w, u) == (u < 31 && level_of(u as int) == d - 1
                            && covered(u as int, s, e) && 2 * u + 2 < bound),
                    forall|v: u64|
                        v < 64 ==> #[trigger] bit(m, v) == (chosen(v as int, s, e) && (level_of(
                            v as int,
                        ) > d || (level_of(v as int) == d && v < bound))),
                decreases 63 - bound,
            {
                let ghost old_wi = wi;
                let ghost old_w = w;
                let ghost old_m = m;
                proof {
                    axiom_u64_trailing_zeros(wi);
                }
                let bit_index = wi.trailing_zeros() as u64;
                proof {
                    assert(bit(wi, bit_index));
                    assert(((bit_index - 1) as u64) >> 1 == ((bit_index - 1) as u64) / 2)
                        by (bit_vector);
                }
                let parent = (bit_index - 1) >> 1;
                proof {
                    assert((parent << 1) | 1 == 2 * parent + 1) by (bit_vector)
                        requires
                            parent < 31,
                    ;
                }
                let lt = (parent << 1) | 1;
                let rt = lt + 1;
                proof {
                    lemma_bit_test(wi, lt);
                    lemma_bit_test(wi, rt);
                    lemma_covered_children(parent as int, s, e);
                    assert(bit(wi, lt) == covered(lt as int, s, e));
                    assert(bit(wi, rt) == covered(rt as int, s, e));
                }

                let is_lt = ((1 << lt) & wi) != 0;
                let is_rt = ((1 << rt) & wi) != 0;

                let clean_mask = !(0b11 << lt);
                wi &= clean_mask;  // clean lt and rt

                match (is_lt, is_rt) {
                    // (false, false) is not possible
                    (true, true) => w |= 1 << parent,
                    (true, false) => m |= 1 << lt,
                    (_, _) => m |= 1 << rt,
                }
                proof {
                    assert forall|v: u64| v < 64 implies #[trigger] bit(wi, v) == (v < 63
                        && level_of(v as int) == d && covered(v as int, s, e) && v >= rt + 1) by {
                        lemma_bit_clear_pair(old_wi, lt, v);
                        if bound <= v < lt {
                            assert((old_wi >> v) & 1u64 == 0u64);
                        }
                    }
                    assert forall|u: u64| u < 64 implies #[trigger] bit(w, u) == (u < 31
                        && level_of(u as int) == d - 1 && covered(u as int, s, e) && 2 * u + 2 < rt
                        + 1) by {
                        if is_lt && is_rt {
                            lemma_bit_set(old_w, parent, u);
                        }
                        if u < 31 && u != parent && 2 * u + 2 >= bound && 2 * u + 2 < rt {
                            lemma_covered_children(u as int, s, e);
                            let c = (2 * u + 1) as u64;
                            assert((old_wi >> c) & 1u64 == 0u64);
                            assert(!bit(old_wi, c));
                        }
                    }
                    assert forall|v: u64| v < 64 implies #[trigger] bit(m, v) == (chosen(
                        v as int,
                        s,
                        e,
                    ) && (level_of(v as int) > d || (level_of(v as int) == d && v < rt + 1))) by {
                        if is_lt && is_rt {
                        } else if is_lt {
                            lemma_bit_set(old_m, lt, v);
                        } else {
                            lemma_bit_set(old_m, rt, v);
                        }
                        if bound <= v < lt {
                            assert((old_wi >> v) & 1u64 == 0u64);
                            assert(!bit(old_wi, v));
                        }
                    }
                    bound = (rt + 1) as u64;
                }
            }
            proof {
                assert forall|v: u64| v < 64 implies #[trigger] bit(w, v) == (v < 63 && level_of(
                    v as int,
                ) == d - 1 && covered(v as int, s, e)) by {
                    if v < 31 && level_of(v as int) == d - 1 && covered(v as int, s, e) {
                        lemma_covered_children(v as int, s, e);
                        let c = (2 * v + 2) as u64;
                        assert(!bit(wi, c)) by {
                            assert((0u64 >> c) & 1 == 0) by (bit_vector);
                        }
                    }
                }
                assert forall|v: u64| v < 64 implies #[trigger] bit(m, v) == (chosen(v as int, s, e)
                    && level_of(v as int) > d - 1) by {
                    if v < 63 && level_of(v as int) == d && v >= bound {
                        assert(!bit(wi, v)) by {
                            assert((0u64 >> v) & 1 == 0) by (bit_vector);
                        }
                    }
                }
                if w == 0 {
                    assert forall|x: int| 0 <= x < 63 && level_of(x) == d - 1 implies !covered(
                        x,
                        s,
                        e,
                    ) by {
                        let v = x as u64;
                        assert(!bit(w, v)) by {
                            assert((0u64 >> v) & 1 == 0) by (bit_vector);
                        }
                    }
                }
                d = d - 1;
            }
        }
        proof {
            assert forall|v: u64| v < 64 implies #[trigger] bit(m, v) == chosen(v as int, s, e) by {
                if v < 63 && level_of(v as int) <= d {
                    lemma_none_above(v as int, d, s, e);
                }
            }
        }

        m
    }

    /// The number of the leaf that stands for the position `order`.
    pub fn order_to_heap_index(order: u32) -> (r: u32)
        requires
            order <= u32::MAX - 31,
        ensures
            r == order + 31,
    {
        order + Self::SUB_CAPACITY
    }
}

/// The set bits of a mask, handed out from the lowest up.
pub struct BitIter {
    value: u64,
}

impl BitIter {
    /// The bits that are still to come.
    pub closed spec fn rest(&self) -> u64 {
        self.value
    }

    /// The walk over the set bits of `value`.
    pub fn new(value: u64) -> (r: Self)
        ensures
            r.rest() == value,
    {
        Self { value }
    }

    /// The number of the lowest bit that is left, which is taken out; `None` when none
    /// is left.
    pub fn next(&mut self) -> (r: Option<usize>)
        ensures
            old(self).rest() == 0 ==> r is None && final(self).rest() == 0,
            old(self).rest() != 0 ==> r == Some(u64_trailing_zeros(old(self).rest()) as usize)
                && bit(old(self).rest(), u64_trailing_zeros(old(self).rest()) as u64)
                && forall|v: u64|
                v < 64 ==> #[trigger] bit(final(self).rest(), v) == (bit(old(self).rest(), v) && v
                    != u64_trailing_zeros(old(self).rest())),
    {
        if self.value == 0 {
            return None;
        }
        proof {
            axiom_u64_trailing_zeros(self.value);
        }
        let pos = self.value.trailing_zeros() as usize;
        let ghost before = self.value;
        self.value &= self.value - 1;
        proof {
            assert forall|v: u64| v < 64 implies #[trigger] bit(self.value, v) == (bit(before, v)
                && v != u64_trailing_zeros(before)) by {
                lemma_bit_drop_lowest(before, v);
            }
        }
        Some(pos)
    }
}

} // verus!
