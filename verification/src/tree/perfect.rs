use vstd::prelude::*;
use vstd::arithmetic::power2::{lemma2_to64, lemma_pow2_pos, lemma_pow2_unfold, pow2};
use crate::tree::{Place, Shape};

verus! {

// A perfect tree of `depth` levels, its nodes numbered level by level from the root,
// which is 1: the children of `q` are `2q` and `2q + 1`.
/// The level of the node `q`, the root being on level 0.
pub open spec fn lvl(q: int) -> int
    decreases q,
{
    if q <= 1 {
        0
    } else {
        1 + lvl(q / 2)
    }
}

/// The number of nodes under `q`, `q` counted.
pub open spec fn sz(q: int, depth: int) -> int {
    pow2((depth - lvl(q)) as nat) - 1
}

/// The number of nodes under each child of `q`.
pub open spec fn half(q: int, depth: int) -> int {
    pow2((depth - lvl(q) - 1) as nat) - 1
}

/// The least rank under `q`.
pub open spec fn lo_of(q: int, depth: int) -> int
    decreases q,
{
    if q <= 1 {
        0
    } else if q % 2 == 0 {
        lo_of(q / 2, depth)
    } else {
        lo_of(q / 2, depth) + half(q / 2, depth) + 1
    }
}

/// The rank of `q` in order.
pub open spec fn pos_of(q: int, depth: int) -> int {
    lo_of(q, depth) + half(q, depth)
}

/// One more than the greatest rank under `q`.
pub open spec fn hi_of(q: int, depth: int) -> int {
    lo_of(q, depth) + sz(q, depth)
}

/// The number of even levels from `level` down to the last.
pub open spec fn blacks(level: int, depth: int) -> int
    decreases depth - level,
{
    if level >= depth {
        0
    } else {
        (if level % 2 == 0 {
            1int
        } else {
            0int
        }) + blacks(level + 1, depth)
    }
}

/// The node of rank `r` under `q`, which has `d` levels below and with it.
pub open spec fn seek(q: int, r: int, d: int, depth: int) -> int
    decreases d,
{
    if d <= 1 || r == pos_of(q, depth) {
        q
    } else if r < pos_of(q, depth) {
        seek(2 * q, r, d - 1, depth)
    } else {
        seek(2 * q + 1, r, d - 1, depth)
    }
}

/// `a` is `q` or stands above it.
pub open spec fn above(a: int, q: int) -> bool
    decreases q,
{
    q == a || (q > a && q > 1 && above(a, q / 2))
}

/// The layout of the perfect tree of `depth` levels.
pub open spec fn perfect_shape(depth: int) -> Shape {
    Shape {
        order: Seq::new((pow2(depth as nat) - 1) as nat, |r: int| seek(1, r, depth, depth) as u32),
        places: |h: u32|
            Place {
                pos: pos_of(h as int, depth),
                lo: lo_of(h as int, depth),
                hi: hi_of(h as int, depth),
                bh: blacks(lvl(h as int), depth),
            },
    }
}

/// The children of a node stand one level below it.
pub proof fn lemma_lvl_child(q: int)
    requires
        q >= 1,
    ensures
        lvl(2 * q) == lvl(q) + 1,
        lvl(2 * q + 1) == lvl(q) + 1,
        lvl(q) >= 0,
    decreases q,
{
    assert((2 * q) / 2 == q);
    assert((2 * q + 1) / 2 == q);
    if q > 1 {
        lemma_lvl_child(q / 2);
    }
}

/// A node of level `i` has a number from `2^i` up to `2^(i+1)`, the latter left out.
pub proof fn lemma_lvl_range(q: int)
    requires
        q >= 1,
    ensures
        lvl(q) >= 0,
        pow2(lvl(q) as nat) <= q < 2 * pow2(lvl(q) as nat),
    decreases q,
{
    lemma2_to64();
    if q > 1 {
        lemma_lvl_range(q / 2);
        lemma_pow2_unfold(lvl(q) as nat);
    }
}

/// A number from `2^i` up to `2^(i+1)`, the latter left out, is that of a node of level `i`.
pub proof fn lemma_lvl_of(q: int, i: int)
    requires
        i >= 0,
        pow2(i as nat) <= q < 2 * pow2(i as nat),
    ensures
        lvl(q) == i,
    decreases i,
{
    lemma2_to64();
    if i == 0 {
    } else {
        lemma_pow2_unfold(i as nat);
        lemma_lvl_of(q / 2, i - 1);
    }
}

/// A node stands in the tree of `depth` levels if its number is below `2^depth`.
pub proof fn lemma_in_tree(q: int, depth: int)
    requires
        q >= 1,
        depth >= 0,
    ensures
        (lvl(q) < depth) == (q < pow2(depth as nat)),
{
    lemma_lvl_range(q);
    let i = lvl(q);
    if i < depth {
        lemma_pow2_ladder(i + 1, depth);
        lemma_pow2_unfold((i + 1) as nat);
    } else {
        lemma_pow2_ladder(depth, i);
    }
}

/// Powers of two ascend with their exponents and are at least 1.
pub proof fn lemma_pow2_ladder(a: int, b: int)
    requires
        0 <= a <= b,
    ensures
        pow2(a as nat) <= pow2(b as nat),
        pow2(a as nat) >= 1,
    decreases b - a,
{
    lemma_pow2_pos(a as nat);
    if a < b {
        lemma_pow2_ladder(a + 1, b);
        lemma_pow2_unfold((a + 1) as nat);
    }
}

/// How the ranks under a node are shared out between it and its children.
pub proof fn lemma_places(q: int, depth: int)
    requires
        q >= 1,
        lvl(q) < depth,
    ensures
        0 <= lo_of(q, depth) <= pos_of(q, depth) < hi_of(q, depth),
        sz(q, depth) == 2 * half(q, depth) + 1,
        half(q, depth) >= 0,
        lvl(q) + 1 == depth ==> half(q, depth) == 0,
        lvl(q) + 1 < depth ==> half(q, depth) > 0,
        lo_of(2 * q, depth) == lo_of(q, depth),
        lo_of(2 * q + 1, depth) == pos_of(q, depth) + 1,
        lvl(q) + 1 < depth ==> hi_of(2 * q, depth) == pos_of(q, depth),
        lvl(q) + 1 < depth ==> hi_of(2 * q + 1, depth) == hi_of(q, depth),
        lvl(q) + 1 < depth ==> sz(2 * q, depth) == half(q, depth) && sz(2 * q + 1, depth)
            == half(q, depth),
    decreases q,
{
    lemma_lvl_child(q);
    lemma2_to64();
    assert((2 * q) / 2 == q);
    assert((2 * q + 1) / 2 == q);
    lemma_pow2_unfold((depth - lvl(q)) as nat);
    lemma_pow2_pos((depth - lvl(q) - 1) as nat);
    if lvl(q) + 1 < depth {
        lemma_pow2_unfold((depth - lvl(q) - 1) as nat);
        lemma_pow2_pos((depth - lvl(q) - 2) as nat);
    }
    if q > 1 {
        lemma_places(q / 2, depth);
    }
}

/// The ranks under a node lie among those under its parent.
pub proof fn lemma_nested(q: int, depth: int)
    requires
        q >= 1,
        lvl(q) < depth,
    ensures
        0 <= lo_of(q, depth),
        hi_of(q, depth) <= pow2(depth as nat) - 1,
    decreases q,
{
    lemma_places(q, depth);
    if q > 1 {
        lemma_lvl_child(q / 2);
        lemma_places(q / 2, depth);
        lemma_nested(q / 2, depth);
        if q % 2 == 0 {
            assert(q == 2 * (q / 2));
        } else {
            assert(q == 2 * (q / 2) + 1);
        }
    } else {
    }
}

/// Seeking a rank under `q` finds a node of the tree that has that rank.
pub proof fn lemma_seek_finds(q: int, r: int, d: int, depth: int)
    requires
        q >= 1,
        lvl(q) < depth,
        d == depth - lvl(q),
        lo_of(q, depth) <= r < hi_of(q, depth),
    ensures
        seek(q, r, d, depth) >= 1,
        lvl(seek(q, r, d, depth)) < depth,
        pos_of(seek(q, r, d, depth), depth) == r,
        above(q, seek(q, r, d, depth)),
    decreases d,
{
    lemma_places(q, depth);
    lemma_lvl_child(q);
    if d <= 1 || r == pos_of(q, depth) {
    } else if r < pos_of(q, depth) {
        lemma_seek_finds(2 * q, r, d - 1, depth);
        lemma_above_step(q, 2 * q, seek(2 * q, r, d - 1, depth));
    } else {
        lemma_seek_finds(2 * q + 1, r, d - 1, depth);
        lemma_above_step(q, 2 * q + 1, seek(2 * q + 1, r, d - 1, depth));
    }
}

/// What stands under a child stands under its parent.
pub proof fn lemma_above_step(a: int, c: int, q: int)
    requires
        a >= 1,
        c == 2 * a || c == 2 * a + 1,
        above(c, q),
    ensures
        above(a, q),
        q >= c,
    decreases q,
{
    if q == c {
        assert(c / 2 == a);
        assert(above(a, a));
    } else {
        lemma_above_step(a, c, q / 2);
    }
}

/// Every node stands under the root.
pub proof fn lemma_above_root(q: int)
    requires
        q >= 1,
    ensures
        above(1, q),
    decreases q,
{
    if q > 1 {
        lemma_above_root(q / 2);
    }
}

/// What stands under a node and is not that node stands under one of its children.
pub proof fn lemma_above_child(a: int, q: int)
    requires
        a >= 1,
        above(a, q),
        q != a,
    ensures
        above(2 * a, q) || above(2 * a + 1, q),
    decreases q,
{
    if q / 2 == a {
        if q % 2 == 0 {
            assert(q == 2 * a);
        } else {
            assert(q == 2 * a + 1);
        }
    } else {
        lemma_above_child(a, q / 2);
        if above(2 * a, q / 2) {
            lemma_above_step(a, 2 * a, q / 2);
            assert(q / 2 >= 2 * a);
        } else {
            lemma_above_step(a, 2 * a + 1, q / 2);
            assert(q / 2 >= 2 * a + 1);
        }
    }
}

/// Seeking the rank of a node under one that stands above it finds that node.
pub proof fn lemma_seek_back(a: int, q: int, d: int, depth: int)
    requires
        a >= 1,
        above(a, q),
        lvl(q) < depth,
        d == depth - lvl(a),
    ensures
        lvl(a) <= lvl(q),
        lo_of(a, depth) <= pos_of(q, depth) < hi_of(a, depth),
        seek(a, pos_of(q, depth), d, depth) == q,
    decreases q - a,
{
    lemma_lvl_child(a);
    if q == a {
        lemma_places(a, depth);
    } else {
        lemma_above_child(a, q);
        if above(2 * a, q) {
            lemma_above_step(a, 2 * a, q);
            lemma_seek_back(2 * a, q, d - 1, depth);
            lemma_places(a, depth);
        } else {
            lemma_above_step(a, 2 * a + 1, q);
            lemma_seek_back(2 * a + 1, q, d - 1, depth);
            lemma_places(a, depth);
        }
    }
}

/// Each level down to the last adds its colour to the black height.
pub proof fn lemma_blacks(level: int, depth: int)
    requires
        0 <= level < depth,
    ensures
        blacks(level, depth) == blacks(level + 1, depth) + (if level % 2 == 0 {
            1int
        } else {
            0int
        }),
        blacks(depth, depth) == 0,
        blacks(level, depth) >= 0,
    decreases depth - level,
{
    if level + 1 < depth {
        lemma_blacks(level + 1, depth);
    }
}

/// The place in a sorted slice of `n` values from which the node `q` takes its
/// value: the slice is cut into `2^i` runs, `i` the level of `q`, and the node takes
/// the middle of its run.
pub open spec fn slot_of(q: int, n: int) -> int {
    (n / 2 + (q - pow2(lvl(q) as nat)) * n) / (pow2(lvl(q) as nat) as int)
}

/// The place in a slice of `n` values of the node of rank `m - 1`.
pub open spec fn rank_slot(m: int, n: int, depth: int) -> int {
    (n * m) / (pow2(depth as nat) as int)
}

/// The rank of a node in closed form.
pub proof fn lemma_pos_closed(q: int, depth: int)
    requires
        q >= 1,
        lvl(q) < depth,
    ensures
        lo_of(q, depth) == (q - pow2(lvl(q) as nat)) * pow2((depth - lvl(q)) as nat),
        pos_of(q, depth) + 1 == (2 * (q - pow2(lvl(q) as nat)) + 1) * pow2(
            (depth - lvl(q) - 1) as nat,
        ),
    decreases q,
{
    lemma2_to64();
    let i = lvl(q);
    let c = pow2((depth - i - 1) as nat) as int;
    let k = q - pow2(i as nat);
    lemma_pow2_unfold((depth - i) as nat);
    lemma_pow2_pos((depth - i - 1) as nat);
    if q > 1 {
        let a = q / 2;
        lemma_lvl_child(a);
        lemma_pos_closed(a, depth);
        lemma_places(a, depth);
        let ka = a - pow2(lvl(a) as nat);
        lemma_pow2_unfold(i as nat);
        lemma_pow2_unfold((depth - lvl(a)) as nat);
        if q % 2 == 0 {
            assert(q == 2 * a);
            assert(k == 2 * ka);
            assert(lo_of(q, depth) == ka * (2 * (2 * c)));
            assert(ka * (2 * (2 * c)) == k * (2 * c)) by (nonlinear_arith)
                requires
                    k == 2 * ka,
            ;
        } else {
            assert(q == 2 * a + 1);
            assert(k == 2 * ka + 1);
            assert(lo_of(q, depth) == ka * (2 * (2 * c)) + 2 * c);
            assert(ka * (2 * (2 * c)) + 2 * c == k * (2 * c)) by (nonlinear_arith)
                requires
                    k == 2 * ka + 1,
            ;
        }
    } else {
        assert(k == 0);
        assert(k * (2 * c) == 0) by (nonlinear_arith)
            requires
                k == 0,
        ;
    }
    assert(lo_of(q, depth) == k * (2 * c));
    assert(k * (2 * c) + c == (2 * k + 1) * c) by (nonlinear_arith);
}

/// An odd number and the number before it give the same quotient by an even number.
pub proof fn lemma_odd_over_even(x: int, d: int)
    requires
        x >= 0,
        d > 0,
        x % 2 == 1,
        d % 2 == 0,
    ensures
        (x - 1) / d == x / d,
{
    vstd::arithmetic::div_mod::lemma_fundamental_div_mod(x, d);
    let q = x / d;
    let r = x % d;
    assert(0 <= r < d) by {
        vstd::arithmetic::div_mod::lemma_mod_pos_bound(x, d);
    }
    if r == 0 {
        let e = d / 2;
        assert(d == 2 * e);
        assert(d * q == 2 * (e * q)) by (nonlinear_arith)
            requires
                d == 2 * e,
        ;
        assert(false);
    }
    assert(x - 1 == q * d + (r - 1)) by (nonlinear_arith)
        requires
            x == d * q + r,
    ;
    vstd::arithmetic::div_mod::lemma_fundamental_div_mod_converse(x - 1, d, q, r - 1);
}

/// The place from which a node takes its value, told by its rank.
pub proof fn lemma_slot_by_rank(q: int, n: int, depth: int)
    requires
        q >= 1,
        lvl(q) < depth,
        n >= 1,
    ensures
        slot_of(q, n) == rank_slot(pos_of(q, depth) + 1, n, depth),
{
    lemma2_to64();
    lemma_lvl_range(q);
    lemma_pos_closed(q, depth);
    let i = lvl(q);
    let p = pow2(i as nat) as int;
    let c = pow2((depth - i - 1) as nat) as int;
    let k = q - p;
    let t = 2 * k + 1;
    let h = n / 2;
    let e = n % 2;
    lemma_pow2_pos(i as nat);
    lemma_pow2_pos((depth - i - 1) as nat);
    vstd::arithmetic::power2::lemma_pow2_adds((i + 1) as nat, (depth - i - 1) as nat);
    lemma_pow2_unfold((i + 1) as nat);
    let big = pow2(depth as nat) as int;
    assert(big == (2 * p) * c);
    assert(n == 2 * h + e);
    // the rank side: n * m / 2^depth == n * t / (2 * p)
    assert(n * (t * c) == c * (n * t)) by (nonlinear_arith);
    assert((2 * p) * c == c * (2 * p)) by (nonlinear_arith);
    assert(n * t >= 0) by (nonlinear_arith)
        requires
            n >= 1,
            t >= 1,
    ;
    vstd::arithmetic::div_mod::lemma_div_multiples_vanish_quotient(c, n * t, 2 * p);
    assert(rank_slot(pos_of(q, depth) + 1, n, depth) == (n * t) / (2 * p));
    // the slot side: (h + k * n) / p == (2 * h + 2 * k * n) / (2 * p)
    assert(h + k * n >= 0) by (nonlinear_arith)
        requires
            h >= 0,
            k >= 0,
            n >= 1,
    ;
    vstd::arithmetic::div_mod::lemma_div_multiples_vanish_quotient(2, h + k * n, p);
    assert(2 * (h + k * n) == n * t - e) by (nonlinear_arith)
        requires
            n == 2 * h + e,
            t == 2 * k + 1,
    ;
    assert(slot_of(q, n) == (n * t - e) / (2 * p));
    if e == 1 {
        let w = 2 * (h * k) + h + k;
        assert(n * t == 2 * w + 1) by (nonlinear_arith)
            requires
                n == 2 * h + 1,
                t == 2 * k + 1,
                w == 2 * (h * k) + h + k,
        ;
        assert((2 * p) % 2 == 0);
        lemma_odd_over_even(n * t, 2 * p);
    }
}

/// Nodes of greater rank take their values from later places, and every place lies
/// in the slice.
pub proof fn lemma_rank_slot_ascends(m1: int, m2: int, n: int, depth: int)
    requires
        depth >= 0,
        1 <= m1 < m2 < pow2(depth as nat),
        n >= pow2(depth as nat) - 1,
    ensures
        0 <= rank_slot(m1, n, depth) < rank_slot(m2, n, depth) < n,
{
    let big = pow2(depth as nat) as int;
    lemma_pow2_pos(depth as nat);
    assert(n * m1 >= 0) by (nonlinear_arith)
        requires
            n >= 0,
            m1 >= 1,
    ;
    vstd::arithmetic::div_mod::lemma_div_pos_is_pos(n * m1, big);
    // the last place lies in the slice
    assert(n * m2 <= n * (big - 1)) by (nonlinear_arith)
        requires
            n >= 0,
            m2 <= big - 1,
    ;
    assert(n * (big - 1) == (n - 1) * big + (big - n)) by (nonlinear_arith);
    if n >= big {
        assert(n * (big - 1) < n * big) by (nonlinear_arith)
            requires
                n >= 1,
        ;
        vstd::arithmetic::div_mod::lemma_div_is_ordered(n * m2, n * big - 1, big);
        assert((n * big - 1) / big < n) by {
            assert(n * big - 1 == (n - 1) * big + (big - 1)) by (nonlinear_arith);
            vstd::arithmetic::div_mod::lemma_fundamental_div_mod_converse(
                n * big - 1,
                big,
                n - 1,
                big - 1,
            );
        }
        // a step of one rank is a step of at least one place
        assert(n * m2 >= n * m1 + big) by (nonlinear_arith)
            requires
                n >= big,
                m2 >= m1 + 1,
                n >= 0,
        ;
        vstd::arithmetic::div_mod::lemma_div_is_ordered(n * m1 + big, n * m2, big);
        vstd::arithmetic::div_mod::lemma_div_plus_one(n * m1, big);
    } else {
        assert(n == big - 1);
        assert(n * m1 == (m1 - 1) * big + (big - m1)) by (nonlinear_arith)
            requires
                n == big - 1,
        ;
        vstd::arithmetic::div_mod::lemma_fundamental_div_mod_converse(
            n * m1,
            big,
            m1 - 1,
            big - m1,
        );
        assert(n * m2 == (m2 - 1) * big + (big - m2)) by (nonlinear_arith)
            requires
                n == big - 1,
        ;
        vstd::arithmetic::div_mod::lemma_fundamental_div_mod_converse(
            n * m2,
            big,
            m2 - 1,
            big - m2,
        );
    }
}

} // verus!
