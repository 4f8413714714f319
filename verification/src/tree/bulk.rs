use vstd::prelude::*;
use vstd::arithmetic::power2::{lemma_pow2_pos, pow2};
use crate::node::{Color, Node, EMPTY_REF};
use crate::order::{lawful, lt};
use crate::tree::perfect::{
    blacks, hi_of, lemma_above_root, lemma_blacks, lemma_in_tree, lemma_lvl_child,
    lemma_nested, lemma_places, lemma_rank_slot_ascends, lemma_seek_back, lemma_seek_finds,
    lemma_slot_by_rank, lo_of, lvl, perfect_shape, pos_of, rank_slot, seek, slot_of,
};
use crate::tree::Tree;

verus! {

/// The values of `slice` ascend strictly.
pub open spec fn ascending<T: PartialOrd>(slice: Seq<T>) -> bool {
    forall|a: int, b: int| 0 <= a < b < slice.len() ==> lt(#[trigger] slice[a], #[trigger] slice[b])
}

/// The node that a perfect tree over `slice` has under the number `q` once the nodes
/// up to `j` are laid out.
pub open spec fn laid_node<T>(slice: Seq<T>, q: int, j: int) -> Node<T> {
    Node {
        parent: if q == 1 {
            EMPTY_REF
        } else {
            (q / 2) as u32
        },
        left: if 2 * q <= j {
            (2 * q) as u32
        } else {
            EMPTY_REF
        },
        right: if 2 * q + 1 <= j {
            (2 * q + 1) as u32
        } else {
            EMPTY_REF
        },
        color: if lvl(q) % 2 == 0 {
            Color::Black
        } else {
            Color::Red
        },
        value: slice[slot_of(q, slice.len() as int)],
    }
}

/// Some node up to `j` takes its value from the place `t` of a slice of `n` values.
pub open spec fn taken(n: int, j: int, t: int) -> bool {
    exists|q: int| 1 <= q <= j && #[trigger] slot_of(q, n) == t
}

/// `idx` ascends strictly within `0..n`.
pub open spec fn climbing(idx: Seq<int>, n: int) -> bool {
    &&& forall|r: int| 0 <= r < idx.len() ==> 0 <= #[trigger] idx[r] < n
    &&& forall|a: int, b: int| 0 <= a < b < idx.len() ==> #[trigger] idx[a] < #[trigger] idx[b]
}

/// `u` is a term of `idx`.
pub open spec fn covers(idx: Seq<int>, u: int) -> bool {
    exists|r: int| 0 <= r < idx.len() && #[trigger] idx[r] == u
}

/// A strictly ascending sequence within `0..n` is no longer than `n`, and each term is
/// at least its index.
pub proof fn lemma_climbing_bound(idx: Seq<int>, n: int, r: int)
    requires
        climbing(idx, n),
        0 <= r < idx.len(),
    ensures
        r <= idx[r],
        idx.len() <= n,
    decreases idx.len() - r,
{
    lemma_climbing_floor(idx, n, r);
    let last = idx.len() - 1;
    lemma_climbing_floor(idx, n, last);
}

/// Each term of a strictly ascending sequence within `0..n` is at least its index.
pub proof fn lemma_climbing_floor(idx: Seq<int>, n: int, r: int)
    requires
        climbing(idx, n),
        0 <= r < idx.len(),
    ensures
        r <= idx[r],
    decreases r,
{
    if r > 0 {
        lemma_climbing_floor(idx, n, r - 1);
    }
}

/// In a strictly ascending sequence that takes every value of `0..n`, the value `r` is
/// the term `r`.
pub proof fn lemma_cover_at(idx: Seq<int>, n: int, r: int)
    requires
        climbing(idx, n),
        forall|u: int| 0 <= u < n ==> #[trigger] covers(idx, u),
        0 <= r < n,
    ensures
        r < idx.len(),
        idx[r] == r,
    decreases r,
{
    assert(covers(idx, r));
    let at = choose|at: int| 0 <= at < idx.len() && #[trigger] idx[at] == r;
    lemma_climbing_floor(idx, n, at);
    if at < r {
        lemma_cover_at(idx, n, at);
    }
}

/// A strictly ascending sequence that takes every value of `0..n` is `0, 1, .. n - 1`.
pub proof fn lemma_full_cover(idx: Seq<int>, n: int)
    requires
        n >= 0,
        climbing(idx, n),
        forall|u: int| 0 <= u < n ==> #[trigger] covers(idx, u),
    ensures
        idx.len() == n,
        forall|r: int| 0 <= r < n ==> #[trigger] idx[r] == r,
{
    if idx.len() > 0 {
        lemma_climbing_bound(idx, n, 0);
    }
    if n > 0 {
        lemma_cover_at(idx, n, n - 1);
    }
    assert forall|r: int| 0 <= r < n implies #[trigger] idx[r] == r by {
        lemma_cover_at(idx, n, r);
    }
}

/// Every node of the perfect tree takes its value from a place of the slice.
pub proof fn lemma_slot_in_slice(q: int, n: int, depth: int)
    requires
        q >= 1,
        lvl(q) < depth,
        n >= 1,
        n >= pow2(depth as nat) - 1,
    ensures
        0 <= slot_of(q, n) < n,
{
    lemma_lvl_child(q);
    lemma_places(q, depth);
    lemma_nested(q, depth);
    lemma_slot_by_rank(q, n, depth);
    let m = pos_of(q, depth) + 1;
    let big = pow2(depth as nat) as int;
    if m + 1 < big {
        lemma_rank_slot_ascends(m, m + 1, n, depth);
    } else if m > 1 {
        lemma_rank_slot_ascends(m - 1, m, n, depth);
    } else {
        // a tree of one node
        vstd::arithmetic::power2::lemma2_to64();
        assert(big == 2);
        assert(n * 1 == n) by (nonlinear_arith);
        assert(n / 2 < n);
        assert(0 <= n / 2);
    }
}

/// The places that the nodes up to `j + 2` take are those that the nodes up to `j`
/// take and the two of the new nodes.
pub proof fn lemma_taken_step(n: int, j: int, t: int)
    requires
        j >= 1,
    ensures
        taken(n, j + 2, t) == (taken(n, j, t) || t == slot_of(j + 1, n) || t == slot_of(j + 2, n)),
{
    if taken(n, j, t) {
        let q = choose|q: int| 1 <= q <= j && #[trigger] slot_of(q, n) == t;
        assert(1 <= q <= j + 2 && slot_of(q, n) == t);
    }
    if t == slot_of(j + 1, n) {
        assert(1 <= j + 1 <= j + 2 && slot_of(j + 1, n) == t);
    }
    if t == slot_of(j + 2, n) {
        assert(1 <= j + 2 <= j + 2 && slot_of(j + 2, n) == t);
    }
    if taken(n, j + 2, t) {
        let q = choose|q: int| 1 <= q <= j + 2 && #[trigger] slot_of(q, n) == t;
        if q <= j {
            assert(1 <= q <= j && slot_of(q, n) == t);
        }
    }
}

impl<T: Clone + PartialEq + Eq + PartialOrd + Ord> Tree<T> {
    /// The nodes 1 to `j` of the perfect tree over `slice` are laid out in the slots of
    /// the same numbers, under the root 1.
    pub open(crate) spec fn built(&self, slice: Seq<T>, j: int) -> bool {
        &&& self.nil_index == 0
        &&& self.root == 1
        &&& 1 <= j < self.slots().len()
        &&& forall|q: u32| 1 <= q <= j ==> #[trigger] self.nd(q) == laid_node(slice, q as int, j)
    }

    /// A perfect tree of `depth` levels that is laid out over an ascending slice is a
    /// sound tree, and its values are those of the places that its ranks name.
    #[verifier::rlimit(100)]
    pub(crate) proof fn lemma_perfect_sound(&self, slice: Seq<T>, depth: int)
        requires
            lawful::<T>(),
            depth >= 1,
            ascending(slice),
            pow2(depth as nat) - 1 <= slice.len(),
            self.built(slice, pow2(depth as nat) - 1),
            self.store.wf(),
            self.store.packed(),
            self.store.next_handle() == pow2(depth as nat),
            self.shape@ == perfect_shape(depth),
        ensures
            self.wf(),
            self.count() == pow2(depth as nat) - 1,
            forall|r: int|
                0 <= r < self.count() ==> #[trigger] self.val_at(r) == slice[rank_slot(
                    r + 1,
                    slice.len() as int,
                    depth,
                )],
            forall|r: int|
                0 <= r < self.count() ==> 1 <= #[trigger] self.order()[r] < pow2(depth as nat)
                    && pos_of(self.order()[r] as int, depth) == r,
            forall|q: u32| 1 <= q < pow2(depth as nat) ==> #[trigger] self.live(q),
    {
        let big = pow2(depth as nat) as int;
        let count = big - 1;
        let n = slice.len() as int;
        lemma_pow2_pos(depth as nat);
        lemma_places(1, depth);
        assert(lo_of(1, depth) == 0);
        assert(hi_of(1, depth) == count);
        assert forall|r: int| 0 <= r < count implies 1 <= #[trigger] self.order()[r] < big
            && pos_of(self.order()[r] as int, depth) == r by {
            lemma_seek_finds(1, r, depth, depth);
            let t = seek(1, r, depth, depth);
            lemma_in_tree(t, depth);
        }
        assert forall|q: u32| 1 <= q < big implies #[trigger] self.live(q) by {
            lemma_in_tree(q as int, depth);
            lemma_above_root(q as int);
            lemma_seek_back(1, q as int, depth, depth);
        }
        assert forall|q: u32| #[trigger] self.live(q) implies 1 <= q < big by {
            let r = self.pos(q);
            assert(1 <= self.order()[r] < big);
        }
        assert(self.arena_ok()) by {
            assert forall|k: int| 0 <= k < self.store.unused@.len() implies !self.live(
                #[trigger] self.store.unused@[k],
            ) && self.store.unused@[k] != self.nil_index by {
                let f = self.store.unused@[k];
                assert(self.store.free()[k] == self.store.slots().len() - 1 - k);
                if self.live(f) {
                    assert(1 <= f < big);
                }
            }
            if self.live(self.nil_index) {
                assert(1 <= self.nil_index < big);
            }
        }
        assert(self.live(1u32));
        assert(self.nd(1u32) == laid_node(slice, 1, count));
        assert(self.root_ok());
        assert forall|h: u32| self.live(h) implies #[trigger] self.link_ok(h) by {
            assert(1 <= h < big);
            let q = h as int;
            lemma_in_tree(q, depth);
            lemma_places(q, depth);
            lemma_nested(q, depth);
            lemma_lvl_child(q);
            assert(self.nd(h) == laid_node(slice, q, count));
            lemma_in_tree(2 * q, depth);
            lemma_in_tree(2 * q + 1, depth);
            if lvl(q) + 1 < depth {
                assert(2 * q + 1 < big);
                let l = (2 * q) as u32;
                let r = (2 * q + 1) as u32;
                assert(self.live(l));
                assert(self.live(r));
                assert(self.nd(l) == laid_node(slice, 2 * q, count));
                assert(self.nd(r) == laid_node(slice, 2 * q + 1, count));
                assert((2 * q) / 2 == q);
                assert((2 * q + 1) / 2 == q);
            } else {
                assert(2 * q >= big);
            }
            if q > 1 {
                let u = (q / 2) as u32;
                assert(self.live(u));
                assert(self.nd(u) == laid_node(slice, q / 2, count));
            }
        }
        assert forall|r: int| 0 <= r < self.count() implies #[trigger] self.val_at(r)
            == slice[rank_slot(r + 1, n, depth)] by {
            let h = self.order()[r];
            assert(1 <= h < big);
            lemma_in_tree(h as int, depth);
            assert(self.nd(h) == laid_node(slice, h as int, count));
            lemma_slot_by_rank(h as int, n, depth);
        }
        assert forall|a: int, b: int|
            0 <= a < b < self.count() && self.order()[a] != self.nil_index && self.order()[b]
                != self.nil_index implies lt(
            #[trigger] self.val_at(a),
            #[trigger] self.val_at(b),
        ) by {
            lemma_rank_slot_ascends(a + 1, b + 1, n, depth);
            assert(self.val_at(a) == slice[rank_slot(a + 1, n, depth)]);
            assert(self.val_at(b) == slice[rank_slot(b + 1, n, depth)]);
        }
        assert forall|h: u32| self.live(h) implies #[trigger] self.bh_ok(h) by {
            assert(1 <= h < big);
            let q = h as int;
            lemma_in_tree(q, depth);
            lemma_lvl_child(q);
            lemma_blacks(lvl(q), depth);
            assert(self.nd(h) == laid_node(slice, q, count));
            lemma_in_tree(2 * q, depth);
            lemma_in_tree(2 * q + 1, depth);
            assert(self.bh(h) == blacks(lvl(q), depth));
            if lvl(q) + 1 < depth {
                lemma_blacks(lvl(q) + 1, depth);
                assert(2 * q + 1 < big);
                let l = (2 * q) as u32;
                let r = (2 * q + 1) as u32;
                assert(self.bh(l) == blacks(lvl(2 * q), depth));
                assert(self.bh(r) == blacks(lvl(2 * q + 1), depth));
            } else {
                assert(2 * q >= big);
            }
        }
        assert forall|h: u32| self.live(h) implies #[trigger] self.red_ok(h) by {
            assert(1 <= h < big);
            let q = h as int;
            lemma_in_tree(q, depth);
            lemma_lvl_child(q);
            assert(self.nd(h) == laid_node(slice, q, count));
            lemma_in_tree(2 * q, depth);
            lemma_in_tree(2 * q + 1, depth);
            if lvl(q) + 1 < depth {
                let l = (2 * q) as u32;
                let r = (2 * q + 1) as u32;
                assert(self.nd(l) == laid_node(slice, 2 * q, count));
                assert(self.nd(r) == laid_node(slice, 2 * q + 1, count));
            }
        }
    }
}

} // verus!
