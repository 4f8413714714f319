use vstd::prelude::*;
use vstd::arithmetic::power2::pow2;
use crate::bits::{ceil_log2, lemma_ceil_log2};
use crate::node::{Color, EMPTY_REF};
use crate::order::lt;
use crate::tree::bulk::ascending;
use crate::tree::Tree;

verus! {

impl<T: Clone + PartialEq + Eq + PartialOrd + Ord> Tree<T> {
    /// The handle `h` is on the free stack of the arena.
    pub open(crate) spec fn is_free(&self, h: u32) -> bool {
        exists|k: int| 0 <= k < self.store.unused@.len() && #[trigger] self.store.unused@[k] == h
    }

    /// The number of nodes on the way from `h` up to the root, both counted, as far as
    /// `fuel` steps lead.
    pub open(crate) spec fn climb(&self, h: u32, fuel: nat) -> int
        decreases fuel,
    {
        if fuel == 0 || h == EMPTY_REF {
            0
        } else {
            1 + self.climb(self.nd(h).parent, (fuel - 1) as nat)
        }
    }

    /// The number of black nodes on the way from `h` up to the root, both counted, as
    /// far as `fuel` steps lead.
    pub open(crate) spec fn climb_blacks(&self, h: u32, fuel: nat) -> int
        decreases fuel,
    {
        if fuel == 0 || h == EMPTY_REF {
            0
        } else {
            self.black(h) + self.climb_blacks(self.nd(h).parent, (fuel - 1) as nat)
        }
    }

    /// The depth of the node `h`: the number of nodes on the way from it up to the
    /// root, both counted.
    pub open(crate) spec fn depth(&self, h: u32) -> int {
        self.climb(h, self.store.buffer@.len())
    }

    /// The number of black nodes on the way from `h` up to the root, both counted.
    pub open(crate) spec fn black_depth(&self, h: u32) -> int {
        self.climb_blacks(h, self.store.buffer@.len())
    }

    /// Twice the black height of `h`, and one more for a red node: no way down from
    /// `h` holds more nodes than that.
    pub open(crate) spec fn reach(&self, h: u32) -> int {
        2 * self.bh(h) + self.red(h)
    }

    pub(crate) proof fn lemma_climb(&self, h: u32, fuel: nat)
        requires
            self.wf(),
            self.live(h),
            fuel >= self.count() - self.size(h) + 1,
        ensures
            self.climb_blacks(h, fuel) == self.bh(self.root) - self.bh(h) + self.black(h),
            self.climb(h, fuel) <= self.reach(self.root) - self.reach(h) + 1,
            self.reach(h) >= 1,
        decreases fuel,
    {
        assert(self.link_ok(h));
        assert(self.bh_ok(h));
        assert(self.red_ok(h));
        let p = self.nd(h).parent;
        if p == EMPTY_REF {
            assert(self.climb_blacks(p, (fuel - 1) as nat) == 0);
            assert(self.climb(p, (fuel - 1) as nat) == 0);
        } else {
            assert(self.link_ok(p));
            assert(self.bh_ok(p));
            assert(self.red_ok(p));
            self.lemma_climb(p, (fuel - 1) as nat);
        }
    }

    /// How handles, ranks and values hang together: the node of rank `p` holds the
    /// `p`-th value in ascending order, every node has a rank, and every handle of a
    /// node names a slot. The root is there when the tree is not empty.
    pub proof fn lemma_ranks(&self)
        requires
            self.wf(),
        ensures
            forall|p: int|
                0 <= p < self@.len() ==> self.holds(#[trigger] self.handle_at(p)) && self.rank(
                    self.handle_at(p),
                ) == p && self.node_at(self.handle_at(p)).value == self@[p],
            forall|h: u32|
                #[trigger] self.holds(h) ==> 0 <= self.rank(h) < self@.len() && self.handle_at(
                    self.rank(h),
                ) == h && h < self.slot_count() && h != EMPTY_REF,
            (self@.len() == 0) == (self.root_handle() == EMPTY_REF),
            self@.len() > 0 ==> self.holds(self.root_handle()) && self.node_at(
                self.root_handle(),
            ).parent == EMPTY_REF,
    {
        assert forall|p: int| 0 <= p < self@.len() implies self.holds(#[trigger] self.handle_at(p))
            && self.rank(self.handle_at(p)) == p && self.node_at(self.handle_at(p)).value
            == self@[p] by {
            assert(self.pos(self.order()[p]) == p);
        }
        if self.root != EMPTY_REF {
            if self.count() == 0 {
            }
        }
    }

    /// The links of a node: its children and its parent are nodes of the tree that
    /// name it in turn, the ranks below it are those of its left subtree, and the
    /// ranks above it those of its right subtree.
    pub proof fn lemma_links(&self, h: u32)
        requires
            self.wf(),
            self.holds(h),
        ensures
            self.subtree_start(h) <= self.rank(h) < self.subtree_end(h),
            self.node_at(h).left == EMPTY_REF <==> self.subtree_start(h) == self.rank(h),
            self.node_at(h).right == EMPTY_REF <==> self.rank(h) + 1 == self.subtree_end(h),
            self.node_at(h).left != EMPTY_REF ==> {
                let l = self.node_at(h).left;
                &&& self.holds(l)
                &&& self.node_at(l).parent == h
                &&& self.subtree_start(l) == self.subtree_start(h)
                &&& self.subtree_end(l) == self.rank(h)
            },
            self.node_at(h).right != EMPTY_REF ==> {
                let r = self.node_at(h).right;
                &&& self.holds(r)
                &&& self.node_at(r).parent == h
                &&& self.subtree_start(r) == self.rank(h) + 1
                &&& self.subtree_end(r) == self.subtree_end(h)
            },
            self.node_at(h).parent == EMPTY_REF <==> h == self.root_handle(),
            self.node_at(h).parent != EMPTY_REF ==> {
                let p = self.node_at(h).parent;
                &&& self.holds(p)
                &&& (self.node_at(p).left == h || self.node_at(p).right == h)
            },
    {
        assert(self.link_ok(h));
    }

    /// The values of a tree ascend strictly: what `ordered_list` returns is the
    /// ascending sort of the values that the tree holds.
    pub proof fn lemma_ascending(&self)
        requires
            self.wf(),
        ensures
            ascending(self@),
    {
        assert forall|a: int, b: int| 0 <= a < b < self@.len() implies lt(
            #[trigger] self@[a],
            #[trigger] self@[b],
        ) by {
            assert(self.pos(self.order()[a]) == a);
            assert(self.pos(self.order()[b]) == b);
            assert(lt(self.val_at(a), self.val_at(b)));
        }
    }

    /// An insertion adds its value to those of the tree and leaves the others; a
    /// deletion takes its value away.
    pub proof fn lemma_values_after(&self, o: &Self, value: T, k: int)
        requires
            0 <= k <= o@.len(),
        ensures
            self@ == o@.insert(k, value) ==> forall|v: T|
                self@.contains(v) == (o@.contains(v) || v == value),
            (k < o@.len() && self@ == o@.remove(k)) ==> forall|v: T|
                #![trigger self@.contains(v)]
                self@.contains(v) ==> o@.contains(v),
    {
        if self@ == o@.insert(k, value) {
            assert forall|v: T| self@.contains(v) == (o@.contains(v) || v == value) by {
                if self@.contains(v) {
                    let r = choose|r: int| 0 <= r < self@.len() && self@[r] == v;
                    if r < k {
                        assert(o@[r] == v);
                    } else if r > k {
                        assert(o@[r - 1] == v);
                    }
                }
                if o@.contains(v) {
                    let r = choose|r: int| 0 <= r < o@.len() && o@[r] == v;
                    if r < k {
                        assert(self@[r] == v);
                    } else {
                        assert(self@[r + 1] == v);
                    }
                }
                if v == value {
                    assert(self@[k] == v);
                }
            }
        }
        if k < o@.len() && self@ == o@.remove(k) {
            assert forall|v: T| #![trigger self@.contains(v)] self@.contains(v) implies o@.contains(
                v,
            ) by {
                let r = choose|r: int| 0 <= r < self@.len() && self@[r] == v;
                if r < k {
                    assert(o@[r] == v);
                } else {
                    assert(o@[r + 1] == v);
                }
            }
        }
    }

    /// The ordering law, step by step: after an insertion the values of the tree are
    /// those it held and the new one, in ascending order; after a deletion they are
    /// those it held but the deleted one, in ascending order.
    pub proof fn lemma_ordering(&self, o: &Self, value: T, index: u32)
        requires
            o.wf(),
            self.wf(),
        ensures
            ascending(self@),
            (exists|k: int, x: u32| self.inserted(o, value, k, x)) ==> self@.len() == o@.len() + 1
                && forall|v: T| self@.contains(v) == (o@.contains(v) || v == value),
            o.holds(index) && self.deleted(o, index) ==> self@.len() == o@.len() - 1 && forall|v: T|
                #![trigger self@.contains(v)]
                self@.contains(v) == (o@.contains(v) && v != o.node_at(index).value),
    {
        self.lemma_ascending();
        o.lemma_ascending();
        if exists|k: int, x: u32| self.inserted(o, value, k, x) {
            let (k, x) = choose|k: int, x: u32| self.inserted(o, value, k, x);
            self.lemma_values_after(o, value, k);
        }
        if o.holds(index) && self.deleted(o, index) {
            let k = o.rank(index);
            let gone = o.nd(index).value;
            assert(o@[k] == gone) by {
                assert(o.pos(o.order()[k]) == k);
            }
            assert forall|v: T| #![trigger self@.contains(v)] self@.contains(v) == (o@.contains(v)
                && v != gone) by {
                if self@.contains(v) {
                    let r = choose|r: int| 0 <= r < self@.len() && self@[r] == v;
                    let r2 = if r < k {
                        r
                    } else {
                        r + 1
                    };
                    assert(o@[r2] == v);
                    crate::order::lemma_lt_irreflexive(v);
                    if r2 < k {
                        assert(lt(o@[r2], o@[k]));
                    } else {
                        assert(lt(o@[k], o@[r2]));
                    }
                }
                if o@.contains(v) && v != gone {
                    let r = choose|r: int| 0 <= r < o@.len() && o@[r] == v;
                    if r < k {
                        assert(self@[r] == v);
                    } else {
                        assert(self@[r - 1] == v);
                    }
                }
            }
        }
    }

    /// The root of a tree is black.
    pub proof fn lemma_black_root(&self)
        requires
            self.wf(),
            self.root_handle() != EMPTY_REF,
        ensures
            self.node_at(self.root_handle()).color == Color::Black,
    {
    }

    /// The red rule: a red node has no red child, so no red node has a red parent.
    pub proof fn lemma_red_rule(&self, h: u32)
        requires
            self.wf(),
            self.holds(h),
            self.node_at(h).color == Color::Red,
        ensures
            self.node_at(h).left != EMPTY_REF ==> self.node_at(self.node_at(h).left).color
                == Color::Black,
            self.node_at(h).right != EMPTY_REF ==> self.node_at(self.node_at(h).right).color
                == Color::Black,
            self.node_at(h).parent != EMPTY_REF ==> self.node_at(self.node_at(h).parent).color
                == Color::Black,
    {
        assert(self.link_ok(h));
        assert(self.red_ok(h));
        let p = self.nd(h).parent;
        if p != EMPTY_REF {
            assert(self.link_ok(p));
            assert(self.red_ok(p));
        }
    }

    /// The black rule: every way from the root down to a missing child holds the same
    /// number of black nodes, the black height of the root.
    pub proof fn lemma_black_rule(&self, h: u32)
        requires
            self.wf(),
            self.holds(h),
            self.node_at(h).left == EMPTY_REF || self.node_at(h).right == EMPTY_REF,
        ensures
            self.black_depth(h) == self.root_black_height(),
    {
        assert(self.link_ok(h));
        assert(self.bh_ok(h));
        self.lemma_climb(h, self.store.buffer@.len());
        assert(self.link_ok(self.root));
    }

    /// The depth bound: with `n` values in the tree no node lies deeper than twice the
    /// binary logarithm of `n + 1`, rounded up.
    pub proof fn lemma_depth_bound(&self, h: u32)
        requires
            self.wf(),
            self.holds(h),
        ensures
            self.depth(h) <= 2 * ceil_log2((self@.len() + 1) as nat),
    {
        assert(self.link_ok(h));
        self.lemma_climb(h, self.store.buffer@.len());
        let root = self.root;
        assert(self.link_ok(root));
        self.lemma_size(root);
        let e = (self.bh(root) + self.red(root)) as nat;
        lemma_ceil_log2((self@.len() + 1) as nat, e);
        assert(pow2(e) <= self@.len() + 1);
    }

    /// What `height` returns is an upper bound: no node lies deeper than that.
    pub proof fn lemma_height_bounds_depth(&self, h: u32)
        requires
            self.wf(),
            self.holds(h),
        ensures
            self.depth(h) <= 2 * self.root_black_height(),
    {
        assert(self.link_ok(h));
        self.lemma_climb(h, self.store.buffer@.len());
        let root = self.root;
        assert(self.link_ok(root));
        assert(self.bh_ok(root));
    }

    /// Arena conservation: every slot is the sentinel, a node of the tree or a free
    /// slot, and none is two of these.
    pub proof fn lemma_arena(&self)
        requires
            self.wf(),
        ensures
            self.slot_count() == self@.len() + self.free_count() + 1,
            self.arena().wf(),
            self.sentinel() < self.slot_count(),
            forall|h: u32| !(#[trigger] self.holds(h) && self.is_free(h)),
            !self.holds(self.sentinel()),
            !self.is_free(self.sentinel()),
    {
        assert forall|h: u32| !(#[trigger] self.holds(h) && self.is_free(h)) by {
            if self.is_free(h) {
                let k = choose|k: int|
                    0 <= k < self.store.unused@.len() && #[trigger] self.store.unused@[k] == h;
                assert(!self.live(self.store.unused@[k]));
            }
        }
        if self.is_free(self.nil_index) {
            let k = choose|k: int|
                0 <= k < self.store.unused@.len() && #[trigger] self.store.unused@[k]
                    == self.nil_index;
            assert(self.store.unused@[k] != self.nil_index);
        }
    }

    /// Successor completeness: the handles `handle_or_empty(0)`, `handle_or_empty(1)`
    /// and so on, which `first_by_order` and `next_by_order` give one after the other,
    /// are the nodes of the tree, each once, in ascending order of their values, and
    /// after the last of them comes `EMPTY_REF`.
    pub proof fn lemma_walk(&self)
        requires
            self.wf(),
        ensures
            forall|p: int|
                0 <= p < self@.len() ==> {
                    let h = #[trigger] self.handle_or_empty(p);
                    &&& self.holds(h)
                    &&& self.rank(h) == p
                    &&& self.node_at(h).value == self@[p]
                },
            self.handle_or_empty(self@.len() as int) == EMPTY_REF,
            forall|h: u32| self.holds(h) ==> #[trigger] self.handle_or_empty(self.rank(h)) == h,
            ascending(self@),
    {
        self.lemma_ranks();
        self.lemma_ascending();
        assert forall|p: int| 0 <= p < self@.len() implies {
            let h = #[trigger] self.handle_or_empty(p);
            &&& self.holds(h)
            &&& self.rank(h) == p
            &&& self.node_at(h).value == self@[p]
        } by {
            assert(self.handle_or_empty(p) == self.handle_at(p));
        }
    }
}

} // verus!
