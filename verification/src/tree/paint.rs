use vstd::prelude::*;
use crate::node::EMPTY_REF;
use crate::order::lt;
use crate::tree::Tree;

verus! {

impl<T: Clone + PartialEq + Eq + PartialOrd + Ord> Tree<T> {
    /// `self` differs from `o` in colours and black heights only.
    pub open(crate) spec fn repainted(&self, o: &Self) -> bool {
        &&& self.root == o.root
        &&& self.nil_index == o.nil_index
        &&& self.store.unused@ == o.store.unused@
        &&& self.slots().len() == o.slots().len()
        &&& self.order() == o.order()
        &&& forall|h: u32|
            (h as int) < self.slots().len() ==> {
                &&& (#[trigger] self.nd(h)).parent == o.nd(h).parent
                &&& self.nd(h).left == o.nd(h).left
                &&& self.nd(h).right == o.nd(h).right
                &&& self.nd(h).value == o.nd(h).value
                &&& !o.live(h) ==> self.nd(h).color == o.nd(h).color
            }
        &&& forall|h: u32|
            {
                &&& (#[trigger] self.place(h)).pos == o.place(h).pos
                &&& self.place(h).lo == o.place(h).lo
                &&& self.place(h).hi == o.place(h).hi
            }
    }

    /// The node `h` has in `self` the colour and the black height that it has in `o`.
    pub open(crate) spec fn same_tone(&self, o: &Self, h: u32) -> bool {
        h == EMPTY_REF || (self.nd(h).color == o.nd(h).color && self.bh(h) == o.bh(h))
    }

    /// Same nodes, same ranks, same values, same arena: only the shape of the tree may
    /// differ.
    pub open(crate) spec fn rebalanced(&self, o: &Self) -> bool {
        &&& self@ == o@
        &&& self.nil_index == o.nil_index
        &&& self.store.unused@ == o.store.unused@
        &&& self.slots().len() == o.slots().len()
        &&& self.order() == o.order()
        &&& forall|h: u32| #[trigger] self.live(h) == o.live(h)
        &&& forall|h: u32| #[trigger] self.pos(h) == o.pos(h)
        &&& forall|h: u32|
            (h as int) < self.slots().len() ==> (#[trigger] self.nd(h)).value == o.nd(h).value
                && (!o.live(h) ==> self.nd(h) == o.nd(h))
    }

    pub(crate) proof fn lemma_turned_rebalanced(&self, o: &Self, x: u32, side: bool)
        requires
            o.linked(),
            o.live(x),
            self.turned(o, x, side),
        ensures
            self.rebalanced(o),
    {
        self.lemma_turned_frame(o, x, side);
        assert(o.link_ok(x));
        assert(o.link_ok(o.kid(x, !side)));
        assert forall|h: u32| #[trigger] self.pos(h) == o.pos(h) by {
            assert(self.place(h).pos == o.place(h).pos);
        }
    }

    pub(crate) proof fn lemma_rebalanced_trans(&self, mid: &Self, o: &Self)
        requires
            self.rebalanced(mid),
            mid.rebalanced(o),
        ensures
            self.rebalanced(o),
    {
        assert forall|h: u32| #[trigger] self.live(h) == o.live(h) by {
            assert(self.live(h) == mid.live(h));
            assert(mid.live(h) == o.live(h));
        }
        assert forall|h: u32| #[trigger] self.pos(h) == o.pos(h) by {
            assert(self.pos(h) == mid.pos(h));
            assert(mid.pos(h) == o.pos(h));
        }
        assert forall|h: u32| (h as int) < self.slots().len() implies (#[trigger] self.nd(
            h,
        )).value == o.nd(h).value && (!o.live(h) ==> self.nd(h) == o.nd(h)) by {
            assert(self.nd(h).value == mid.nd(h).value);
            assert(mid.nd(h).value == o.nd(h).value);
            assert(mid.live(h) == o.live(h));
        }
    }

    pub(crate) proof fn lemma_repainted(&self, o: &Self)
        requires
            o.linked(),
            self.repainted(o),
        ensures
            self.linked(),
            self.rebalanced(o),
            forall|z: u32| o.sorted_but(z) ==> #[trigger] self.sorted_but(z),
            forall|h: u32|
                o.live(h) && o.bh_ok(h) && self.same_tone(o, h) && self.same_tone(o, o.nd(h).left)
                    && self.same_tone(o, o.nd(h).right) ==> #[trigger] self.bh_ok(h),
            forall|h: u32|
                o.live(h) && o.red_ok(h) && self.same_tone(o, h) && self.same_tone(o, o.nd(h).left)
                    && self.same_tone(o, o.nd(h).right) ==> #[trigger] self.red_ok(h),
    {
        assert forall|h: u32| #[trigger] self.pos(h) == o.pos(h) by {
            assert(self.place(h).pos == o.place(h).pos);
        }
        assert forall|h: u32| #[trigger] self.live(h) == o.live(h) by {
            assert(self.pos(h) == o.pos(h));
        }
        assert(self.store.wf()) by {
            assert(o.store.wf());
            assert(self.store.free() == o.store.free());
            assert(self.store.slots().len() == o.store.slots().len());
            assert forall|k: int| 0 <= k < self.store.free().len() implies (
            #[trigger] self.store.free()[k]) < self.store.slots().len() by {}
        }
        assert(self.arena_ok());
        assert(self.root_ok()) by {
            if o.count() > 0 {
                assert(self.place(o.root).lo == o.place(o.root).lo);
                assert(self.nd(o.root).parent == o.nd(o.root).parent);
            }
        }
        assert forall|h: u32| self.live(h) implies #[trigger] self.link_ok(h) by {
            assert(o.live(h));
            assert(o.link_ok(h));
            assert(self.nd(h).left == o.nd(h).left);
            assert(self.place(h).lo == o.place(h).lo);
            let l = o.nd(h).left;
            let r = o.nd(h).right;
            let u = o.nd(h).parent;
            if l != EMPTY_REF {
                assert(self.nd(l).parent == o.nd(l).parent);
                assert(self.place(l).lo == o.place(l).lo);
            }
            if r != EMPTY_REF {
                assert(self.nd(r).parent == o.nd(r).parent);
                assert(self.place(r).lo == o.place(r).lo);
            }
            if u != EMPTY_REF {
                assert(self.nd(u).left == o.nd(u).left);
            }
        }
        assert forall|q: int| 0 <= q < self.count() implies #[trigger] self.val_at(q) == o.val_at(
            q,
        ) by {
            assert(self.nd(self.order()[q]).value == o.nd(self.order()[q]).value);
        }
        assert forall|z: u32| o.sorted_but(z) implies #[trigger] self.sorted_but(z) by {
            assert forall|a: int, c: int|
                0 <= a < c < self.count() && self.order()[a] != z && self.order()[c]
                    != z implies lt(#[trigger] self.val_at(a), #[trigger] self.val_at(c)) by {
                assert(lt(o.val_at(a), o.val_at(c)));
            }
        }
        assert(self@ =~= o@);
        assert forall|h: u32|
            o.live(h) && o.bh_ok(h) && self.same_tone(o, h) && self.same_tone(o, o.nd(h).left)
                && self.same_tone(o, o.nd(h).right) implies #[trigger] self.bh_ok(h) by {
            assert(self.nd(h).left == o.nd(h).left);
        }
        assert forall|h: u32|
            o.live(h) && o.red_ok(h) && self.same_tone(o, h) && self.same_tone(o, o.nd(h).left)
                && self.same_tone(o, o.nd(h).right) implies #[trigger] self.red_ok(h) by {
            assert(self.nd(h).left == o.nd(h).left);
        }
    }
}

} // verus!
