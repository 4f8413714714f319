use vstd::prelude::*;
use crate::node::{Color, EMPTY_REF};
use crate::order::{
    lemma_lt_irreflexive, lemma_lt_total, lemma_lt_transitive, lemma_operators, lt,
    operators_agree,
};
use crate::tree::Tree;

verus! {

impl<T: Clone + PartialEq + Eq + PartialOrd + Ord> Tree<T> {
    /// No rank outside `lo..hi` holds `value`, once `value` lies between what stands
    /// just outside that range.
    pub(crate) proof fn lemma_fenced(&self, value: T, lo: int, hi: int)
        requires
            self.wf(),
            0 <= lo <= hi <= self.count(),
            lo > 0 ==> lt(self.val_at(lo - 1), value),
            hi < self.count() ==> lt(value, self.val_at(hi)),
        ensures
            forall|q: int| 0 <= q < lo ==> lt(#[trigger] self.val_at(q), value),
            forall|q: int| hi <= q < self.count() ==> lt(value, #[trigger] self.val_at(q)),
            forall|q: int|
                0 <= q < self.count() && #[trigger] self.val_at(q) == value ==> lo <= q < hi,
    {
        assert forall|q: int| 0 <= q < lo implies lt(#[trigger] self.val_at(q), value) by {
            if q < lo - 1 {
                assert(self.order()[q] != self.nil_index);
                assert(self.order()[lo - 1] != self.nil_index);
                assert(lt(self.val_at(q), self.val_at(lo - 1)));
                lemma_lt_transitive(self.val_at(q), self.val_at(lo - 1), value);
            }
        }
        assert forall|q: int| hi <= q < self.count() implies lt(
            value,
            #[trigger] self.val_at(q),
        ) by {
            if q > hi {
                assert(self.order()[q] != self.nil_index);
                assert(self.order()[hi] != self.nil_index);
                assert(lt(self.val_at(hi), self.val_at(q)));
                lemma_lt_transitive(value, self.val_at(hi), self.val_at(q));
            }
        }
        assert forall|q: int|
            0 <= q < self.count() && #[trigger] self.val_at(q) == value implies lo <= q < hi by {
            lemma_lt_irreflexive(value);
        }
    }

    /// The leftmost node under `n_index`; `EMPTY_REF` for `EMPTY_REF`.
    pub fn find_left_minimum(&self, n_index: u32) -> (r: u32)
        requires
            self.wf(),
            n_index == EMPTY_REF || self.holds(n_index),
        ensures
            n_index == EMPTY_REF ==> r == EMPTY_REF,
            n_index != EMPTY_REF ==> self.holds(r) && self.rank(r) == self.subtree_start(n_index)
                && self.node_at(r).left == EMPTY_REF,
    {
        if n_index == EMPTY_REF {
            return EMPTY_REF;
        }
        let mut i = n_index;
        proof {
            assert(self.link_ok(i));
        }
        while self.node(i).left != EMPTY_REF
            invariant
                self.wf(),
                self.live(i),
                self.link_ok(i),
                self.lo(i) == self.lo(n_index),
            decreases self.hi(i) - self.lo(i),
        {
            i = self.node(i).left;
            proof {
                assert(self.link_ok(i));
            }
        }
        i
    }

    /// The value of the tree that equals `value`, if there is one.
    pub fn find(&self, value: T) -> (r: Option<T>)
        requires
            self.wf(),
        ensures
            r == (if self@.contains(value) {
                Some(value)
            } else {
                None
            }),
    {
        let index = self.find_index(value);
        if index != EMPTY_REF {
            let found = self.node(index).value.clone();
            assert(cloned(self.nd(index).value, found));
            assert(self@[self.pos(index)] == found);
            Some(found)
        } else {
            None
        }
    }

    /// The handle of the node that holds `value`; `EMPTY_REF` if there is none.
    pub fn find_index(&self, value: T) -> (r: u32)
        requires
            self.wf(),
        ensures
            r == EMPTY_REF <==> !self@.contains(value),
            r != EMPTY_REF ==> self.holds(r) && self.node_at(r).value == value,
    {
        let mut index = self.root;
        let ghost mut lo: int = 0;
        let ghost mut hi: int = self.count();
        proof {
            lemma_operators::<T>();
        }
        while index != EMPTY_REF
            invariant
                self.wf(),
                operators_agree::<T>(),
                0 <= lo <= hi <= self.count(),
                index == EMPTY_REF ==> lo == hi,
                index != EMPTY_REF ==> self.live(index) && self.lo(index) == lo && self.hi(index)
                    == hi,
                lo > 0 ==> lt(self.val_at(lo - 1), value),
                hi < self.count() ==> lt(value, self.val_at(hi)),
            decreases hi - lo,
        {
            proof {
                assert(self.link_ok(index));
            }
            let node = self.node(index);
            if node.value == value {
                proof {
                    assert(self@[self.pos(index)] == value);
                }
                return index;
            } else if value < node.value {
                proof {
                    hi = self.pos(index);
                }
                index = node.left;
            } else {
                proof {
                    lemma_lt_total(value, node.value);
                    lo = self.pos(index) + 1;
                }
                index = node.right;
            }
        }
        proof {
            self.lemma_fenced(value, lo, hi);
            if self@.contains(value) {
                let q = choose|q: int| 0 <= q < self@.len() && self@[q] == value;
                assert(self.val_at(q) == value);
            }
        }
        EMPTY_REF
    }

    /// Twice the count of black nodes on the leftmost path, which is twice the black
    /// height of the tree; 0 for the empty tree.
    pub fn height(&self) -> (r: usize)
        requires
            self.wf(),
        ensures
            r == 2 * self.root_black_height(),
    {
        if self.root == EMPTY_REF {
            return 0;
        }
        proof {
            assert(self.link_ok(self.root));
            assert(self.bh_ok(self.root));
            self.lemma_black_height_bound(self.root);
        }
        let mut node = self.node(self.root);
        let mut height: usize = 1;
        let ghost mut at: u32 = self.root;
        while node.left != EMPTY_REF
            invariant
                self.wf(),
                self.live(at),
                self.link_ok(at),
                self.bh_ok(at),
                *node == self.nd(at),
                height + self.kid_bh(node.left) == 1 + self.kid_bh(self.nd(self.root).left),
                0 <= self.kid_bh(node.left),
                self.kid_bh(self.nd(self.root).left) <= 32,
            decreases self.hi(at) - self.lo(at),
        {
            proof {
                at = node.left;
                assert(self.link_ok(at));
                assert(self.bh_ok(at));
            }
            node = self.node(node.left);
            if node.color == Color::Black {
                height += 1;
            }
        }
        assert(height << 1 == height * 2) by (bit_vector)
            requires
                height <= 33,
        ;
        height << 1
    }
}

} // verus!
