use vstd::prelude::*;
use crate::node::{Color, Node, EMPTY_REF};
use crate::order::{lawful, lemma_lt_total, lemma_operators, lt, operators_agree};
use crate::tree::insert::relabel;
use crate::tree::prune::{pruned_shape, stood_in_shape};
use crate::tree::{Place, Tree};

verus! {

impl<T: Clone + PartialEq + Eq + PartialOrd + Ord> Tree<T> {
    /// The handle that leaves the tree when the node `index` is deleted: `index`
    /// itself where it has at most one child, else its successor, whose value it takes.
    pub open(crate) spec fn leaving(&self, index: u32) -> u32 {
        if self.node_at(index).left == EMPTY_REF || self.node_at(index).right == EMPTY_REF {
            index
        } else {
            self.handle_at(self.rank(index) + 1)
        }
    }

    /// `self` is `o` without the value of the node `index`. Every node but the one that
    /// leaves keeps its handle, and every node but `index` its value.
    pub open(crate) spec fn deleted(&self, o: &Self, index: u32) -> bool {
        let gone = o.leaving(index);
        &&& self@ == o@.remove(o.rank(index))
        &&& self.slot_count() == o.slot_count()
        &&& self.free_count() == o.free_count() + 1
        &&& forall|h: u32| #[trigger] self.holds(h) == (o.holds(h) && h != gone)
        &&& forall|h: u32|
            o.holds(h) && h != gone ==> #[trigger] self.rank(h) == (if o.rank(h) > o.rank(gone) {
                o.rank(h) - 1
            } else {
                o.rank(h)
            })
        &&& forall|h: u32|
            o.holds(h) && h != gone && h != index ==> (#[trigger] self.node_at(h)).value
                == o.node_at(h).value
        &&& gone != index ==> self.node_at(index).value == o.node_at(gone).value
    }

    /// The handle from which a scan goes on after the node `index` was deleted from `o`.
    pub open(crate) spec fn resume_handle(&self, o: &Self, index: u32) -> u32 {
        if o.node_at(index).left == EMPTY_REF || o.node_at(index).right == EMPTY_REF {
            if o.node_at(index).parent == EMPTY_REF {
                self.root_handle()
            } else {
                o.node_at(index).parent
            }
        } else if index == o.root_handle() {
            self.root_handle()
        } else {
            index
        }
    }

    /// Deletes `value`, which the tree holds.
    pub fn delete(&mut self, value: T)
        requires
            old(self).wf(),
            old(self)@.contains(value),
        ensures
            final(self).wf(),
            exists|index: u32|
                old(self).holds(index) && old(self).node_at(index).value == value && final(self).deleted(old(self), index),
    {
        let mut index = self.root;
        let ghost mut lo: int = 0;
        let ghost mut hi: int = self.count();
        proof {
            lemma_operators::<T>();
        }
        // find the node to be deleted
        while index != EMPTY_REF
            invariant
                *self == *old(self),
                self.wf(),
                operators_agree::<T>(),
                0 <= lo <= hi <= self.count(),
                index == EMPTY_REF ==> lo == hi,
                index != EMPTY_REF ==> self.live(index) && self.lo(index) == lo && self.hi(index)
                    == hi,
                lo > 0 ==> lt(self.val_at(lo - 1), value),
                hi < self.count() ==> lt(value, self.val_at(hi)),
            ensures
                index != EMPTY_REF ==> self.live(index) && self.nd(index).value == value,
                index == EMPTY_REF ==> 0 <= lo <= hi <= self.count() && lo == hi && (lo > 0
                    ==> lt(self.val_at(lo - 1), value)) && (hi < self.count() ==> lt(
                    value,
                    self.val_at(hi),
                )),
            decreases hi - lo,
        {
            proof {
                assert(self.link_ok(index));
            }
            let node = self.node(index);
            if value == node.value {
                break ;
            } else if value < node.value {
                proof {
                    hi = self.pos(index);
                }
                index = node.left;
            } else {
                proof {
                    lemma_lt_total(value, node.value);
                    lo = self.pos(index) + 1;
                }
                index = node.right;
            }
        }

        if index == EMPTY_REF {
            proof {
                self.lemma_fenced(value, lo, hi);
                let q = choose|q: int| 0 <= q < self@.len() && self@[q] == value;
                assert(self.val_at(q) == value);
            }
            return ;
        }
        let _ = self.delete_index(index);
        proof {
            assert(old(self).holds(index) && old(self).node_at(index).value == value
                && self.deleted(old(self), index));
        }
    }

    /// Deletes `value` if the tree holds it, and does nothing if not.
    pub fn delete_if_exist(&mut self, value: T)
        requires
            old(self).wf(),
        ensures
            final(self).wf(),
            !old(self)@.contains(value) ==> *final(self) == *old(self),
            old(self)@.contains(value) ==> exists|index: u32|
                old(self).holds(index) && old(self).node_at(index).value == value && final(self).deleted(old(self), index),
    {
        let mut index = self.root;
        let ghost mut lo: int = 0;
        let ghost mut hi: int = self.count();
        proof {
            lemma_operators::<T>();
        }
        // find the node to be deleted
        while index != EMPTY_REF
            invariant
                *self == *old(self),
                self.wf(),
                operators_agree::<T>(),
                0 <= lo <= hi <= self.count(),
                index == EMPTY_REF ==> lo == hi,
                index != EMPTY_REF ==> self.live(index) && self.lo(index) == lo && self.hi(index)
                    == hi,
                lo > 0 ==> lt(self.val_at(lo - 1), value),
                hi < self.count() ==> lt(value, self.val_at(hi)),
            decreases hi - lo,
        {
            proof {
                assert(self.link_ok(index));
            }
            let node = self.node(index);
            if value == node.value {
                proof {
                    assert(self@[self.pos(index)] == value);
                }
                let _ = self.delete_index(index);
                proof {
                    assert(old(self).holds(index) && old(self).node_at(index).value == value
                        && self.deleted(old(self), index));
                }
                return ;
            } else if value < node.value {
                proof {
                    hi = self.pos(index);
                }
                index = node.left;
            } else {
                proof {
                    lemma_lt_total(value, node.value);
                    lo = self.pos(index) + 1;
                }
                index = node.right;
            }
        }
        proof {
            self.lemma_fenced(value, lo, hi);
            if self@.contains(value) {
                let q = choose|q: int| 0 <= q < self@.len() && self@[q] == value;
                assert(self.val_at(q) == value);
            }
        }
    }

    /// Deletes the node `index`. A node with two children takes the value of its
    /// successor, and the successor leaves in its place. Returns the handle from which a
    /// scan may go on. Where the node that leaves is red nothing is mended, and the
    /// root stays.
    pub fn delete_index(&mut self, index: u32) -> (r: u32)
        requires
            old(self).wf(),
            old(self).holds(index),
        ensures
            final(self).wf(),
            final(self).deleted(old(self), index),
            r == final(self).resume_handle(old(self), index),
            final(self).root_is_black(),
            old(self).node_at(old(self).leaving(index)).color == Color::Red ==> final(self).root_handle() == old(self).root_handle(),
    {
        let moved_up_node: u32;
        let deleted_node_color: Color;
        proof {
            assert(self.link_ok(index));
        }

        let node = self.node(index);

        let is_root = index == self.root;
        let is_single = node.left == EMPTY_REF || node.right == EMPTY_REF;
        let ghost k = self.pos(index);
        let ghost gone = self.leaving(index);
        let ghost copied = *self;

        // node has zero or one child
        if is_single {
            deleted_node_color = node.color;
            moved_up_node = self.delete_node_with_zero_or_one_child(index);
        } else {
            let successor_index = self.find_left_minimum(node.right);
            proof {
                assert(self.link_ok(node.right));
                assert(self.link_ok(successor_index));
            }
            let successor = self.node(successor_index);
            deleted_node_color = successor.color;
            let value = successor.value.clone();
            proof {
                assert(cloned(self.nd(successor_index).value, value));
                assert(self.val_at(k + 1) == value);
            }

            self.mut_node(index).value = value;
            proof {
                copied = *self;
                copied.lemma_revalued(old(self), index, value);
                assert(copied.live(successor_index) == old(self).live(successor_index));
                assert(copied.nd(successor_index) == old(self).nd(successor_index));
            }

            moved_up_node = self.delete_node_with_zero_or_one_child(successor_index);
        }
        let ghost cut = *self;
        proof {
            assert(forall|q: int|
                0 <= q < copied.count() ==> #[trigger] copied.val_at(q) == (if q == k && gone
                    != index {
                    old(self).val_at(k + 1)
                } else {
                    old(self).val_at(q)
                }));
            assert(forall|h: u32| #[trigger] copied.live(h) == old(self).live(h));
            assert(forall|h: u32|
                (h as int) < copied.slots().len() && h != index ==> #[trigger] copied.nd(h)
                    == old(self).nd(h));
            assert(copied.nd(index).parent == old(self).nd(index).parent);
        }

        if moved_up_node == EMPTY_REF || deleted_node_color != Color::Black {
            proof {
                if moved_up_node != EMPTY_REF {
                    assert(false);
                }
                self.lemma_deleted(&copied, old(self), index, gone);
            }
            return if is_single {
                self.parent(index)
            } else if is_root {
                self.root
            } else {
                index
            };
        }
        self.fix_red_black_properties_after_delete(moved_up_node);
        let ghost mended = *self;

        if moved_up_node == self.nil_index {
            proof {
                assert(self.link_ok(moved_up_node));
                assert(cut.link_ok(moved_up_node));
            }
            let p_index = self.node(moved_up_node).parent;

            if p_index != EMPTY_REF {
                proof {
                    assert(self.link_ok(p_index));
                }
                self.remove_parents_child(p_index, moved_up_node);
                self.shape = Ghost(pruned_shape(self.shape@, mended.pos(moved_up_node)));
                proof {
                    assert(self.slots() =~= Self::with_child(
                        Self::with_parent(mended.slots(), EMPTY_REF, p_index),
                        p_index,
                        moved_up_node,
                        EMPTY_REF,
                    ));
                    assert(self.spliced(&mended, moved_up_node, EMPTY_REF));
                    self.lemma_spliced_links(&mended, moved_up_node, EMPTY_REF);
                    self.lemma_cut_sound(&mended, moved_up_node);
                    self.lemma_cut_out_frame(&mended, moved_up_node, EMPTY_REF);
                    self.lemma_deleted_via_nil(&mended, &cut, &copied, old(self), index, gone);
                }
            } else {
                proof {
                    assert(false);
                }
            }
        } else {
            proof {
                self.lemma_deleted_mended(&cut, &copied, old(self), index, gone);
            }
        }

        if is_single {
            self.parent(index)
        } else if is_root {
            self.root
        } else {
            index
        }
    }

    /// The handle that stands where a node with at most one child stood, once that
    /// node is cut out: its child, the sentinel for a black leaf that is not the root,
    /// else none.
    pub open(crate) spec fn stand_for(&self, n: u32) -> u32 {
        let node = self.nd(n);
        if node.left != EMPTY_REF {
            node.left
        } else if node.right != EMPTY_REF {
            node.right
        } else if node.parent != EMPTY_REF && node.color == Color::Black {
            self.nil_index
        } else {
            EMPTY_REF
        }
    }

    pub(crate) fn delete_node_with_zero_or_one_child(&mut self, n_index: u32) -> (r: u32)
        requires
            lawful::<T>(),
            old(self).linked(),
            !old(self).live(old(self).nil_index),
            old(self).sorted_but(n_index),
            old(self).colored(),
            old(self).dark(old(self).root),
            old(self).live(n_index),
            old(self).nd(n_index).left == EMPTY_REF || old(self).nd(n_index).right == EMPTY_REF,
        ensures
            r == old(self).stand_for(n_index),
            final(self).nil_index == old(self).nil_index,
            final(self).store.unused@ == old(self).store.unused@.push(n_index),
            final(self).linked(),
            r == old(self).nil_index ==> final(self).stand_in(old(self), n_index) && final(self).short_at(r),
            r != old(self).nil_index ==> final(self).cut_out(old(self), n_index, r) && !final(self).live(final(self).nil_index),
            r == EMPTY_REF ==> final(self).wf(),
            r != EMPTY_REF ==> final(self).short_at(r) && old(self).nd(n_index).color
                == Color::Black,
    {
        proof {
            assert(self.link_ok(n_index));
            assert(self.bh_ok(n_index));
            assert(self.red_ok(n_index));
        }
        self.store.put_back(n_index);
        let node = self.node(n_index);
        let nd_left = node.left;
        let nd_right = node.right;
        let nd_parent = node.parent;
        let nd_color = node.color;
        proof {
            if nd_parent != EMPTY_REF {
                assert(old(self).link_ok(nd_parent));
            }
        }

        if nd_left != EMPTY_REF {
            // node has ONLY a left child --> replace by its left child
            proof {
                assert(old(self).link_ok(nd_left));
            }
            self.replace_parents_child(nd_parent, n_index, nd_left);
            self.shape = Ghost(pruned_shape(self.shape@, old(self).pos(n_index)));
            proof {
                self.lemma_spliced_links(old(self), n_index, nd_left);
                self.lemma_cut_short(old(self), n_index, nd_left);
            }
            nd_left  // moved-up node

        } else if nd_right != EMPTY_REF {
            // node has ONLY a right child --> replace by its right child
            proof {
                assert(old(self).link_ok(nd_right));
            }
            self.replace_parents_child(nd_parent, n_index, nd_right);
            self.shape = Ghost(pruned_shape(self.shape@, old(self).pos(n_index)));
            proof {
                self.lemma_spliced_links(old(self), n_index, nd_right);
                self.lemma_cut_short(old(self), n_index, nd_right);
            }
            nd_right  // moved-up node

        } else {
            // node has no children -->
            // * node is red --> just remove it
            // * node is black --> replace it by a temporary NIL node
            if nd_parent != EMPTY_REF {
                if nd_color == Color::Black {
                    self.create_nil_node(nd_parent);
                    let nil_index = self.nil_index;
                    self.replace_parents_child(nd_parent, n_index, nil_index);
                    self.shape = Ghost(
                        stood_in_shape(self.shape@, old(self).pos(n_index), nil_index),
                    );
                    proof {
                        let nil_node = Node {
                            parent: nd_parent,
                            left: EMPTY_REF,
                            right: EMPTY_REF,
                            color: Color::Red,
                            value: old(self).nd(nil_index).value,
                        };
                        let s1 = old(self).slots().update(nil_index as int, nil_node);
                        assert(Self::with_parent(s1, nil_index, nd_parent) =~= s1);
                        assert(self.stood_in(old(self), n_index));
                        self.lemma_stood_in(old(self), n_index);
                        self.lemma_stood_short(old(self), n_index);
                    }
                    self.nil_index
                } else {
                    self.remove_parents_child(nd_parent, n_index);
                    self.shape = Ghost(pruned_shape(self.shape@, old(self).pos(n_index)));
                    proof {
                        assert(self.slots() =~= Self::with_child(
                            Self::with_parent(old(self).slots(), EMPTY_REF, nd_parent),
                            nd_parent,
                            n_index,
                            EMPTY_REF,
                        ));
                        self.lemma_spliced_links(old(self), n_index, EMPTY_REF);
                        self.lemma_cut_sound(old(self), n_index);
                    }
                    EMPTY_REF
                }
            } else {
                self.root = EMPTY_REF;
                self.shape = Ghost(pruned_shape(self.shape@, old(self).pos(n_index)));
                proof {
                    assert(self.slots() =~= Self::with_child(
                        Self::with_parent(old(self).slots(), EMPTY_REF, nd_parent),
                        nd_parent,
                        n_index,
                        EMPTY_REF,
                    ));
                    self.lemma_spliced_links(old(self), n_index, EMPTY_REF);
                    self.lemma_cut_sound(old(self), n_index);
                }
                EMPTY_REF
            }
        }
    }

    /// Mends the tree where the paths through `n_index` are one black node short. A red
    /// node that has come to the root is painted black.
    pub(crate) fn fix_red_black_properties_after_delete(&mut self, n_index: u32)
        requires
            old(self).short_at(n_index),
        ensures
            final(self).sound_with_nil(),
            final(self).rebalanced(old(self)),
            old(self).nd(n_index).parent != EMPTY_REF || old(self).nd(n_index).color
                == Color::Black ==> final(self).untouched(old(self), n_index),
        decreases old(self).count() - (old(self).hi(n_index) - old(self).lo(n_index)),
    {
        // examined node is root, end of recursion
        if n_index == self.root {
            proof {
                assert(self.link_ok(n_index));
                assert(self.bh_ok(n_index));
            }
            // a red node that has come to the root turns black
            if self.node(n_index).color == Color::Red {
                self.mut_node(n_index).color = Color::Black;
                self.shape = Ghost(relabel(self.shape@, n_index, old(self).bh(n_index) + 1));
                proof {
                    self.lemma_blacken_root(old(self), n_index);
                }
            } else {
                proof {
                    assert(self@ =~= old(self)@);
                    assert forall|h: u32| self.live(h) implies #[trigger] self.bh_ok(h) by {}
                    assert forall|h: u32| self.live(h) implies #[trigger] self.red_ok(h) by {}
                }
            }
            return ;
        }
        proof {
            assert(self.link_ok(n_index));
            assert(self.link_ok(self.nd(n_index).parent));
            assert(self.bh_ok(n_index));
        }

        let mut s_index = self.get_sibling(n_index);

        // red sibling
        if self.node(s_index).color == Color::Red {
            self.handle_red_sibling(n_index, s_index);
            proof {
                assert(self.link_ok(n_index));
                assert(self.link_ok(self.nd(n_index).parent));
            }
            s_index = self.get_sibling(n_index)  // new sibling for fall-through
        }
        let ghost start = *self;
        proof {
            assert(start.link_ok(n_index));
            assert(start.link_ok(start.nd(n_index).parent));
            assert(start.link_ok(s_index));
            assert(start.bh_ok(n_index));
            assert(start.bh_ok(s_index));
        }

        let sibling = self.node(s_index);

        // black sibling with two black children
        if self.is_black(sibling.left) && self.is_black(sibling.right) {
            self.mut_node(s_index).color = Color::Red;
            let p_index = self.node(n_index).parent;

            let parent = self.mut_node(p_index);
            let parent_was_red = parent.color == Color::Red;
            if parent_was_red {
                // red parent
                parent.color = Color::Black;
            }
            self.shape = Ghost(
                relabel(
                    relabel(self.shape@, s_index, start.bh(s_index) - 1),
                    p_index,
                    start.bh(n_index) + 1,
                ),
            );
            proof {
                self.lemma_dark_nephews(&start, n_index);
                self.lemma_rebalanced_trans(&start, old(self));
                self.lemma_untouched_trans(&start, old(self), n_index, n_index);
            }
            if !parent_was_red {
                // black parent
                let ghost before = *self;
                self.fix_red_black_properties_after_delete(p_index);
                proof {
                    assert(before.link_ok(n_index));
                    assert(before.link_ok(p_index));
                    self.lemma_untouched_trans(&before, old(self), n_index, p_index);
                    self.lemma_rebalanced_trans(&before, old(self));
                }
            }
        } else {
            // black sibling with at least one red child
            self.handle_black_sibling_with_at_least_one_red_child(n_index, s_index);
            proof {
                self.lemma_untouched_trans(&start, old(self), n_index, n_index);
                self.lemma_rebalanced_trans(&start, old(self));
            }
        }
    }

    #[verifier::rlimit(100)]
    pub(crate) fn handle_black_sibling_with_at_least_one_red_child(
        &mut self,
        n_index: u32,
        s_origin: u32,
    )
        requires
            old(self).short_at(n_index),
            old(self).nd(n_index).parent != EMPTY_REF,
            s_origin == old(self).sib(n_index),
            old(self).nd(s_origin).color == Color::Black,
            !(old(self).dark(old(self).nd(s_origin).left) && old(self).dark(
                old(self).nd(s_origin).right,
            )),
        ensures
            final(self).sound_with_nil(),
            final(self).rebalanced(old(self)),
            final(self).untouched(old(self), n_index),
            final(self).nd(final(self).nd(old(self).nd(n_index).parent).parent).color == old(self).nd(old(self).nd(n_index).parent).color,
            final(self).nd(old(self).nd(n_index).parent).color == Color::Black,
            final(self).bh(final(self).nd(old(self).nd(n_index).parent).parent) == old(self).kid_bh(s_origin) + old(self).black(old(self).nd(n_index).parent),
    {
        proof {
            assert(self.link_ok(n_index));
            assert(self.link_ok(self.nd(n_index).parent));
            assert(self.bh_ok(n_index));
            assert(self.link_ok(s_origin));
            assert(self.bh_ok(s_origin));
        }
        let p_index = self.node(n_index).parent;

        let mut s_index = s_origin;
        let (mut sibling_left, mut sibling_right) = {
            let sibling = self.node(s_origin);
            (sibling.left, sibling.right)
        };

        let node_is_left_child = n_index == self.node(p_index).left;

        // black sibling with at least one red child + "outer nephew" is black
        // --> recolor sibling and its child, and rotate around sibling
        if node_is_left_child && self.is_black(sibling_right) {
            if sibling_left != EMPTY_REF {
                self.mut_node(sibling_left).color = Color::Black;
            }
            self.mut_node(s_index).color = Color::Red;
            self.shape = Ghost(
                relabel(
                    relabel(self.shape@, sibling_left, old(self).bh(sibling_left) + 1),
                    s_index,
                    old(self).bh(s_index) - 1,
                ),
            );
            let ghost r1 = *self;
            proof {
                r1.lemma_repainted(old(self));
                assert(r1.live(s_index) == old(self).live(s_index));
                assert(r1.nd(s_index).left == old(self).nd(s_index).left);
            }
            self.rotate_right(s_index);
            proof {
                self.lemma_near_red(&r1, old(self), n_index, true);
            }
            s_index = self.node(p_index).right;

            let sibling = self.node(s_index);
            sibling_left = sibling.left;
            sibling_right = sibling.right;
        } else if !node_is_left_child && self.is_black(sibling_left) {
            if sibling_right != EMPTY_REF {
                self.mut_node(sibling_right).color = Color::Black;
            }
            self.mut_node(s_index).color = Color::Red;
            self.shape = Ghost(
                relabel(
                    relabel(self.shape@, sibling_right, old(self).bh(sibling_right) + 1),
                    s_index,
                    old(self).bh(s_index) - 1,
                ),
            );
            let ghost r1 = *self;
            proof {
                r1.lemma_repainted(old(self));
                assert(r1.live(s_index) == old(self).live(s_index));
                assert(r1.nd(s_index).left == old(self).nd(s_index).left);
            }
            self.rotate_left(s_index);
            proof {
                self.lemma_near_red(&r1, old(self), n_index, false);
            }
            s_index = self.node(p_index).left;

            let sibling = self.node(s_index);
            sibling_left = sibling.left;
            sibling_right = sibling.right;
        }
        // fall-through

        let ghost start = *self;
        proof {
            assert(start.link_ok(n_index));
            assert(start.link_ok(p_index));
            assert(start.link_ok(s_index));
            assert(start.bh_ok(n_index));
            assert(start.bh_ok(s_index));
        }
        let far = if node_is_left_child {
            sibling_right
        } else {
            sibling_left
        };
        proof {
            assert(start.link_ok(far));
        }

        // black sibling with at least one red child + "outer nephew" is red
        // --> recolor sibling + parent + sibling's child, and rotate around parent
        let parent_color = self.node(p_index).color;
        self.mut_node(s_index).color = parent_color;
        self.mut_node(p_index).color = Color::Black;
        if node_is_left_child {
            if sibling_right != EMPTY_REF {
                self.mut_node(sibling_right).color = Color::Black;
            }
            self.shape = Ghost(
                relabel(
                    relabel(
                        relabel(self.shape@, s_index, start.bh(p_index)),
                        p_index,
                        start.bh(n_index) + 1,
                    ),
                    far,
                    start.bh(far) + 1,
                ),
            );
            let ghost r1 = *self;
            proof {
                r1.lemma_repainted(&start);
                assert(r1.live(p_index) == start.live(p_index));
                assert(r1.nd(p_index).left == start.nd(p_index).left);
            }
            self.rotate_left(p_index);
            proof {
                self.lemma_far_red(&r1, &start, n_index, true);
            }
        } else {
            if sibling_left != EMPTY_REF {
                self.mut_node(sibling_left).color = Color::Black;
            }
            self.shape = Ghost(
                relabel(
                    relabel(
                        relabel(self.shape@, s_index, start.bh(p_index)),
                        p_index,
                        start.bh(n_index) + 1,
                    ),
                    far,
                    start.bh(far) + 1,
                ),
            );
            let ghost r1 = *self;
            proof {
                r1.lemma_repainted(&start);
                assert(r1.live(p_index) == start.live(p_index));
                assert(r1.nd(p_index).left == start.nd(p_index).left);
            }
            self.rotate_right(p_index);
            proof {
                self.lemma_far_red(&r1, &start, n_index, false);
            }
        }
        proof {
            self.lemma_untouched_trans(&start, old(self), n_index, n_index);
            self.lemma_rebalanced_trans(&start, old(self));
        }
    }

    pub(crate) fn handle_red_sibling(&mut self, n_index: u32, s_index: u32)
        requires
            old(self).short_at(n_index),
            old(self).nd(n_index).parent != EMPTY_REF,
            s_index == old(self).sib(n_index),
            old(self).nd(s_index).color == Color::Red,
        ensures
            final(self).short_at(n_index),
            final(self).rebalanced(old(self)),
            final(self).untouched(old(self), n_index),
            final(self).nd(n_index).parent == old(self).nd(n_index).parent,
            final(self).live(final(self).sib(n_index)),
            final(self).nd(final(self).sib(n_index)).color == Color::Black,
    {
        proof {
            assert(self.link_ok(n_index));
            assert(self.link_ok(self.nd(n_index).parent));
            assert(self.bh_ok(n_index));
            assert(self.link_ok(s_index));
        }
        // recolor...
        self.mut_node(s_index).color = Color::Black;
        let p_index = self.node(n_index).parent;
        let parent = self.mut_node(p_index);

        parent.color = Color::Red;
        let node_is_left_child = n_index == parent.left;
        self.shape = Ghost(
            relabel(
                relabel(self.shape@, s_index, old(self).bh(s_index) + 1),
                p_index,
                old(self).bh(p_index) - 1,
            ),
        );
        let ghost r1 = *self;
        proof {
            r1.lemma_repainted(old(self));
            assert(r1.live(p_index) == old(self).live(p_index));
            assert(r1.nd(p_index).left == old(self).nd(p_index).left);
        }

        // ... and rotate
        if node_is_left_child {
            self.rotate_left(p_index);
            proof {
                self.lemma_red_sibling(&r1, old(self), n_index, true);
            }
        } else {
            self.rotate_right(p_index);
            proof {
                self.lemma_red_sibling(&r1, old(self), n_index, false);
            }
        }
    }

    /// `self` is `o` with the value of the node `h` replaced by `v`.
    pub open(crate) spec fn revalued(&self, o: &Self, h: u32, v: T) -> bool {
        &&& self.root == o.root
        &&& self.nil_index == o.nil_index
        &&& self.shape == o.shape
        &&& self.store.unused@ == o.store.unused@
        &&& self.slots() == o.slots().update(h as int, Node { value: v, ..o.nd(h) })
    }

    /// Replacing the value of a node by that of its successor leaves all in order but
    /// the successor itself.
    pub(crate) proof fn lemma_revalued(&self, o: &Self, h: u32, v: T)
        requires
            o.wf(),
            o.live(h),
            o.pos(h) + 1 < o.count(),
            v == o.val_at(o.pos(h) + 1),
            self.revalued(o, h, v),
        ensures
            self.linked(),
            self.colored(),
            self.dark(self.root),
            !self.live(self.nil_index),
            self.sorted_but(o.order()[o.pos(h) + 1]),
            forall|x: u32| #[trigger] self.live(x) == o.live(x),
            forall|q: int|
                0 <= q < self.count() ==> #[trigger] self.val_at(q) == (if q == o.pos(h) {
                    v
                } else {
                    o.val_at(q)
                }),
    {
        assert(o.link_ok(h));
        assert(self.slots().len() == o.slots().len());
        assert forall|x: u32| #[trigger] self.live(x) == o.live(x) by {}
        assert(self.store.wf()) by {
            assert(o.store.wf());
            assert(self.store.free() == o.store.free());
            assert(self.store.slots().len() == o.store.slots().len());
            assert forall|k: int| 0 <= k < self.store.free().len() implies (
            #[trigger] self.store.free()[k]) < self.store.slots().len() by {}
        }
        assert(self.arena_ok());
        assert(self.root_ok());
        assert forall|x: u32| self.live(x) implies #[trigger] self.link_ok(x) by {
            assert(o.live(x));
            assert(o.link_ok(x));
        }
        assert forall|x: u32| self.live(x) implies #[trigger] self.bh_ok(x) by {
            assert(o.live(x));
            assert(o.link_ok(x));
            assert(o.bh_ok(x));
        }
        assert forall|x: u32| self.live(x) implies #[trigger] self.red_ok(x) by {
            assert(o.live(x));
            assert(o.link_ok(x));
            assert(o.red_ok(x));
        }
        let k = o.pos(h);
        let succ = o.order()[k + 1];
        assert forall|q: int| 0 <= q < self.count() implies #[trigger] self.val_at(q) == (if q
            == k {
            v
        } else {
            o.val_at(q)
        }) by {
            assert(o.pos(o.order()[q]) == q);
        }
        assert forall|a: int, b: int|
            0 <= a < b < self.count() && self.order()[a] != succ && self.order()[b]
                != succ implies lt(#[trigger] self.val_at(a), #[trigger] self.val_at(b)) by {
            assert(o.pos(o.order()[a]) == a);
            assert(o.pos(o.order()[b]) == b);
            assert(o.pos(o.order()[k + 1]) == k + 1);
            assert(o.order()[a] != o.nil_index);
            assert(o.order()[b] != o.nil_index);
            assert(o.order()[k + 1] != o.nil_index);
            if a == k {
                assert(lt(o.val_at(k + 1), o.val_at(b)));
            } else if b == k {
                assert(lt(o.val_at(a), o.val_at(k + 1)));
            } else {
                assert(lt(o.val_at(a), o.val_at(b)));
            }
        }
    }

    /// After a black node with one child was cut out, the child, which is red, stands one
    /// black node short.
    pub(crate) proof fn lemma_cut_short(&self, o: &Self, n: u32, c: u32)
        requires
            lawful::<T>(),
            o.linked(),
            !o.live(o.nil_index),
            o.sorted_but(n),
            o.colored(),
            o.dark(o.root),
            o.live(n),
            c != EMPTY_REF,
            (c == o.nd(n).left && o.nd(n).right == EMPTY_REF) || (c == o.nd(n).right && o.nd(
                n,
            ).left == EMPTY_REF),
            self.linked(),
            self.cut_out(o, n, c),
        ensures
            self.short_at(c),
            o.nd(n).color == Color::Black,
    {
        let p = o.nd(n).parent;
        self.lemma_cut_out_frame(o, n, c);
        assert(self.sorted_but(self.nil_index));
        assert(o.link_ok(n));
        assert(o.bh_ok(n));
        assert(o.red_ok(n));
        assert(o.link_ok(c));
        assert(o.bh_ok(c));
        assert(o.red_ok(c));
        assert(self.live(c) == (c != n && o.live(c)));
        assert(self.bh(c) == o.bh(c));
        assert(self.bh(n) == o.bh(n));
        assert(self.nd(c).color == o.nd(c).color);
        assert forall|h: u32| self.live(h) && h != p implies #[trigger] self.bh_ok(h) by {
            assert(self.live(h) == (h != n && o.live(h)));
            assert(o.bh_ok(h));
        }
        assert forall|h: u32| self.live(h) && h != p implies #[trigger] self.red_ok(h) by {
            assert(self.live(h) == (h != n && o.live(h)));
            assert(o.red_ok(h));
        }
        if p != EMPTY_REF {
            assert(o.link_ok(p));
            assert(o.bh_ok(p));
            assert(o.red_ok(p));
            assert(self.bh(p) == o.bh(p));
            assert(self.nd(p).color == o.nd(p).color);
            let s = self.sib(c);
            if s != EMPTY_REF {
                assert(o.link_ok(s));
                assert(self.bh(s) == o.bh(s));
                assert(self.nd(s).color == o.nd(s).color);
            }
        }
        let r = o.root;
        assert(o.link_ok(r));
        if r != n {
            assert(self.nd(r).color == o.nd(r).color);
        }
    }

    /// After a red leaf, or the last node, was cut out, the tree is sound.
    pub(crate) proof fn lemma_cut_sound(&self, o: &Self, n: u32)
        requires
            lawful::<T>(),
            o.linked(),
            o.sorted_but(n),
            o.colored(),
            o.dark(o.root),
            o.live(n),
            o.nd(n).left == EMPTY_REF,
            o.nd(n).right == EMPTY_REF,
            o.nd(n).parent == EMPTY_REF || o.nd(n).color == Color::Red,
            self.linked(),
            !self.live(self.nil_index),
            self.cut_out(o, n, EMPTY_REF),
        ensures
            self.wf(),
    {
        let p = o.nd(n).parent;
        self.lemma_cut_out_frame(o, n, EMPTY_REF);
        assert(self.sorted_but(self.nil_index));
        assert(o.link_ok(n));
        assert(o.bh_ok(n));
        assert(self.bh(n) == o.bh(n));
        if p != EMPTY_REF {
            assert(o.link_ok(p));
            assert(o.bh_ok(p));
            assert(o.red_ok(p));
            assert(self.bh(p) == o.bh(p));
            assert(self.nd(p).color == o.nd(p).color);
            let s = if o.nd(p).left == n {
                o.nd(p).right
            } else {
                o.nd(p).left
            };
            if s != EMPTY_REF {
                assert(o.link_ok(s));
                assert(self.bh(s) == o.bh(s));
                assert(self.nd(s).color == o.nd(s).color);
            }
            assert(self.bh_ok(p));
            assert(self.red_ok(p));
        }
        assert forall|h: u32| self.live(h) implies #[trigger] self.bh_ok(h) by {
            assert(self.live(h) == (h != n && o.live(h)));
            assert(o.bh_ok(h));
        }
        assert forall|h: u32| self.live(h) implies #[trigger] self.red_ok(h) by {
            assert(self.live(h) == (h != n && o.live(h)));
            assert(o.red_ok(h));
        }
        let r = o.root;
        assert(o.link_ok(r));
        if r != n {
            assert(self.nd(r).color == o.nd(r).color);
        }
    }

    /// With the sentinel in the place of a black leaf, the sentinel stands one black
    /// node short.
    pub(crate) proof fn lemma_stood_short(&self, o: &Self, n: u32)
        requires
            lawful::<T>(),
            o.linked(),
            !o.live(o.nil_index),
            o.sorted_but(n),
            o.colored(),
            o.dark(o.root),
            o.live(n),
            o.nd(n).left == EMPTY_REF,
            o.nd(n).right == EMPTY_REF,
            o.nd(n).parent != EMPTY_REF,
            o.nd(n).color == Color::Black,
            self.stood_in(o, n),
        ensures
            self.short_at(self.nil_index),
            self.stand_in(o, n),
    {
        let p = o.nd(n).parent;
        let nil = o.nil_index;
        self.lemma_stood_in(o, n);
        assert(o.link_ok(n));
        assert(o.bh_ok(n));
        assert(o.link_ok(p));
        assert(o.bh_ok(p));
        assert(o.red_ok(p));
        assert(self.place(p) == o.place(p));
        let s = if o.nd(p).left == n {
            o.nd(p).right
        } else {
            o.nd(p).left
        };
        if s != EMPTY_REF {
            assert(o.link_ok(s));
            assert(self.place(s) == o.place(s));
            assert(self.nd(s) == o.nd(s));
        }
        assert forall|h: u32| self.live(h) && h != p implies #[trigger] self.bh_ok(h) by {
            assert(self.live(h) == (h == nil || (h != n && o.live(h))));
            if h != nil {
                assert(o.bh_ok(h));
            }
        }
        assert forall|h: u32| self.live(h) && h != p implies #[trigger] self.red_ok(h) by {
            assert(self.live(h) == (h == nil || (h != n && o.live(h))));
            if h != nil {
                assert(o.red_ok(h));
            }
        }
        assert forall|h: u32|
            (h as int) < self.slots().len() implies (#[trigger] self.nd(h)).value == o.nd(
            h,
        ).value by {
            if h != nil && h != p {
                assert(self.nd(h) == o.nd(h));
            }
        }
        assert forall|h: u32| h != nil implies #[trigger] self.pos(h) == o.pos(h) by {
            assert(self.place(h) == o.place(h));
        }
        let r = o.root;
        assert(o.link_ok(r));
        if r != n {
            assert(self.nd(r).color == o.nd(r).color);
        }
    }

    /// What putting the sentinel in the place of the leaf `n` comes to.
    pub open(crate) spec fn stand_in(&self, o: &Self, n: u32) -> bool {
        let nil = o.nil_index;
        &&& self.nil_index == nil
        &&& self.slots().len() == o.slots().len()
        &&& self.live(nil)
        &&& self.count() == o.count()
        &&& self.order() == o.order().update(o.pos(n), nil)
        &&& self.place(nil) == (Place { bh: 0, ..o.place(n) })
        &&& self.nd(nil).color == Color::Red
        &&& self.nd(nil).left == EMPTY_REF
        &&& self.nd(nil).right == EMPTY_REF
        &&& self.nd(nil).parent != EMPTY_REF
        &&& self.nd(n) == o.nd(n)
        &&& forall|h: u32| #[trigger] self.live(h) == (h == nil || (h != n && o.live(h)))
        &&& forall|h: u32| h != nil ==> #[trigger] self.pos(h) == o.pos(h)
        &&& forall|h: u32|
            (h as int) < self.slots().len() ==> (#[trigger] self.nd(h)).value == o.nd(h).value
    }

    /// The node `gone` was cut out of `c`, which is `o` but for the value of `index`:
    /// that is a deletion of `index` from `o`.
    pub(crate) proof fn lemma_deleted(&self, c: &Self, o: &Self, index: u32, gone: u32)
        requires
            o.wf(),
            o.live(index),
            gone == o.leaving(index),
            c.linked(),
            c.live(gone),
            c.shape == o.shape,
            c.slots().len() == o.slots().len(),
            c.store.unused@ == o.store.unused@,
            forall|q: int|
                0 <= q < c.count() ==> #[trigger] c.val_at(q) == (if q == o.pos(index) && gone
                    != index {
                    o.val_at(o.pos(index) + 1)
                } else {
                    o.val_at(q)
                }),
            forall|h: u32|
                (h as int) < c.slots().len() && h != index ==> #[trigger] c.nd(h) == o.nd(h),
            self.store.unused@ == c.store.unused@.push(gone),
            exists|r: u32| self.cut_out(c, gone, r),
        ensures
            self.deleted(o, index),
    {
        let r = choose|r: u32| self.cut_out(c, gone, r);
        let k = o.pos(index);
        self.lemma_cut_out_frame(c, gone, r);
        assert(o.link_ok(index));
        if gone != index {
            assert(o.pos(o.order()[k + 1]) == k + 1);
        }
        assert forall|h: u32| #[trigger] self.holds(h) == (o.holds(h) && h != gone) by {
            assert(self.live(h) == (h != gone && c.live(h)));
        }
        assert forall|h: u32| o.holds(h) && h != gone implies #[trigger] self.rank(h) == (if o.rank(
            h,
        ) > o.rank(gone) {
            o.rank(h) - 1
        } else {
            o.rank(h)
        }) by {
            assert(self.pos(h) == (if c.pos(h) > c.pos(gone) {
                c.pos(h) - 1
            } else {
                c.pos(h)
            }));
        }
        assert forall|h: u32| o.holds(h) && h != gone && h != index implies (
        #[trigger] self.node_at(h)).value == o.node_at(h).value by {
            assert(self.nd(h).value == c.nd(h).value);
            assert(c.nd(h) == o.nd(h));
        }
        if gone != index {
            assert(self.nd(index).value == c.nd(index).value);
            assert(c.val_at(k) == c.nd(index).value);
            assert(c.nd(gone) == o.nd(gone));
        }
        assert forall|q: int| 0 <= q < self.count() implies #[trigger] self.val_at(q) == o.val_at(
            if q < k {
                q
            } else {
                q + 1
            },
        ) by {
            let q2 = if q < c.pos(gone) {
                q
            } else {
                q + 1
            };
            assert(self.val_at(q) == c.val_at(q2));
        }
        assert(self@ =~= o@.remove(k));
    }

    /// As `lemma_deleted`, where the tree was mended after the cut.
    pub(crate) proof fn lemma_deleted_mended(
        &self,
        cut: &Self,
        c: &Self,
        o: &Self,
        index: u32,
        gone: u32,
    )
        requires
            o.wf(),
            o.live(index),
            gone == o.leaving(index),
            c.linked(),
            c.live(gone),
            c.shape == o.shape,
            c.slots().len() == o.slots().len(),
            c.store.unused@ == o.store.unused@,
            forall|q: int|
                0 <= q < c.count() ==> #[trigger] c.val_at(q) == (if q == o.pos(index) && gone
                    != index {
                    o.val_at(o.pos(index) + 1)
                } else {
                    o.val_at(q)
                }),
            forall|h: u32|
                (h as int) < c.slots().len() && h != index ==> #[trigger] c.nd(h) == o.nd(h),
            cut.store.unused@ == c.store.unused@.push(gone),
            exists|r: u32| cut.cut_out(c, gone, r),
            self.rebalanced(cut),
        ensures
            self.deleted(o, index),
            self.nd(gone) == c.nd(gone),
    {
        let r = choose|r: u32| cut.cut_out(c, gone, r);
        cut.lemma_deleted(c, o, index, gone);
        assert(cut.live(gone) == (gone != gone && c.live(gone)));
        assert(self.nd(gone) == cut.nd(gone));
        assert(cut.nd(gone) == c.nd(gone));
        assert forall|h: u32| #[trigger] self.holds(h) == (o.holds(h) && h != gone) by {
            assert(self.live(h) == cut.live(h));
            assert(cut.holds(h) == (o.holds(h) && h != gone));
        }
        assert forall|h: u32| o.holds(h) && h != gone implies #[trigger] self.rank(h) == (if o.rank(
            h,
        ) > o.rank(gone) {
            o.rank(h) - 1
        } else {
            o.rank(h)
        }) by {
            assert(self.pos(h) == cut.pos(h));
            assert(cut.rank(h) == (if o.rank(h) > o.rank(gone) {
                o.rank(h) - 1
            } else {
                o.rank(h)
            }));
        }
        assert forall|h: u32| o.holds(h) && h != gone && h != index implies (
        #[trigger] self.node_at(h)).value == o.node_at(h).value by {
            assert(self.nd(h).value == cut.nd(h).value);
            assert(cut.node_at(h).value == o.node_at(h).value);
        }
        assert(self.nd(index).value == cut.nd(index).value);
    }

    /// As `lemma_deleted`, where the sentinel stood in for the node that left, the tree
    /// was mended, and the sentinel was cut out again.
    pub(crate) proof fn lemma_deleted_via_nil(
        &self,
        mended: &Self,
        cut: &Self,
        c: &Self,
        o: &Self,
        index: u32,
        gone: u32,
    )
        requires
            o.wf(),
            o.live(index),
            gone == o.leaving(index),
            c.linked(),
            !c.live(c.nil_index),
            c.live(gone),
            c.shape == o.shape,
            c.nil_index == o.nil_index,
            c.slots().len() == o.slots().len(),
            c.store.unused@ == o.store.unused@,
            forall|q: int|
                0 <= q < c.count() ==> #[trigger] c.val_at(q) == (if q == o.pos(index) && gone
                    != index {
                    o.val_at(o.pos(index) + 1)
                } else {
                    o.val_at(q)
                }),
            forall|h: u32|
                (h as int) < c.slots().len() && h != index ==> #[trigger] c.nd(h) == o.nd(h),
            cut.store.unused@ == c.store.unused@.push(gone),
            cut.stand_in(c, gone),
            mended.rebalanced(cut),
            mended.linked(),
            self.cut_out(mended, mended.nil_index, EMPTY_REF),
            self.store.unused@ == mended.store.unused@,
        ensures
            self.deleted(o, index),
            self.nd(gone) == c.nd(gone),
    {
        let nil = o.nil_index;
        let k = o.pos(index);
        let g = c.pos(gone);
        self.lemma_cut_out_frame(mended, nil, EMPTY_REF);
        assert(o.link_ok(index));
        if gone != index {
            assert(o.pos(o.order()[k + 1]) == k + 1);
        }
        assert(mended.pos(nil) == cut.pos(nil));
        assert(cut.place(nil).pos == g);
        assert(cut.live(gone) == (gone == nil || (gone != gone && c.live(gone))));
        assert(mended.live(gone) == cut.live(gone));
        assert(mended.live(nil) == cut.live(nil));
        assert(mended.link_ok(nil));
        assert(self.nd(gone) == mended.nd(gone));
        assert(mended.nd(gone) == cut.nd(gone));
        assert forall|h: u32| #[trigger] self.holds(h) == (o.holds(h) && h != gone) by {
            assert(self.live(h) == (h != nil && mended.live(h)));
            assert(mended.live(h) == cut.live(h));
            assert(cut.live(h) == (h == nil || (h != gone && c.live(h))));
        }
        assert forall|h: u32| o.holds(h) && h != gone implies #[trigger] self.rank(h) == (if o.rank(
            h,
        ) > o.rank(gone) {
            o.rank(h) - 1
        } else {
            o.rank(h)
        }) by {
            assert(self.pos(h) == (if mended.pos(h) > mended.pos(nil) {
                mended.pos(h) - 1
            } else {
                mended.pos(h)
            }));
            assert(mended.pos(h) == cut.pos(h));
            assert(cut.pos(h) == c.pos(h));
        }
        assert forall|h: u32| o.holds(h) && h != gone && h != index implies (
        #[trigger] self.node_at(h)).value == o.node_at(h).value by {
            assert(self.nd(h).value == mended.nd(h).value);
            assert(mended.nd(h).value == cut.nd(h).value);
            assert(cut.nd(h).value == c.nd(h).value);
            assert(c.nd(h) == o.nd(h));
        }
        if gone != index {
            assert(self.nd(index).value == mended.nd(index).value);
            assert(mended.nd(index).value == cut.nd(index).value);
            assert(cut.nd(index).value == c.nd(index).value);
            assert(c.val_at(k) == c.nd(index).value);
            assert(c.nd(gone) == o.nd(gone));
        }
        assert forall|q: int| 0 <= q < self.count() implies #[trigger] self.val_at(q) == o.val_at(
            if q < k {
                q
            } else {
                q + 1
            },
        ) by {
            let q2 = if q < g {
                q
            } else {
                q + 1
            };
            assert(self.val_at(q) == mended.val_at(q2));
            let h = mended.order()[q2];
            assert(h == cut.order()[q2]);
            assert(h == c.order()[q2]);
            assert(mended.nd(h).value == cut.nd(h).value);
            assert(cut.nd(h).value == c.nd(h).value);
            assert(mended.val_at(q2) == c.val_at(q2));
        }
        assert(self@ =~= o@.remove(k));
    }
}

} // verus!
