use vstd::prelude::*;
use crate::node::{Color, Node, EMPTY_REF};
use crate::order::{lemma_lt_total, lemma_operators, lt, operators_agree};
use crate::tree::graft::grafted_shape;
use crate::tree::{put, Place, Shape, Tree};

verus! {

/// The layout `shape` with the black height of `h` set to `bh`.
pub open spec fn relabel(shape: Shape, h: u32, bh: int) -> Shape {
    Shape { order: shape.order, places: put(shape.places, h, Place { bh, ..(shape.places)(h) }) }
}

impl<T: Clone + PartialEq + Eq + PartialOrd + Ord> Tree<T> {
    /// `value` may become the child of `p` on the given side: the place is vacant and
    /// `value` lies between the values that would stand beside it.
    pub open(crate) spec fn has_place_for(&self, value: T, p: u32, is_left: bool) -> bool {
        let k = if is_left {
            self.rank(p)
        } else {
            self.rank(p) + 1
        };
        &&& self.holds(p)
        &&& self.kid(p, is_left) == EMPTY_REF
        &&& k > 0 ==> lt(self@[k - 1], value)
        &&& k < self@.len() ==> lt(value, self@[k])
    }

    /// The handle that the arena hands out next: the last of the free stack, or the
    /// first new slot where the stack is empty.
    pub open(crate) spec fn next_free(&self) -> u32 {
        if self.store.unused@.len() > 0 {
            self.store.unused@.last()
        } else {
            self.store.buffer@.len() as u32
        }
    }

    /// `self` is `o` with `value` hung under `p` as the red leaf `x`, on the left if
    /// `left`, and mended where `p` is red. All other links and colours are those of
    /// `o`, as far as mending leaves them.
    pub open(crate) spec fn hung(&self, o: &Self, x: u32, p: u32, left: bool, value: T) -> bool {
        &&& x == o.next_free()
        &&& if o.nd(p).color == Color::Black {
            self.grafted(o, x, p, left, value)
        } else {
            exists|mid: Self| #[trigger]
                mid.grafted(o, x, p, left, value) && self.mended(&mid, x, p)
        }
    }

    /// `self` is `o` with `value` put where it belongs: as the black root of an empty
    /// tree, else as a red leaf under the node beside which it stands in order, with
    /// the colours mended.
    pub open(crate) spec fn placed(&self, o: &Self, value: T) -> bool {
        if o.root == EMPTY_REF {
            &&& self.root == o.next_free()
            &&& self.nd(self.root) == (Node {
                parent: EMPTY_REF,
                left: EMPTY_REF,
                right: EMPTY_REF,
                color: Color::Black,
                value,
            })
        } else {
            exists|x: u32, p: u32, left: bool|
                o.has_place_for(value, p, left) && #[trigger] self.hung(o, x, p, left, value)
        }
    }

    /// `self` is `o` with `value` added at rank `k` under the handle `x`; every other
    /// node keeps its handle and its value. The handle came off the free stack, which
    /// lost it and nothing else; where the stack was empty the arena has grown.
    pub open(crate) spec fn inserted(&self, o: &Self, value: T, k: int, x: u32) -> bool {
        &&& self.slot_count() >= o.slot_count()
        &&& o.free_count() > 0 ==> self.slot_count() == o.slot_count() && self.free_count()
            == o.free_count() - 1
        &&& o.free_count() == 0 ==> self.slot_count() > o.slot_count()
        &&& self.free_count() == self.slot_count() - o@.len() - 2
        &&& 0 <= k <= o@.len()
        &&& self@ == o@.insert(k, value)
        &&& self.holds(x)
        &&& !o.holds(x)
        &&& self.rank(x) == k
        &&& self.node_at(x).value == value
        &&& forall|h: u32|
            o.holds(h) ==> #[trigger] self.holds(h) && self.node_at(h).value == o.node_at(h).value
                && self.rank(h) == (if o.rank(h) >= k {
                o.rank(h) + 1
            } else {
                o.rank(h)
            })
    }

    /// Inserts `value` unless the tree holds it already, and tells whether it did.
    pub fn insert_if_not_exist(&mut self, value: T) -> (r: bool)
        requires
            old(self).wf(),
            old(self)@.len() < u32::MAX - 1,
        ensures
            final(self).wf(),
            r == !old(self)@.contains(value),
            !r ==> *final(self) == *old(self),
            r ==> exists|k: int, x: u32| final(self).inserted(old(self), value, k, x),
            r ==> final(self).placed(old(self), value),
            final(self).root_is_black(),
            final(self).root_handle() != EMPTY_REF,
    {
        if self.root == EMPTY_REF {
            proof {
                assert(!self@.contains(value));
            }
            self.insert_root(value);
            proof {
                assert(self.inserted(old(self), value, 0, self.root));
            }
            return true;
        }
        let mut index = self.root;
        let mut p_index = self.root;
        let mut is_left = false;
        let ghost mut lo: int = 0;
        let ghost mut hi: int = self.count();
        proof {
            lemma_operators::<T>();
        }

        while index != EMPTY_REF
            invariant
                *self == *old(self),
                self.wf(),
                operators_agree::<T>(),
                0 <= lo <= hi <= self.count(),
                index != EMPTY_REF ==> self.live(index) && self.lo(index) == lo && self.hi(index)
                    == hi,
                index == EMPTY_REF ==> lo == hi && self.live(p_index) && self.kid(p_index, is_left)
                    == EMPTY_REF && lo == self.child_rank(p_index, is_left),
                lo > 0 ==> lt(self.val_at(lo - 1), value),
                hi < self.count() ==> lt(value, self.val_at(hi)),
            decreases hi - lo,
        {
            proof {
                assert(self.link_ok(index));
            }
            let node = self.node(index);
            p_index = index;
            if node.value == value {
                proof {
                    assert(self@[self.pos(index)] == value);
                }
                return false;
            }
            is_left = value < node.value;
            if is_left {
                is_left = true;
                proof {
                    hi = self.pos(index);
                }
                index = node.left;
            } else {
                proof {
                    lemma_lt_total(value, node.value);
                    lo = self.pos(index) + 1;
                }
                index = node.right;
            }
        }
        proof {
            self.lemma_fenced(value, lo, hi);
            if self@.contains(value) {
                let q = choose|q: int| 0 <= q < self@.len() && self@[q] == value;
                assert(self.val_at(q) == value);
            }
        }

        let x = self.insert_with_parent(value, p_index, is_left);
        proof {
            assert(self.inserted(old(self), value, lo, x));
            assert(old(self).has_place_for(value, p_index, is_left) && self.hung(
                old(self),
                x,
                p_index,
                is_left,
                value,
            ));
        }
        true
    }

    /// Inserts `value`, which the tree does not hold yet.
    pub fn insert(&mut self, value: T)
        requires
            old(self).wf(),
            !old(self)@.contains(value),
            old(self)@.len() < u32::MAX - 1,
        ensures
            final(self).wf(),
            exists|k: int, x: u32| final(self).inserted(old(self), value, k, x),
            final(self).placed(old(self), value),
            final(self).root_is_black(),
            final(self).root_handle() != EMPTY_REF,
    {
        if self.root == EMPTY_REF {
            self.insert_root(value);
            proof {
                assert(self.inserted(old(self), value, 0, self.root));
            }
            return ;
        }
        let mut index = self.root;
        let mut p_index = self.root;
        let mut is_left = false;
        let ghost mut lo: int = 0;
        let ghost mut hi: int = self.count();
        proof {
            lemma_operators::<T>();
        }

        while index != EMPTY_REF
            invariant
                *self == *old(self),
                self.wf(),
                !self@.contains(value),
                operators_agree::<T>(),
                0 <= lo <= hi <= self.count(),
                index != EMPTY_REF ==> self.live(index) && self.lo(index) == lo && self.hi(index)
                    == hi,
                index == EMPTY_REF ==> lo == hi && self.live(p_index) && self.kid(p_index, is_left)
                    == EMPTY_REF && lo == self.child_rank(p_index, is_left),
                lo > 0 ==> lt(self.val_at(lo - 1), value),
                hi < self.count() ==> lt(value, self.val_at(hi)),
            decreases hi - lo,
        {
            proof {
                assert(self.link_ok(index));
                assert(self@[self.pos(index)] == self.nd(index).value);
            }
            let node = self.node(index);
            p_index = index;

            is_left = value < node.value;
            if is_left {
                is_left = true;
                proof {
                    hi = self.pos(index);
                }
                index = node.left;
            } else {
                proof {
                    lemma_lt_total(value, node.value);
                    lo = self.pos(index) + 1;
                }
                index = node.right;
            }
        }

        let x = self.insert_with_parent(value, p_index, is_left);
        proof {
            assert(self.inserted(old(self), value, lo, x));
            assert(old(self).has_place_for(value, p_index, is_left) && self.hung(
                old(self),
                x,
                p_index,
                is_left,
                value,
            ));
        }
    }

    /// Makes `value` the black root of an empty tree.
    pub fn insert_root(&mut self, value: T)
        requires
            old(self).wf(),
            old(self)@.len() == 0,
        ensures
            final(self).wf(),
            final(self).inserted(old(self), value, 0, final(self).root_handle()),
            final(self)@ == seq![value],
            final(self).placed(old(self), value),
            final(self).sentinel() == old(self).sentinel(),
            old(self).arena().pristine() ==> final(self).arena().pristine() && final(self).root_handle() == old(self).arena().next_handle() && final(self).arena().next_handle() == old(self).arena().next_handle() + 1,
            old(self).free_count() > 0 ==> final(self).slot_count() == old(self).slot_count(),
    {
        let new_index = self.store.get_free_index();
        let ghost taken = *self;
        proof {
            taken.lemma_take(old(self), new_index);
        }
        let new_node = self.mut_node(new_index);
        new_node.parent = EMPTY_REF;
        new_node.left = EMPTY_REF;
        new_node.right = EMPTY_REF;
        new_node.color = Color::Black;
        new_node.value = value;
        self.root = new_index;
        self.shape = Ghost(grafted_shape(old(self).shape@, new_index, 0, true, 1));
        proof {
            assert(self.order()[0] == new_index);
            assert forall|h: u32| #[trigger] self.live(h) == (h == new_index) by {
                if self.live(h) {
                    assert(self.order()[self.pos(h)] == h);
                }
            }
            assert(self.arena_ok()) by {
                assert(self.store.unused@ == taken.store.unused@);
                assert(self.live(self.nil_index) == (self.nil_index == new_index));
                assert forall|j: int| 0 <= j < self.store.unused@.len() implies !self.live(
                    #[trigger] self.store.unused@[j],
                ) && self.store.unused@[j] != self.nil_index by {
                    let f = self.store.unused@[j];
                    assert(self.live(f) == (f == new_index));
                }
            }
            assert(self.link_ok(new_index));
            assert(self.bh_ok(new_index));
            assert(self.red_ok(new_index));
            assert(self@ =~= seq![value]);
            assert(self@ =~= old(self)@.insert(0, value));
            assert(!old(self).live(new_index));
        }
    }

    /// Hangs `value` as a red leaf under `p_index`, on the left if `is_left`, and mends
    /// the colours. Returns the handle of the new node.
    pub fn insert_with_parent(&mut self, value: T, p_index: u32, is_left: bool) -> (r: u32)
        requires
            old(self).wf(),
            old(self).has_place_for(value, p_index, is_left),
            old(self)@.len() < u32::MAX - 1,
        ensures
            final(self).wf(),
            final(self).inserted(
                old(self),
                value,
                if is_left {
                    old(self).rank(p_index)
                } else {
                    old(self).rank(p_index) + 1
                },
                r,
            ),
            final(self).hung(old(self), r, p_index, is_left, value),
            final(self).root_is_black(),
            final(self).root_handle() != EMPTY_REF,
    {
        let ghost k = self.child_rank(p_index, is_left);
        proof {
            assert(self.link_ok(p_index));
            if k > 0 {
                assert(self@[k - 1] == self.val_at(k - 1));
            }
            if k < self.count() {
                assert(self@[k] == self.val_at(k));
            }
        }
        let new_index = self.store.get_free_index();
        let ghost taken = *self;
        proof {
            taken.lemma_take(old(self), new_index);
            assert(taken.nd(p_index) == old(self).nd(p_index));
        }
        let new_node = self.mut_node(new_index);
        new_node.parent = p_index;
        new_node.left = EMPTY_REF;
        new_node.right = EMPTY_REF;
        new_node.color = Color::Red;
        new_node.value = value;

        let parent = self.mut_node(p_index);

        if is_left {
            parent.left = new_index;
        } else {
            parent.right = new_index;
        }
        let parent_is_red = parent.color == Color::Red;
        self.shape = Ghost(grafted_shape(old(self).shape@, new_index, k, is_left, 0));
        let ghost grown = *self;
        proof {
            assert(self.store.unused@ == taken.store.unused@);
            assert forall|h: u32|
                (h as int) < old(self).slots().len() && h != new_index && h
                    != p_index implies #[trigger] self.nd(h) == old(self).nd(h) by {
                assert(taken.nd(h) == old(self).nd(h));
            }
            assert(self.grafted(old(self), new_index, p_index, is_left, value));
            self.lemma_grafted_links(old(self), new_index, p_index, is_left, value);
            self.lemma_grafted_values(old(self), new_index, p_index, is_left, value);
            self.lemma_grafted_tones(old(self), new_index, p_index, is_left, value);
            assert(self.inserted(old(self), value, k, new_index)) by {
                assert forall|h: u32| old(self).holds(h) implies #[trigger] self.holds(h)
                    && self.node_at(h).value == old(self).node_at(h).value && self.rank(h) == (
                if old(self).rank(h) >= k {
                    old(self).rank(h) + 1
                } else {
                    old(self).rank(h)
                }) by {
                    assert(self.live(h) == (h == new_index || old(self).live(h)));
                    assert(self.nd(h).value == old(self).nd(h).value);
                }
            }
        }

        if parent_is_red {
            self.fix_red_black_properties_after_insert(new_index, p_index);
            proof {
                assert(grown.grafted(old(self), new_index, p_index, is_left, value)
                    && self.mended(&grown, new_index, p_index));
                assert(self.inserted(old(self), value, k, new_index)) by {
                    assert(self.live(new_index) == grown.live(new_index));
                    assert(self.pos(new_index) == grown.pos(new_index));
                    assert(self.nd(new_index).value == grown.nd(new_index).value);
                    assert forall|h: u32| old(self).holds(h) implies #[trigger] self.holds(h)
                        && self.node_at(h).value == old(self).node_at(h).value && self.rank(h)
                        == (if old(self).rank(h) >= k {
                        old(self).rank(h) + 1
                    } else {
                        old(self).rank(h)
                    }) by {
                        assert(grown.holds(h));
                        assert(self.live(h) == grown.live(h));
                        assert(self.pos(h) == grown.pos(h));
                        assert(self.nd(h).value == grown.nd(h).value);
                    }
                }
            }
        }
        new_index
    }

    /// Mends the tree where the red node `n_index` stands under the red node
    /// `p_origin`: by recolouring, which may move the fault two levels up, or by one
    /// or two rotations. The root is black afterwards; the black height of the tree
    /// is what it was, but one more where the fault has reached the root.
    #[verifier::rlimit(100)]
    pub fn fix_red_black_properties_after_insert(&mut self, n_index: u32, p_origin: u32)
        requires
            old(self).red_pair(n_index, p_origin),
        ensures
            final(self).wf(),
            final(self).rebalanced(old(self)),
            final(self).root_black_height() == old(self).root_black_height() + final(self).climbed(old(self)),
            final(self).mended(old(self), n_index, p_origin),
            final(self).root_is_black(),
        decreases old(self).count() - (old(self).hi(n_index) - old(self).lo(n_index)),
    {
        // parent is red!
        let mut p_index = p_origin;
        proof {
            assert(self.link_ok(n_index));
            assert(self.link_ok(p_index));
        }
        let g_index = self.node(p_index).parent;
        if g_index == EMPTY_REF {
            // the parent is the root: all there is to do is to paint it black
            self.mut_node(p_index).color = Color::Black;
            self.shape = Ghost(relabel(self.shape@, p_index, old(self).bh(p_index) + 1));
            proof {
                self.lemma_mend_root(old(self), n_index, p_index);
                assert(self.slots() =~= Self::paint(old(self).slots(), p_index, Color::Black));
                assert(Self::mended_slots(old(self).slots(), old(self).root, n_index, p_origin, 1)
                    == Some((self.slots(), self.root)));
            }
            return ;
        }
        proof {
            assert(self.link_ok(g_index));
        }

        // uncle is red -> recolor parent, grandparent and uncle
        let u_index = self.get_uncle(p_index);

        if u_index != EMPTY_REF && self.node(u_index).color == Color::Red {
            proof {
                assert(self.link_ok(u_index));
            }
            self.mut_node(p_index).color = Color::Black;
            self.mut_node(g_index).color = Color::Red;
            self.mut_node(u_index).color = Color::Black;

            // the grandparent is red now: it may be the root or have a red parent
            let gg_index = self.node(g_index).parent;
            if gg_index == EMPTY_REF {
                // the root stays black
                self.mut_node(g_index).color = Color::Black;
            }
            self.shape = Ghost(
                relabel(
                    relabel(
                        relabel(self.shape@, p_index, old(self).bh(p_index) + 1),
                        u_index,
                        old(self).bh(u_index) + 1,
                    ),
                    g_index,
                    if gg_index == EMPTY_REF {
                        old(self).bh(g_index) + 1
                    } else {
                        old(self).bh(g_index)
                    },
                ),
            );
            proof {
                self.lemma_mend_red_uncle(old(self), n_index, p_index, g_index, u_index);
            }
            let ghost recolored = *self;
            let ghost painted = Self::paint(
                Self::paint(
                    Self::paint(old(self).slots(), p_index, Color::Black),
                    g_index,
                    Color::Red,
                ),
                u_index,
                Color::Black,
            );
            proof {
                if gg_index == EMPTY_REF {
                    assert(self.slots() =~= Self::paint(painted, g_index, Color::Black));
                } else {
                    assert(old(self).link_ok(gg_index));
                    assert(self.slots() =~= painted);
                    assert(self.nd(gg_index).color == old(self).nd(gg_index).color);
                }
                if !(gg_index != EMPTY_REF && self.nd(gg_index).color == Color::Red) {
                    assert(Self::mended_slots(
                        old(self).slots(),
                        old(self).root,
                        n_index,
                        p_origin,
                        1,
                    ) == Some((self.slots(), self.root)));
                }
            }

            if gg_index != EMPTY_REF && self.node(gg_index).color == Color::Red {
                self.fix_red_black_properties_after_insert(g_index, gg_index);
                proof {
                    self.lemma_rebalanced_trans(&recolored, old(self));
                    let fuel = choose|fuel: nat|
                        #[trigger] Self::mended_slots(
                            recolored.slots(),
                            recolored.root,
                            g_index,
                            gg_index,
                            fuel,
                        ) == Some((self.slots(), self.root));
                    assert(Self::mended_slots(
                        old(self).slots(),
                        old(self).root,
                        n_index,
                        p_origin,
                        fuel + 1,
                    ) == Some((self.slots(), self.root)));
                }
            }
        } else if p_index == self.node(g_index).left {
            // parent is left child of grandparent
            if n_index == self.node(p_index).right {
                // inner child: rotate it to the outside first
                self.rotate_left(p_index);
                proof {
                    self.lemma_mend_inner(old(self), n_index, p_index, g_index, true);
                }
                p_index = n_index;
            }
            let ghost lined = *self;
            let ghost low = if p_index == n_index {
                p_origin
            } else {
                n_index
            };
            proof {
                assert(lined.link_ok(p_index));
                assert(lined.link_ok(g_index));
            }

            self.rotate_right(g_index);
            let ghost mid = *self;

            // recolor parent and grandparent
            self.mut_node(p_index).color = Color::Black;
            self.mut_node(g_index).color = Color::Red;
            self.shape = Ghost(
                relabel(
                    relabel(self.shape@, p_index, mid.bh(p_index) + 1),
                    g_index,
                    mid.bh(g_index) - 1,
                ),
            );
            proof {
                self.lemma_mend_outer(&mid, &lined, low, p_index, g_index, true);
                if p_index == n_index {
                    self.lemma_rebalanced_trans(&lined, old(self));
                }
                assert(self.slots() =~= Self::paint(
                    Self::paint(mid.slots(), p_index, Color::Black),
                    g_index,
                    Color::Red,
                ));
                assert(Self::mended_slots(old(self).slots(), old(self).root, n_index, p_origin, 1)
                    == Some((self.slots(), self.root)));
            }
        } else {
            // parent is right child of grandparent
            if n_index == self.node(p_index).left {
                self.rotate_right(p_index);
                proof {
                    self.lemma_mend_inner(old(self), n_index, p_index, g_index, false);
                }
                p_index = n_index;
            }
            let ghost lined = *self;
            let ghost low = if p_index == n_index {
                p_origin
            } else {
                n_index
            };
            proof {
                assert(lined.link_ok(p_index));
                assert(lined.link_ok(g_index));
            }

            self.rotate_left(g_index);
            let ghost mid = *self;

            self.mut_node(p_index).color = Color::Black;
            self.mut_node(g_index).color = Color::Red;
            self.shape = Ghost(
                relabel(
                    relabel(self.shape@, p_index, mid.bh(p_index) + 1),
                    g_index,
                    mid.bh(g_index) - 1,
                ),
            );
            proof {
                self.lemma_mend_outer(&mid, &lined, low, p_index, g_index, false);
                if p_index == n_index {
                    self.lemma_rebalanced_trans(&lined, old(self));
                }
                assert(self.slots() =~= Self::paint(
                    Self::paint(mid.slots(), p_index, Color::Black),
                    g_index,
                    Color::Red,
                ));
                assert(Self::mended_slots(old(self).slots(), old(self).root, n_index, p_origin, 1)
                    == Some((self.slots(), self.root)));
            }
        }
    }
}

} // verus!
