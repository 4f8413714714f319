use vstd::prelude::*;
use crate::node::{Color, Node, EMPTY_REF};
use crate::order::lt;
use crate::tree::{put, Place, Shape, Tree};

verus! {

impl<T: Clone + PartialEq + Eq + PartialOrd + Ord> Tree<T> {
    pub(crate) fn parent(&self, index: u32) -> (r: u32)
        requires
            index < self.slot_count(),
        ensures
            r == (if self.nd(index).parent == EMPTY_REF {
                self.root
            } else {
                self.nd(index).parent
            }),
    {
        let parent = self.node(index).parent;
        if parent == EMPTY_REF {
            self.root
        } else {
            parent
        }
    }

    pub(crate) fn create_nil_node(&mut self, parent: u32)
        requires
            (old(self).nil_index as int) < old(self).slot_count(),
        ensures
            final(self).rest_same(old(self)),
            final(self).slots() == old(self).slots().update(
                old(self).nil_index as int,
                Node {
                    parent,
                    left: EMPTY_REF,
                    right: EMPTY_REF,
                    color: Color::Red,
                    value: old(self).nd(old(self).nil_index).value,
                },
            ),
    {
        let nil_index = self.nil_index;
        let node = self.mut_node(nil_index);
        node.parent = parent;
        node.left = EMPTY_REF;
        node.right = EMPTY_REF;
        node.color = Color::Red;
    }

    /// The slots `buf` with `child` named as a child of `parent` in place of `old_child`.
    pub open(crate) spec fn with_child(
        buf: Seq<Node<T>>,
        parent: u32,
        old_child: u32,
        child: u32,
    ) -> Seq<Node<T>> {
        if parent == EMPTY_REF {
            buf
        } else if buf[parent as int].left == old_child {
            buf.update(parent as int, Node { left: child, ..buf[parent as int] })
        } else {
            buf.update(parent as int, Node { right: child, ..buf[parent as int] })
        }
    }

    /// The slots `buf` with `parent` named as the parent of `h`; none for `EMPTY_REF`.
    pub open(crate) spec fn with_parent(buf: Seq<Node<T>>, h: u32, parent: u32) -> Seq<Node<T>> {
        if h == EMPTY_REF {
            buf
        } else {
            buf.update(h as int, Node { parent, ..buf[h as int] })
        }
    }

    pub(crate) fn replace_parents_child(&mut self, parent: u32, old_child: u32, new_child: u32)
        requires
            old(self).slot_count() <= u32::MAX,
            new_child < old(self).slot_count(),
            parent != EMPTY_REF ==> parent < old(self).slot_count() && parent != new_child && (old(self).nd(parent).left == old_child || old(self).nd(parent).right == old_child),
        ensures
            final(self).slots() == Self::with_child(
                Self::with_parent(old(self).slots(), new_child, parent),
                parent,
                old_child,
                new_child,
            ),
            final(self).root == (if parent == EMPTY_REF {
                new_child
            } else {
                old(self).root
            }),
            final(self).nil_index == old(self).nil_index,
            final(self).shape == old(self).shape,
            final(self).store.unused@ == old(self).store.unused@,
            final(self).store.empty == old(self).store.empty,
    {
        self.mut_node(new_child).parent = parent;
        if parent == EMPTY_REF {
            self.root = new_child;
            return ;
        }
        let p = self.mut_node(parent);
        if p.left == old_child {
            p.left = new_child;
        } else {
            p.right = new_child;
        }
    }

    pub(crate) fn remove_parents_child(&mut self, parent: u32, old_child: u32)
        requires
            old(self).slot_count() <= u32::MAX,
            parent < old(self).slot_count(),
            old(self).nd(parent).left == old_child || old(self).nd(parent).right == old_child,
        ensures
            final(self).rest_same(old(self)),
            final(self).slots() == Self::with_child(
                old(self).slots(),
                parent,
                old_child,
                EMPTY_REF,
            ),
    {
        let p = self.mut_node(parent);
        if p.left == old_child {
            p.left = EMPTY_REF;
        } else {
            p.right = EMPTY_REF;
        }
    }

    pub(crate) fn get_uncle(&self, p_index: u32) -> (r: u32)
        requires
            p_index < self.slot_count(),
            self.nd(p_index).parent != EMPTY_REF ==> {
                let g = self.nd(p_index).parent;
                g < self.slot_count() && (self.nd(g).left == p_index || self.nd(g).right
                    == p_index)
            },
        ensures
            r == (if self.nd(p_index).parent == EMPTY_REF {
                EMPTY_REF
            } else if self.nd(self.nd(p_index).parent).left == p_index {
                self.nd(self.nd(p_index).parent).right
            } else {
                self.nd(self.nd(p_index).parent).left
            }),
    {
        let parent = self.node(p_index);
        if parent.parent == EMPTY_REF {
            return EMPTY_REF;
        }
        let grandparent = self.node(parent.parent);
        if grandparent.left == p_index {
            grandparent.right
        } else {
            grandparent.left
        }
    }

    pub(crate) fn get_sibling(&self, n_index: u32) -> (r: u32)
        requires
            n_index < self.slot_count(),
            self.nd(n_index).parent < self.slot_count(),
            self.nd(self.nd(n_index).parent).left == n_index || self.nd(
                self.nd(n_index).parent,
            ).right == n_index,
        ensures
            r == (if self.nd(self.nd(n_index).parent).left == n_index {
                self.nd(self.nd(n_index).parent).right
            } else {
                self.nd(self.nd(n_index).parent).left
            }),
    {
        let p_index = self.node(n_index).parent;
        let parent = self.node(p_index);
        if n_index == parent.left {
            parent.right
        } else {
            parent.left
        }
    }

    /// The slots `s` after a rotation about `x`, which goes down to the left if `left`
    /// and to the right if not: the child `y` of `x` on the other side takes the place of
    /// `x`, `x` becomes a child of `y`, and the subtree of `y` on the side of `x` changes
    /// over to `x`.
    pub open(crate) spec fn rot_slots(s: Seq<Node<T>>, x: u32, left: bool) -> Seq<Node<T>> {
        let nx = s[x as int];
        let y = if left {
            nx.right
        } else {
            nx.left
        };
        let ny = s[y as int];
        let b = if left {
            ny.left
        } else {
            ny.right
        };
        let p = nx.parent;
        let s1 = Self::with_parent(s, b, x);
        let s2 = s1.update(
            x as int,
            if left {
                Node { parent: y, right: b, ..nx }
            } else {
                Node { parent: y, left: b, ..nx }
            },
        );
        let s3 = s2.update(
            y as int,
            if left {
                Node { parent: p, left: x, ..ny }
            } else {
                Node { parent: p, right: x, ..ny }
            },
        );
        Self::with_child(s3, p, x, y)
    }

    /// The root after a rotation about `x`.
    pub open(crate) spec fn rot_root(s: Seq<Node<T>>, root: u32, x: u32, left: bool) -> u32 {
        if s[x as int].parent == EMPTY_REF {
            if left {
                s[x as int].right
            } else {
                s[x as int].left
            }
        } else {
            root
        }
    }

    /// What a left rotation about `x` makes of `other`: the right child `y` of `x` takes
    /// the place of `x`, `x` becomes the left child of `y`, and the left subtree of `y`
    /// becomes the right subtree of `x`. Colours, values and the order stay.
    pub open(crate) spec fn rotated_left(&self, other: &Self, x: u32) -> bool {
        let y = other.nd(x).right;
        let b = other.nd(y).left;
        let p = other.nd(x).parent;
        let s1 = Self::with_parent(other.slots(), b, x);
        let s2 = s1.update(x as int, Node { parent: y, right: b, ..other.nd(x) });
        let s3 = s2.update(y as int, Node { parent: p, left: x, ..other.nd(y) });
        &&& self.slots() == Self::with_child(s3, p, x, y)
        &&& self.root == (if p == EMPTY_REF {
            y
        } else {
            other.root
        })
        &&& self.nil_index == other.nil_index
        &&& self.store.unused@ == other.store.unused@
        &&& self.store.empty == other.store.empty
        &&& self.shape@.order == other.shape@.order
        &&& self.shape@.places == put(
            put(other.shape@.places, x, Place { hi: other.pos(y), ..other.place(x) }),
            y,
            Place { lo: other.lo(x), ..other.place(y) },
        )
    }

    /// The mirror image of `rotated_left`.
    pub open(crate) spec fn rotated_right(&self, other: &Self, x: u32) -> bool {
        let y = other.nd(x).left;
        let b = other.nd(y).right;
        let p = other.nd(x).parent;
        let s1 = Self::with_parent(other.slots(), b, x);
        let s2 = s1.update(x as int, Node { parent: y, left: b, ..other.nd(x) });
        let s3 = s2.update(y as int, Node { parent: p, right: x, ..other.nd(y) });
        &&& self.slots() == Self::with_child(s3, p, x, y)
        &&& self.root == (if p == EMPTY_REF {
            y
        } else {
            other.root
        })
        &&& self.nil_index == other.nil_index
        &&& self.store.unused@ == other.store.unused@
        &&& self.store.empty == other.store.empty
        &&& self.shape@.order == other.shape@.order
        &&& self.shape@.places == put(
            put(other.shape@.places, x, Place { lo: other.pos(y) + 1, ..other.place(x) }),
            y,
            Place { hi: other.hi(x), ..other.place(y) },
        )
    }

    /// What a rotation about `x` does, told by sides: `side` is the side to which `x`
    /// goes down. The child `y` on the far side moves up, and the near subtree `b` of
    /// `y` changes over to `x`.
    pub open(crate) spec fn turned(&self, o: &Self, x: u32, side: bool) -> bool {
        let y = o.kid(x, !side);
        let b = o.kid(y, side);
        let p = o.nd(x).parent;
        &&& self.nil_index == o.nil_index
        &&& self.store.unused@ == o.store.unused@
        &&& self.slots().len() == o.slots().len()
        &&& self.order() == o.order()
        &&& self.root == (if p == EMPTY_REF {
            y
        } else {
            o.root
        })
        &&& x != y && x != p && y != p && b != x && b != y && (b != EMPTY_REF ==> b != p)
        &&& x != EMPTY_REF && y != EMPTY_REF
        &&& forall|h: u32| #[trigger] self.live(h) == o.live(h)
        &&& forall|h: u32|
            (h as int) < self.slots().len() ==> (#[trigger] self.nd(h)).color == o.nd(h).color
                && self.nd(h).value == o.nd(h).value
        &&& forall|h: u32|
            (#[trigger] self.place(h)).pos == o.place(h).pos && self.place(h).bh == o.place(h).bh
        &&& forall|h: u32| h != x && h != y ==> #[trigger] self.place(h) == o.place(h)
        &&& self.hi(y) - self.lo(y) == o.hi(x) - o.lo(x)
        &&& self.hi(x) - self.lo(x) < o.hi(x) - o.lo(x)
        &&& self.nd(x).parent == y
        &&& self.kid(x, side) == o.kid(x, side)
        &&& self.kid(x, !side) == b
        &&& self.nd(y).parent == p
        &&& self.kid(y, side) == x
        &&& self.kid(y, !side) == o.kid(y, !side)
        &&& p != EMPTY_REF ==> {
            &&& self.nd(p).parent == o.nd(p).parent
            &&& (o.nd(p).left == x || o.nd(p).right == x)
            &&& self.nd(p).left == (if o.nd(p).left == x {
                y
            } else {
                o.nd(p).left
            })
            &&& self.nd(p).right == (if o.nd(p).right == x {
                y
            } else {
                o.nd(p).right
            })
        }
        &&& b != EMPTY_REF ==> {
            &&& self.nd(b).parent == x
            &&& self.nd(b).left == o.nd(b).left
            &&& self.nd(b).right == o.nd(b).right
        }
        &&& forall|h: u32|
            (h as int) < self.slots().len() && h != x && h != y && h != p && h != b
                ==> #[trigger] self.nd(h) == o.nd(h)
    }

    /// A rotation leaves alone the black height and the red rule of every node but the
    /// two that turn and their parent, and it keeps the values in order.
    pub(crate) proof fn lemma_turned_frame(&self, o: &Self, x: u32, side: bool)
        requires
            o.linked(),
            o.live(x),
            self.turned(o, x, side),
        ensures
            forall|h: u32|
                o.live(h) && h != x && h != o.kid(x, !side) && h != o.nd(x).parent && o.bh_ok(h)
                    ==> #[trigger] self.bh_ok(h),
            forall|h: u32|
                o.live(h) && h != x && h != o.kid(x, !side) && h != o.nd(x).parent && o.red_ok(h)
                    ==> #[trigger] self.red_ok(h),
            forall|z: u32| o.sorted_but(z) ==> #[trigger] self.sorted_but(z),
            self@ == o@,
    {
        let y = o.kid(x, !side);
        let b = o.kid(y, side);
        let p = o.nd(x).parent;
        assert forall|h: u32|
            o.live(h) && h != x && h != y && h != p && o.bh_ok(h) implies #[trigger] self.bh_ok(
            h,
        ) by {
            assert(o.link_ok(h));
            assert(self.place(h).bh == o.place(h).bh);
            let l = o.nd(h).left;
            let r = o.nd(h).right;
            assert(self.place(l).bh == o.place(l).bh);
            assert(self.place(r).bh == o.place(r).bh);
        }
        assert forall|h: u32|
            o.live(h) && h != x && h != y && h != p && o.red_ok(h) implies #[trigger] self.red_ok(
            h,
        ) by {
            assert(o.link_ok(h));
        }
        assert forall|q: int| 0 <= q < self.count() implies #[trigger] self.val_at(q) == o.val_at(
            q,
        ) by {
            assert(self.nd(self.order()[q]).value == o.nd(self.order()[q]).value);
        }
        assert forall|z: u32| o.sorted_but(z) implies #[trigger] self.sorted_but(z) by {
            assert forall|a: int, c: int|
                0 <= a < c < self.count() && self.order()[a] != z && self.order()[c]
                    != z implies lt(#[trigger] self.val_at(a), #[trigger] self.val_at(c)) by {
                assert(lt(o.val_at(a), o.val_at(c)));
            }
        }
        assert(self@ =~= o@);
    }

    #[verifier::rlimit(100)]
    pub(crate) proof fn lemma_rotated_left(&self, other: &Self, x: u32)
        requires
            other.linked(),
            other.live(x),
            other.nd(x).right != EMPTY_REF,
            self.rotated_left(other, x),
        ensures
            self.linked(),
            self.turned(other, x, true),
    {
        let y = other.nd(x).right;
        let b = other.nd(y).left;
        let p = other.nd(x).parent;
        assert(other.link_ok(x));
        assert(other.link_ok(y));
        assert(self.slots().len() == other.slots().len());
        assert(other.store.wf());
        assert(self.store.slots().len() <= u32::MAX);
        assert(self.store.free() == other.store.free());
        assert(self.store.slots().len() == other.store.slots().len());
        assert forall|k: int| 0 <= k < self.store.free().len() implies (
        #[trigger] self.store.free()[k]) < self.store.slots().len() by {}
        assert(self.store.wf());
        if p != EMPTY_REF {
            assert(other.link_ok(p));
        }
        if b != EMPTY_REF {
            assert(other.link_ok(b));
        }
        assert(self.order() == other.order());
        assert forall|h: u32| (#[trigger] self.place(h)).pos == other.place(h).pos by {}
        assert forall|h: u32| #[trigger] self.live(h) == other.live(h) by {
            assert(self.place(h).pos == other.place(h).pos);
        }
        assert(self.arena_ok());
        assert(self.root_ok());
        assert forall|h: u32| self.live(h) implies #[trigger] self.link_ok(h) by {
            assert(other.live(h));
            assert(other.link_ok(h));
            if h == x || h == y || h == b || h == p {
            } else {
                assert(self.nd(h) == other.nd(h));
                assert(self.place(h) == other.place(h));
            }
        }
        assert(self.turned(other, x, true));
    }

    #[verifier::rlimit(100)]
    pub(crate) proof fn lemma_rotated_right(&self, other: &Self, x: u32)
        requires
            other.linked(),
            other.live(x),
            other.nd(x).left != EMPTY_REF,
            self.rotated_right(other, x),
        ensures
            self.linked(),
            self.turned(other, x, false),
    {
        let y = other.nd(x).left;
        let b = other.nd(y).right;
        let p = other.nd(x).parent;
        assert(other.link_ok(x));
        assert(other.link_ok(y));
        assert(self.slots().len() == other.slots().len());
        assert(other.store.wf());
        assert(self.store.slots().len() <= u32::MAX);
        assert(self.store.free() == other.store.free());
        assert(self.store.slots().len() == other.store.slots().len());
        assert forall|k: int| 0 <= k < self.store.free().len() implies (
        #[trigger] self.store.free()[k]) < self.store.slots().len() by {}
        assert(self.store.wf());
        if p != EMPTY_REF {
            assert(other.link_ok(p));
        }
        if b != EMPTY_REF {
            assert(other.link_ok(b));
        }
        assert(self.order() == other.order());
        assert forall|h: u32| (#[trigger] self.place(h)).pos == other.place(h).pos by {}
        assert forall|h: u32| #[trigger] self.live(h) == other.live(h) by {
            assert(self.place(h).pos == other.place(h).pos);
        }
        assert(self.arena_ok());
        assert(self.root_ok());
        assert forall|h: u32| self.live(h) implies #[trigger] self.link_ok(h) by {
            assert(other.live(h));
            assert(other.link_ok(h));
            if h == x || h == y || h == b || h == p {
            } else {
                assert(self.nd(h) == other.nd(h));
                assert(self.place(h) == other.place(h));
            }
        }
        assert(self.turned(other, x, false));
    }

    pub(crate) fn rotate_right(&mut self, index: u32)
        requires
            old(self).linked(),
            old(self).live(index),
            old(self).nd(index).left != EMPTY_REF,
        ensures
            final(self).linked(),
            final(self).turned(old(self), index, false),
            final(self).slots() == Self::rot_slots(old(self).slots(), index, false),
            final(self).root == Self::rot_root(old(self).slots(), old(self).root, index, false),
    {
        proof {
            assert(self.link_ok(index));
            assert(self.link_ok(self.nd(index).left));
            if self.nd(index).parent != EMPTY_REF {
                assert(self.link_ok(self.nd(index).parent));
            }
            if self.nd(self.nd(index).left).right != EMPTY_REF {
                assert(self.link_ok(self.nd(self.nd(index).left).right));
            }
        }
        let n = self.node(index);
        let p = n.parent;

        let lt_index = n.left;
        let lt_right = self.node(lt_index).right;

        if lt_right != EMPTY_REF {
            self.mut_node(lt_right).parent = index;
            self.mut_node(index).left = lt_right;
        } else {
            self.mut_node(index).left = EMPTY_REF;
        }

        self.mut_node(index).parent = lt_index;
        self.mut_node(lt_index).right = index;
        proof {
            let s1 = Self::with_parent(old(self).slots(), lt_right, index);
            let s2 = s1.update(
                index as int,
                Node { parent: lt_index, left: lt_right, ..old(self).nd(index) },
            );
            let s3 = s2.update(lt_index as int, Node { right: index, ..old(self).nd(lt_index) });
            assert(self.slots() =~= s3);
        }

        self.replace_parents_child(p, index, lt_index);
        let ghost places = put(
            put(
                old(self).shape@.places,
                index,
                Place { lo: old(self).pos(lt_index) + 1, ..old(self).place(index) },
            ),
            lt_index,
            Place { hi: old(self).hi(index), ..old(self).place(lt_index) },
        );
        self.shape = Ghost(Shape { order: old(self).shape@.order, places });
        proof {
            let s1 = Self::with_parent(old(self).slots(), lt_right, index);
            let s2 = s1.update(
                index as int,
                Node { parent: lt_index, left: lt_right, ..old(self).nd(index) },
            );
            let s3 = s2.update(
                lt_index as int,
                Node { parent: p, right: index, ..old(self).nd(lt_index) },
            );
            assert(self.slots() =~= Self::with_child(s3, p, index, lt_index));
            assert(self.slots() == Self::rot_slots(old(self).slots(), index, false));
            self.lemma_rotated_right(old(self), index);
        }
    }

    pub(crate) fn rotate_left(&mut self, index: u32)
        requires
            old(self).linked(),
            old(self).live(index),
            old(self).nd(index).right != EMPTY_REF,
        ensures
            final(self).linked(),
            final(self).turned(old(self), index, true),
            final(self).slots() == Self::rot_slots(old(self).slots(), index, true),
            final(self).root == Self::rot_root(old(self).slots(), old(self).root, index, true),
    {
        proof {
            assert(self.link_ok(index));
            assert(self.link_ok(self.nd(index).right));
            if self.nd(index).parent != EMPTY_REF {
                assert(self.link_ok(self.nd(index).parent));
            }
            if self.nd(self.nd(index).right).left != EMPTY_REF {
                assert(self.link_ok(self.nd(self.nd(index).right).left));
            }
        }
        let n = self.node(index);
        let p = n.parent;

        let rt_index = n.right;
        let rt_left = self.node(rt_index).left;

        if rt_left != EMPTY_REF {
            self.mut_node(rt_left).parent = index;
            self.mut_node(index).right = rt_left;
        } else {
            self.mut_node(index).right = EMPTY_REF;
        }

        self.mut_node(index).parent = rt_index;
        self.mut_node(rt_index).left = index;
        proof {
            let s1 = Self::with_parent(old(self).slots(), rt_left, index);
            let s2 = s1.update(
                index as int,
                Node { parent: rt_index, right: rt_left, ..old(self).nd(index) },
            );
            let s3 = s2.update(rt_index as int, Node { left: index, ..old(self).nd(rt_index) });
            assert(self.slots() =~= s3);
        }

        self.replace_parents_child(p, index, rt_index);
        let ghost places = put(
            put(
                old(self).shape@.places,
                index,
                Place { hi: old(self).pos(rt_index), ..old(self).place(index) },
            ),
            rt_index,
            Place { lo: old(self).lo(index), ..old(self).place(rt_index) },
        );
        self.shape = Ghost(Shape { order: old(self).shape@.order, places });
        proof {
            let s1 = Self::with_parent(old(self).slots(), rt_left, index);
            let s2 = s1.update(
                index as int,
                Node { parent: rt_index, right: rt_left, ..old(self).nd(index) },
            );
            let s3 = s2.update(
                rt_index as int,
                Node { parent: p, left: index, ..old(self).nd(rt_index) },
            );
            assert(self.slots() =~= Self::with_child(s3, p, index, rt_index));
            assert(self.slots() == Self::rot_slots(old(self).slots(), index, true));
            self.lemma_rotated_left(old(self), index);
        }
    }
}

} // verus!
