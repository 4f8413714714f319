use vstd::prelude::*;
use crate::node::{Color, Node, EMPTY_REF};
use crate::order::lawful;
use crate::tree::Tree;

verus! {

impl<T: Clone + PartialEq + Eq + PartialOrd + Ord> Tree<T> {
    /// The tree is sound but for one thing: the red node `n` has the red parent `p`.
    /// The other child of `p` is black or missing.
    pub open(crate) spec fn red_pair(&self, n: u32, p: u32) -> bool {
        &&& lawful::<T>()
        &&& self.linked()
        &&& !self.live(self.nil_index)
        &&& self.sorted_but(self.nil_index)
        &&& forall|h: u32| self.live(h) ==> #[trigger] self.bh_ok(h)
        &&& forall|h: u32| self.live(h) && h != p ==> #[trigger] self.red_ok(h)
        &&& self.live(n)
        &&& self.live(p)
        &&& self.nd(n).parent == p
        &&& self.nd(n).color == Color::Red
        &&& self.nd(p).color == Color::Red
        &&& (self.root != p ==> self.dark(self.root))
        &&& self.dark(
            if self.nd(p).left == n {
                self.nd(p).right
            } else {
                self.nd(p).left
            },
        )
    }

    /// The slots `s` with the node `h` painted.
    pub open(crate) spec fn paint(s: Seq<Node<T>>, h: u32, color: Color) -> Seq<Node<T>> {
        s.update(h as int, Node { color, ..s[h as int] })
    }

    /// What mending makes of the slots `s` and the root `root`, where the red node `n`
    /// stands under the red node `p`; `None` where `fuel` steps up do not do.
    ///
    /// - `p` has no parent: `p` turns black.
    /// - The uncle is red: `p` and the uncle turn black and the grandparent red. A
    ///   grandparent that is the root turns black again; one under a red parent is
    ///   mended in turn.
    /// - Else: a node `n` on the inner side of `p` first changes places with `p` by a
    ///   rotation about `p`. Then a rotation about the grandparent lifts the upper of
    ///   the two, which turns black, over the grandparent, which turns red.
    pub open(crate) spec fn mended_slots(
        s: Seq<Node<T>>,
        root: u32,
        n: u32,
        p: u32,
        fuel: nat,
    ) -> Option<(Seq<Node<T>>, u32)>
        decreases fuel,
    {
        let g = s[p as int].parent;
        if fuel == 0 {
            None
        } else if g == EMPTY_REF {
            Some((Self::paint(s, p, Color::Black), root))
        } else {
            let left = s[g as int].left == p;
            let u = if left {
                s[g as int].right
            } else {
                s[g as int].left
            };
            if u != EMPTY_REF && s[u as int].color == Color::Red {
                let s1 = Self::paint(
                    Self::paint(Self::paint(s, p, Color::Black), g, Color::Red),
                    u,
                    Color::Black,
                );
                let gg = s[g as int].parent;
                if gg == EMPTY_REF {
                    Some((Self::paint(s1, g, Color::Black), root))
                } else if s[gg as int].color == Color::Red {
                    Self::mended_slots(s1, root, g, gg, (fuel - 1) as nat)
                } else {
                    Some((s1, root))
                }
            } else {
                let inner = n == (if left {
                    s[p as int].right
                } else {
                    s[p as int].left
                });
                let s1 = if inner {
                    Self::rot_slots(s, p, left)
                } else {
                    s
                };
                let r1 = if inner {
                    Self::rot_root(s, root, p, left)
                } else {
                    root
                };
                let top = if inner {
                    n
                } else {
                    p
                };
                let s2 = Self::rot_slots(s1, g, !left);
                let r2 = Self::rot_root(s1, r1, g, !left);
                Some((Self::paint(Self::paint(s2, top, Color::Black), g, Color::Red), r2))
            }
        }
    }

    /// `self` is what mending makes of `o` with its red node `n` under the red node `p`.
    pub open(crate) spec fn mended(&self, o: &Self, n: u32, p: u32) -> bool {
        exists|fuel: nat|
            #[trigger] Self::mended_slots(o.slots(), o.root, n, p, fuel) == Some(
                (self.slots(), self.root),
            )
    }

    /// The fault of `o` has reached its root in `self`: the root was the red parent, or
    /// its two children were red and are black now. Then the root, painted black, has
    /// one black node more below and with it.
    pub open(crate) spec fn fault_at_root(&self, o: &Self) -> bool {
        let r = o.root;
        r != EMPTY_REF && (o.nd(r).color == Color::Red || (self.root == r && !o.dark(
            o.nd(r).left,
        ) && !o.dark(o.nd(r).right) && self.dark(self.nd(r).left) && self.dark(
            self.nd(r).right,
        )))
    }

    /// 1 where the fault of `o` has reached its root in `self`, else 0.
    pub open(crate) spec fn climbed(&self, o: &Self) -> int {
        if self.fault_at_root(o) {
            1
        } else {
            0
        }
    }

    /// The root is black and one of its children is black or missing: no fault below
    /// can reach it.
    pub open(crate) spec fn calm_top(&self) -> bool {
        &&& self.root != EMPTY_REF
        &&& self.nd(self.root).color == Color::Black
        &&& (self.dark(self.nd(self.root).left) || self.dark(self.nd(self.root).right))
    }

    /// The root, its colour, its children and their colours are those of `o`.
    pub open(crate) spec fn same_top(&self, o: &Self) -> bool {
        let r = o.root;
        &&& self.root == r
        &&& r != EMPTY_REF ==> {
            &&& self.nd(r).color == o.nd(r).color
            &&& self.nd(r).left == o.nd(r).left
            &&& self.nd(r).right == o.nd(r).right
            &&& o.nd(r).left != EMPTY_REF ==> self.nd(o.nd(r).left).color == o.nd(
                o.nd(r).left,
            ).color
            &&& o.nd(r).right != EMPTY_REF ==> self.nd(o.nd(r).right).color == o.nd(
                o.nd(r).right,
            ).color
        }
    }

    /// The top of `self` takes a fault as that of `o` does.
    pub open(crate) spec fn top_alike(&self, o: &Self) -> bool {
        self.same_top(o) || (self.calm_top() && o.calm_top())
    }

    /// Every node in `keep` has in `self` the colour and black height it has in `o`.
    pub open(crate) spec fn tones_kept(&self, o: &Self, a: u32, b: u32, c: u32) -> bool {
        forall|h: u32|
            (h as int) < self.slots().len() && h != a && h != b && h != c ==> #[trigger] self.same_tone(
                o,
                h,
            )
    }

    /// The red parent is the root: painting it black mends the tree.
    pub(crate) proof fn lemma_mend_root(&self, o: &Self, n: u32, p: u32)
        requires
            o.red_pair(n, p),
            o.nd(p).parent == EMPTY_REF,
            self.repainted(o),
            self.tones_kept(o, p, p, p),
            self.nd(p).color == Color::Black,
            self.bh(p) == o.bh(p) + 1,
        ensures
            self.wf(),
            self.rebalanced(o),
            self.kid_bh(self.root) == o.kid_bh(o.root) + 1,
            self.fault_at_root(o),
    {
        self.lemma_repainted(o);
        assert(o.link_ok(p));
        assert(self.live(self.nil_index) == o.live(o.nil_index));
        assert(o.root == p);
        assert(self.root == p);
        assert forall|h: u32| self.live(h) implies #[trigger] self.bh_ok(h) by {
            assert(o.live(h) == self.live(h));
            assert(o.link_ok(h));
            assert(o.bh_ok(h));
            let l = o.nd(h).left;
            let r = o.nd(h).right;
            if l != EMPTY_REF {
                assert(o.link_ok(l));
                assert(self.same_tone(o, l));
            }
            if r != EMPTY_REF {
                assert(o.link_ok(r));
                assert(self.same_tone(o, r));
            }
            if h != p {
                assert(self.same_tone(o, h));
            } else {
                assert(self.nd(h).left == o.nd(h).left);
            }
        }
        assert forall|h: u32| self.live(h) implies #[trigger] self.red_ok(h) by {
            assert(o.live(h) == self.live(h));
            assert(o.link_ok(h));
            let l = o.nd(h).left;
            let r = o.nd(h).right;
            if l != EMPTY_REF {
                assert(o.link_ok(l));
                assert(self.same_tone(o, l));
            }
            if r != EMPTY_REF {
                assert(o.link_ok(r));
                assert(self.same_tone(o, r));
            }
            if h != p {
                assert(o.red_ok(h));
                assert(self.same_tone(o, h));
            }
        }
    }

    /// The uncle is red: parent and uncle turn black, the grandparent red. Either that
    /// mends the tree, or the grandparent now is a red node under a red parent.
    pub(crate) proof fn lemma_mend_red_uncle(&self, o: &Self, n: u32, p: u32, g: u32, u: u32)
        requires
            o.red_pair(n, p),
            g == o.nd(p).parent,
            g != EMPTY_REF,
            u == (if o.nd(g).left == p {
                o.nd(g).right
            } else {
                o.nd(g).left
            }),
            u != EMPTY_REF,
            o.nd(u).color == Color::Red,
            self.repainted(o),
            self.tones_kept(o, p, g, u),
            self.nd(p).color == Color::Black,
            self.bh(p) == o.bh(p) + 1,
            self.nd(u).color == Color::Black,
            self.bh(u) == o.bh(u) + 1,
            self.nd(g).color == (if o.nd(g).parent == EMPTY_REF {
                Color::Black
            } else {
                Color::Red
            }),
            self.bh(g) == (if o.nd(g).parent == EMPTY_REF {
                o.bh(g) + 1
            } else {
                o.bh(g)
            }),
        ensures
            self.kid_bh(self.root) == o.kid_bh(o.root) + (if o.nd(g).parent == EMPTY_REF {
                1int
            } else {
                0int
            }),
            o.nd(g).parent == EMPTY_REF ==> self.fault_at_root(o),
            o.nd(g).parent != EMPTY_REF && o.nd(o.nd(g).parent).color == Color::Red
                ==> self.same_top(o),
            o.nd(g).parent != EMPTY_REF && o.nd(o.nd(g).parent).color == Color::Black
                ==> !self.fault_at_root(o),
            self.rebalanced(o),
            self.live(g),
            self.count() == o.count(),
            self.hi(g) - self.lo(g) > o.hi(n) - o.lo(n),
            self.nd(g).parent == o.nd(g).parent,
            self.nd(g).parent != EMPTY_REF ==> (self.nd(self.nd(g).parent).color == o.nd(
                o.nd(g).parent,
            ).color) && self.live(self.nd(g).parent),
            if self.nd(g).parent != EMPTY_REF && self.nd(self.nd(g).parent).color == Color::Red {
                self.red_pair(g, self.nd(g).parent)
            } else {
                self.wf()
            },
    {
        self.lemma_repainted(o);
        assert(o.link_ok(n));
        assert(o.link_ok(p));
        assert(o.link_ok(g));
        assert(o.link_ok(u));
        assert(o.bh_ok(p));
        assert(o.bh_ok(g));
        assert(o.bh_ok(u));
        assert(o.red_ok(g));
        assert(o.red_ok(u));
        let gg = o.nd(g).parent;
        assert(self.live(self.nil_index) == o.live(o.nil_index));
        assert(self.live(g) == o.live(g));
        assert(self.live(n) == o.live(n));
        assert(self.place(g).lo == o.place(g).lo);
        assert(self.nd(g).parent == o.nd(g).parent);
        if gg != EMPTY_REF {
            assert(o.link_ok(gg));
            assert(self.same_tone(o, gg));
            assert(self.live(gg) == o.live(gg));
            assert(self.nd(gg).left == o.nd(gg).left);
        }
        assert forall|h: u32| self.live(h) implies #[trigger] self.bh_ok(h) by {
            assert(o.live(h) == self.live(h));
            assert(o.link_ok(h));
            assert(o.bh_ok(h));
            assert(self.nd(h).left == o.nd(h).left);
            let l = o.nd(h).left;
            let r = o.nd(h).right;
            if l != EMPTY_REF {
                assert(o.link_ok(l));
                if l != p && l != g && l != u {
                    assert(self.same_tone(o, l));
                }
            }
            if r != EMPTY_REF {
                assert(o.link_ok(r));
                if r != p && r != g && r != u {
                    assert(self.same_tone(o, r));
                }
            }
            if h != p && h != g && h != u {
                assert(self.same_tone(o, h));
            }
        }
        assert forall|h: u32| self.live(h) && h != gg implies #[trigger] self.red_ok(h) by {
            assert(o.live(h) == self.live(h));
            assert(o.link_ok(h));
            assert(self.nd(h).left == o.nd(h).left);
            let l = o.nd(h).left;
            let r = o.nd(h).right;
            if l != EMPTY_REF {
                assert(o.link_ok(l));
                if l != p && l != g && l != u {
                    assert(self.same_tone(o, l));
                }
            }
            if r != EMPTY_REF {
                assert(o.link_ok(r));
                if r != p && r != g && r != u {
                    assert(self.same_tone(o, r));
                }
            }
            if h != p && h != g && h != u {
                assert(o.red_ok(h));
                assert(self.same_tone(o, h));
            }
        }
        if gg != EMPTY_REF {
            if self.nd(gg).color == Color::Red {
                assert(o.red_ok(gg));
                let other = if o.nd(gg).left == g {
                    o.nd(gg).right
                } else {
                    o.nd(gg).left
                };
                if other != EMPTY_REF {
                    assert(o.link_ok(other));
                    assert(self.same_tone(o, other));
                }
            } else {
                assert(self.red_ok(gg));
            }
        }
        let r = o.root;
        assert(o.link_ok(r));
        assert(self.nd(r).left == o.nd(r).left);
        assert(self.place(r).lo == o.place(r).lo);
        if gg != EMPTY_REF {
            assert(self.same_tone(o, r));
            let a = o.nd(r).left;
            let b = o.nd(r).right;
            if a != EMPTY_REF {
                assert(o.link_ok(a));
                if a != g {
                    assert(self.same_tone(o, a));
                }
            }
            if b != EMPTY_REF {
                assert(o.link_ok(b));
                if b != g {
                    assert(self.same_tone(o, b));
                }
            }
        } else {
            assert(r == g);
        }
    }

    /// The inner case: the red child stands on the far side of its red parent. A
    /// rotation about the parent swaps their roles and leaves the outer case.
    #[verifier::rlimit(80)]
    pub(crate) proof fn lemma_mend_inner(&self, o: &Self, n: u32, p: u32, g: u32, side: bool)
        requires
            o.red_pair(n, p),
            g == o.nd(p).parent,
            g != EMPTY_REF,
            p == o.kid(g, side),
            n == o.kid(p, !side),
            o.dark(o.kid(g, !side)),
            self.linked(),
            self.turned(o, p, side),
        ensures
            self.red_pair(p, n),
            self.rebalanced(o),
            g == self.nd(n).parent,
            n == self.kid(g, side),
            p == self.kid(n, side),
            self.kid(g, !side) == o.kid(g, !side),
            self.dark(self.kid(g, !side)),
            self.nd(g).parent == o.nd(g).parent,
            self.kid_bh(self.root) == o.kid_bh(o.root),
            self.top_alike(o),
    {
        self.lemma_turned_frame(o, p, side);
        self.lemma_turned_rebalanced(o, p, side);
        assert(o.link_ok(n));
        assert(o.link_ok(p));
        assert(o.link_ok(g));
        assert(o.bh_ok(n));
        assert(o.bh_ok(p));
        assert(o.bh_ok(g));
        assert(o.red_ok(n));
        assert(o.red_ok(g));
        let u = o.kid(g, !side);
        let b = o.kid(n, side);
        let c = o.kid(n, !side);
        let s = o.kid(p, side);
        assert(self.live(self.nil_index) == o.live(o.nil_index));
        assert(self.live(n) == o.live(n));
        assert(self.live(p) == o.live(p));
        assert(self.nd(n).color == o.nd(n).color);
        assert(self.nd(p).color == o.nd(p).color);
        assert(self.place(n).bh == o.place(n).bh);
        assert(self.place(p).bh == o.place(p).bh);
        assert(self.place(g).bh == o.place(g).bh);
        assert(self.nd(g).color == o.nd(g).color);
        if u != EMPTY_REF {
            assert(o.link_ok(u));
            assert(self.nd(u).color == o.nd(u).color);
            assert(self.place(u).bh == o.place(u).bh);
        }
        if b != EMPTY_REF {
            assert(o.link_ok(b));
            assert(self.nd(b).color == o.nd(b).color);
            assert(self.place(b).bh == o.place(b).bh);
        }
        if c != EMPTY_REF {
            assert(o.link_ok(c));
            assert(self.nd(c).color == o.nd(c).color);
            assert(self.place(c).bh == o.place(c).bh);
        }
        if s != EMPTY_REF {
            assert(o.link_ok(s));
            assert(self.nd(s).color == o.nd(s).color);
            assert(self.place(s).bh == o.place(s).bh);
        }
        assert(self.bh_ok(p));
        assert(self.bh_ok(n));
        assert(self.bh_ok(g));
        assert(self.red_ok(p));
        assert(self.red_ok(g));
        assert forall|h: u32| self.live(h) implies #[trigger] self.bh_ok(h) by {
            assert(o.live(h) == self.live(h));
            assert(o.bh_ok(h));
        }
        assert forall|h: u32| self.live(h) && h != n implies #[trigger] self.red_ok(h) by {
            assert(o.live(h) == self.live(h));
            if h != p && h != g {
                assert(o.red_ok(h));
            }
        }
        let r = o.root;
        assert(o.link_ok(r));
        assert(self.nd(r).color == o.nd(r).color);
        assert(self.place(r).bh == o.place(r).bh);
        if r != g {
            if b != EMPTY_REF {
                assert(o.link_ok(b));
            }
            assert(self.nd(r) == o.nd(r));
            let x = o.nd(r).left;
            let y = o.nd(r).right;
            if x != EMPTY_REF {
                assert(o.link_ok(x));
                assert(self.nd(x).color == o.nd(x).color);
            }
            if y != EMPTY_REF {
                assert(o.link_ok(y));
                assert(self.nd(y).color == o.nd(y).color);
            }
            assert(self.same_top(o));
        } else {
            assert(self.calm_top());
            assert(o.calm_top());
        }
    }

    /// The outer case: the red child stands on the near side of its red parent. A
    /// rotation about the grandparent lifts the parent, which turns black over a red
    /// grandparent.
    #[verifier::rlimit(80)]
    pub(crate) proof fn lemma_mend_outer(
        &self,
        mid: &Self,
        o: &Self,
        n: u32,
        p: u32,
        g: u32,
        side: bool,
    )
        requires
            o.red_pair(n, p),
            g == o.nd(p).parent,
            g != EMPTY_REF,
            p == o.kid(g, side),
            n == o.kid(p, side),
            o.dark(o.kid(g, !side)),
            mid.linked(),
            mid.turned(o, g, !side),
            self.repainted(mid),
            self.tones_kept(mid, p, g, g),
            self.nd(p).color == Color::Black,
            self.bh(p) == mid.bh(p) + 1,
            self.nd(g).color == Color::Red,
            self.bh(g) == mid.bh(g) - 1,
        ensures
            self.wf(),
            self.rebalanced(o),
            self.kid_bh(self.root) == o.kid_bh(o.root),
            !self.fault_at_root(o),
    {
        assert(o.link_ok(p));
        mid.lemma_turned_frame(o, g, !side);
        mid.lemma_turned_rebalanced(o, g, !side);
        self.lemma_repainted(mid);
        self.lemma_rebalanced_trans(mid, o);
        assert(o.link_ok(n));
        assert(o.link_ok(p));
        assert(o.link_ok(g));
        assert(o.bh_ok(n));
        assert(o.bh_ok(p));
        assert(o.bh_ok(g));
        assert(o.red_ok(n));
        assert(o.red_ok(g));
        let u = o.kid(g, !side);
        let c = o.kid(p, !side);
        let gp = o.nd(g).parent;
        assert(mid.live(mid.nil_index) == o.live(o.nil_index));
        assert(self.live(self.nil_index) == mid.live(mid.nil_index));
        assert(mid.link_ok(n));
        assert(mid.link_ok(p));
        assert(mid.link_ok(g));
        assert(mid.place(n).bh == o.place(n).bh);
        assert(mid.place(p).bh == o.place(p).bh);
        assert(mid.place(g).bh == o.place(g).bh);
        assert(mid.nd(n).color == o.nd(n).color);
        assert(mid.nd(p).color == o.nd(p).color);
        assert(mid.nd(g).color == o.nd(g).color);
        assert(self.nd(p).left == mid.nd(p).left);
        assert(self.nd(g).left == mid.nd(g).left);
        assert(self.same_tone(mid, n));
        if u != EMPTY_REF {
            assert(o.link_ok(u));
            assert(mid.nd(u).color == o.nd(u).color);
            assert(mid.place(u).bh == o.place(u).bh);
            assert(self.same_tone(mid, u));
        }
        if c != EMPTY_REF {
            assert(o.link_ok(c));
            assert(mid.nd(c).color == o.nd(c).color);
            assert(mid.place(c).bh == o.place(c).bh);
            assert(self.same_tone(mid, c));
        }
        assert(self.bh_ok(p));
        assert(self.bh_ok(g));
        assert(self.red_ok(p));
        assert(self.red_ok(g));
        if gp != EMPTY_REF {
            assert(o.link_ok(gp));
            assert(o.bh_ok(gp));
            assert(mid.link_ok(gp));
            assert(mid.place(gp).bh == o.place(gp).bh);
            assert(mid.nd(gp).color == o.nd(gp).color);
            assert(self.same_tone(mid, gp));
            assert(self.nd(gp).left == mid.nd(gp).left);
            let other = if o.nd(gp).left == g {
                o.nd(gp).right
            } else {
                o.nd(gp).left
            };
            if other != EMPTY_REF {
                assert(o.link_ok(other));
                assert(mid.nd(other).color == o.nd(other).color);
                assert(mid.place(other).bh == o.place(other).bh);
                assert(self.same_tone(mid, other));
            }
            assert(self.bh_ok(gp));
            assert(o.red_ok(gp));
            assert(self.red_ok(gp));
        }
        assert forall|h: u32| self.live(h) implies #[trigger] self.bh_ok(h) by {
            assert(mid.live(h) == self.live(h));
            assert(o.live(h) == mid.live(h));
            if h != p && h != g && h != gp {
                assert(o.bh_ok(h));
                assert(mid.bh_ok(h));
                assert(mid.link_ok(h));
                assert(self.same_tone(mid, h));
                let l = mid.nd(h).left;
                let r = mid.nd(h).right;
                if l != EMPTY_REF {
                    assert(self.same_tone(mid, l));
                }
                if r != EMPTY_REF {
                    assert(self.same_tone(mid, r));
                }
            }
        }
        assert forall|h: u32| self.live(h) implies #[trigger] self.red_ok(h) by {
            assert(mid.live(h) == self.live(h));
            assert(o.live(h) == mid.live(h));
            if h != p && h != g && h != gp {
                assert(o.red_ok(h));
                assert(mid.red_ok(h));
                assert(mid.link_ok(h));
                assert(self.same_tone(mid, h));
                let l = mid.nd(h).left;
                let r = mid.nd(h).right;
                if l != EMPTY_REF {
                    assert(self.same_tone(mid, l));
                }
                if r != EMPTY_REF {
                    assert(self.same_tone(mid, r));
                }
            }
        }
        let r = o.root;
        assert(o.link_ok(r));
        assert(mid.nd(r).color == o.nd(r).color);
        assert(mid.place(r).bh == o.place(r).bh);
        if r == g {
            assert(self.root == p);
        } else {
            assert(self.root == r);
            assert(self.same_tone(mid, r));
            if r != gp {
                assert(mid.nd(r) == o.nd(r));
                assert(self.nd(r).left == mid.nd(r).left);
                let x = o.nd(r).left;
                let y = o.nd(r).right;
                if x != EMPTY_REF {
                    assert(o.link_ok(x));
                    assert(mid.nd(x).color == o.nd(x).color);
                    assert(self.same_tone(mid, x));
                }
                if y != EMPTY_REF {
                    assert(o.link_ok(y));
                    assert(mid.nd(y).color == o.nd(y).color);
                    assert(self.same_tone(mid, y));
                }
            }
        }
    }
}

} // verus!
