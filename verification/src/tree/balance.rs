use vstd::prelude::*;
use crate::node::{Color, EMPTY_REF};
use crate::order::lawful;
use crate::tree::Tree;

verus! {

impl<T: Clone + PartialEq + Eq + PartialOrd + Ord> Tree<T> {
    /// The tree is sound, but the sentinel may stand in it as a leaf.
    pub open(crate) spec fn sound_with_nil(&self) -> bool {
        &&& lawful::<T>()
        &&& self.linked()
        &&& self.sorted_but(self.nil_index)
        &&& self.colored()
        &&& self.dark(self.root)
    }

    /// The other child of the parent of `n`.
    pub open(crate) spec fn sib(&self, n: u32) -> u32 {
        let p = self.nd(n).parent;
        if self.nd(p).left == n {
            self.nd(p).right
        } else {
            self.nd(p).left
        }
    }

    /// The tree is sound but for one thing: the paths through `n` hold one black node
    /// less than those through its sibling. `n` itself may be red under a red parent.
    pub open(crate) spec fn short_at(&self, n: u32) -> bool {
        let p = self.nd(n).parent;
        &&& lawful::<T>()
        &&& self.linked()
        &&& self.sorted_but(self.nil_index)
        &&& self.live(n)
        &&& (self.root != n ==> self.dark(self.root))
        &&& forall|h: u32| self.live(h) && h != p ==> #[trigger] self.bh_ok(h)
        &&& forall|h: u32| self.live(h) && h != p ==> #[trigger] self.red_ok(h)
        &&& p != EMPTY_REF ==> {
            let s = self.sib(n);
            &&& self.bh(p) == self.kid_bh(s) + self.black(p)
            &&& self.kid_bh(s) == self.bh(n) + 1
            &&& (self.nd(p).color == Color::Red ==> self.dark(s))
        }
    }

    /// No node under `n`, nor `n` itself, has changed.
    pub open(crate) spec fn untouched(&self, o: &Self, n: u32) -> bool {
        forall|a: u32|
            o.live(a) && o.lo(n) <= o.pos(a) < o.hi(n) ==> #[trigger] self.nd(a) == o.nd(a)
                && self.place(a) == o.place(a)
    }

    /// What is untouched under `m` in two steps, the second of which spares all that is
    /// under `n`, is untouched under `m` in both.
    pub(crate) proof fn lemma_untouched_trans(&self, mid: &Self, o: &Self, m: u32, n: u32)
        requires
            mid.untouched(o, m),
            self.untouched(mid, n),
            mid.rebalanced(o),
            mid.lo(n) <= o.lo(m),
            o.hi(m) <= mid.hi(n),
        ensures
            self.untouched(o, m),
    {
        assert forall|a: u32| o.live(a) && o.lo(m) <= o.pos(a) < o.hi(m) implies #[trigger] self.nd(
            a,
        ) == o.nd(a) && self.place(a) == o.place(a) by {
            assert(mid.nd(a) == o.nd(a));
            assert(mid.live(a) == o.live(a));
            assert(mid.pos(a) == o.pos(a));
        }
    }

    /// Red sibling: it turns black and the parent red, and a rotation about the parent
    /// brings a black sibling beside `n`.
    #[verifier::rlimit(100)]
    pub(crate) proof fn lemma_red_sibling(&self, r1: &Self, o: &Self, n: u32, side: bool)
        requires
            o.short_at(n),
            o.nd(n).parent != EMPTY_REF,
            n == o.kid(o.nd(n).parent, side),
            o.sib(n) == o.kid(o.nd(n).parent, !side),
            o.nd(o.sib(n)).color == Color::Red,
            r1.linked(),
            r1.repainted(o),
            r1.tones_kept(o, o.sib(n), o.nd(n).parent, o.nd(n).parent),
            r1.nd(o.sib(n)).color == Color::Black,
            r1.bh(o.sib(n)) == o.bh(o.sib(n)) + 1,
            r1.nd(o.nd(n).parent).color == Color::Red,
            r1.bh(o.nd(n).parent) == o.bh(o.nd(n).parent) - 1,
            self.linked(),
            self.turned(r1, o.nd(n).parent, side),
        ensures
            self.short_at(n),
            self.rebalanced(o),
            self.untouched(o, n),
            self.nd(n).parent == o.nd(n).parent,
            n == self.kid(o.nd(n).parent, side),
            self.sib(n) == self.kid(o.nd(n).parent, !side),
            self.sib(n) != EMPTY_REF,
            self.live(self.sib(n)),
            self.nd(self.sib(n)).color == Color::Black,
    {
        let p = o.nd(n).parent;
        let s = o.sib(n);
        assert(o.link_ok(n));
        assert(o.link_ok(p));
        assert(o.bh_ok(n));
        assert(o.link_ok(s));
        assert(o.bh_ok(s));
        assert(o.red_ok(s));
        let m = o.kid(s, side);
        let f = o.kid(s, !side);
        let gp = o.nd(p).parent;
        assert(o.link_ok(m));
        assert(o.link_ok(f));
        assert(o.bh_ok(m));
        assert(o.bh_ok(f));
        r1.lemma_repainted(o);
        assert(r1.live(p) == o.live(p));
        self.lemma_turned_frame(r1, p, side);
        self.lemma_turned_rebalanced(r1, p, side);
        self.lemma_rebalanced_trans(r1, o);
        assert(r1.nd(p).left == o.nd(p).left);
        assert(r1.nd(s).left == o.nd(s).left);
        assert(r1.nd(n).left == o.nd(n).left);
        assert(r1.place(n).lo == o.place(n).lo);
        assert(r1.same_tone(o, n));
        assert(r1.same_tone(o, m));
        assert(r1.same_tone(o, f));
        assert(self.place(n) == r1.place(n));
        assert(self.nd(n) == r1.nd(n));
        assert(self.nd(m).color == r1.nd(m).color);
        assert(self.nd(f).color == r1.nd(f).color);
        assert(self.nd(p).color == r1.nd(p).color);
        assert(self.nd(s).color == r1.nd(s).color);
        assert(self.place(m).bh == r1.place(m).bh);
        assert(self.place(f).bh == r1.place(f).bh);
        assert(self.place(p).bh == r1.place(p).bh);
        assert(self.place(s).bh == r1.place(s).bh);
        assert(self.live(n) == r1.live(n));
        assert(self.live(m) == r1.live(m));
        assert(r1.live(m) == o.live(m));
        assert(self.bh_ok(s));
        assert(self.red_ok(s));
        if gp != EMPTY_REF {
            assert(o.link_ok(gp));
            assert(o.bh_ok(gp));
            assert(o.red_ok(gp));
            assert(r1.same_tone(o, gp));
            assert(r1.nd(gp).left == o.nd(gp).left);
            assert(self.nd(gp).color == r1.nd(gp).color);
            assert(self.place(gp).bh == r1.place(gp).bh);
            let other = if o.nd(gp).left == p {
                o.nd(gp).right
            } else {
                o.nd(gp).left
            };
            if other != EMPTY_REF {
                assert(o.link_ok(other));
                assert(r1.same_tone(o, other));
                assert(self.nd(other).color == r1.nd(other).color);
                assert(self.place(other).bh == r1.place(other).bh);
            }
            assert(self.bh_ok(gp));
            assert(self.red_ok(gp));
        }
        assert forall|h: u32| self.live(h) && h != p implies #[trigger] self.bh_ok(h) by {
            assert(self.live(h) == r1.live(h));
            assert(r1.live(h) == o.live(h));
            if h != s && h != gp {
                assert(o.bh_ok(h));
                assert(o.link_ok(h));
                assert(r1.same_tone(o, h));
                let l = o.nd(h).left;
                let r = o.nd(h).right;
                if l != EMPTY_REF {
                    assert(r1.same_tone(o, l));
                }
                if r != EMPTY_REF {
                    assert(r1.same_tone(o, r));
                }
                assert(r1.bh_ok(h));
            }
        }
        assert forall|h: u32| self.live(h) && h != p implies #[trigger] self.red_ok(h) by {
            assert(self.live(h) == r1.live(h));
            assert(r1.live(h) == o.live(h));
            if h != s && h != gp {
                assert(o.red_ok(h));
                assert(o.link_ok(h));
                assert(r1.same_tone(o, h));
                let l = o.nd(h).left;
                let r = o.nd(h).right;
                if l != EMPTY_REF {
                    assert(r1.same_tone(o, l));
                }
                if r != EMPTY_REF {
                    assert(r1.same_tone(o, r));
                }
                assert(r1.red_ok(h));
            }
        }
        assert forall|a: u32| o.live(a) && o.lo(n) <= o.pos(a) < o.hi(n) implies #[trigger] self.nd(
            a,
        ) == o.nd(a) && self.place(a) == o.place(a) by {
            assert(r1.same_tone(o, a));
            assert(r1.nd(a).left == o.nd(a).left);
            assert(r1.nd(a) == o.nd(a));
            assert(r1.place(a).lo == o.place(a).lo);
            assert(r1.place(a) == o.place(a));
            assert(self.nd(a) == r1.nd(a));
            assert(self.place(a) == r1.place(a));
        }
        let r = o.root;
        assert(o.link_ok(r));
        if r != p && r != s {
            assert(r1.same_tone(o, r));
            assert(self.nd(r).color == r1.nd(r).color);
        }
    }

    /// Black sibling with two black children: the sibling turns red. A red parent turns
    /// black and the tree is sound; under a black parent the fault moves up to it.
    #[verifier::rlimit(100)]
    pub(crate) proof fn lemma_dark_nephews(&self, o: &Self, n: u32)
        requires
            o.short_at(n),
            o.nd(n).parent != EMPTY_REF,
            o.nd(o.sib(n)).color == Color::Black,
            o.dark(o.nd(o.sib(n)).left),
            o.dark(o.nd(o.sib(n)).right),
            self.repainted(o),
            self.tones_kept(o, o.sib(n), o.nd(n).parent, o.nd(n).parent),
            self.nd(o.sib(n)).color == Color::Red,
            self.bh(o.sib(n)) == o.bh(o.sib(n)) - 1,
            self.nd(o.nd(n).parent).color == Color::Black,
            self.bh(o.nd(n).parent) == o.bh(n) + 1,
        ensures
            self.rebalanced(o),
            self.untouched(o, n),
            self.nd(n).parent == o.nd(n).parent,
            self.live(o.nd(n).parent),
            self.count() == o.count(),
            self.hi(o.nd(n).parent) - self.lo(o.nd(n).parent) > self.hi(n) - self.lo(n),
            if o.nd(o.nd(n).parent).color == Color::Red {
                self.sound_with_nil()
            } else {
                self.short_at(o.nd(n).parent)
            },
    {
        let p = o.nd(n).parent;
        let s = o.sib(n);
        let pp = o.nd(p).parent;
        assert(o.link_ok(n));
        assert(o.link_ok(p));
        assert(o.bh_ok(n));
        assert(o.link_ok(s));
        assert(o.bh_ok(s));
        self.lemma_repainted(o);
        assert(self.live(p) == o.live(p));
        assert(self.live(n) == o.live(n));
        assert(self.nd(p).left == o.nd(p).left);
        assert(self.nd(s).left == o.nd(s).left);
        assert(self.nd(n).left == o.nd(n).left);
        assert(self.place(n).lo == o.place(n).lo);
        assert(self.place(p).lo == o.place(p).lo);
        assert(self.same_tone(o, n));
        let l = o.nd(s).left;
        let r = o.nd(s).right;
        if l != EMPTY_REF {
            assert(o.link_ok(l));
            assert(self.same_tone(o, l));
        }
        if r != EMPTY_REF {
            assert(o.link_ok(r));
            assert(self.same_tone(o, r));
        }
        assert(self.bh_ok(s));
        assert(self.red_ok(s));
        assert(self.bh_ok(p));
        assert(self.red_ok(p));
        if pp != EMPTY_REF {
            assert(o.link_ok(pp));
            assert(o.bh_ok(pp));
            assert(o.red_ok(pp));
            assert(self.same_tone(o, pp));
            assert(self.nd(pp).left == o.nd(pp).left);
            let other = if o.nd(pp).left == p {
                o.nd(pp).right
            } else {
                o.nd(pp).left
            };
            if other != EMPTY_REF {
                assert(o.link_ok(other));
                assert(self.same_tone(o, other));
            }
        }
        assert forall|h: u32| self.live(h) && h != pp implies #[trigger] self.bh_ok(h) by {
            assert(self.live(h) == o.live(h));
            if h != s && h != p {
                assert(o.bh_ok(h));
                assert(o.link_ok(h));
                assert(self.same_tone(o, h));
                let l = o.nd(h).left;
                let r = o.nd(h).right;
                if l != EMPTY_REF {
                    assert(self.same_tone(o, l));
                }
                if r != EMPTY_REF {
                    assert(self.same_tone(o, r));
                }
            }
        }
        assert forall|h: u32| self.live(h) && h != pp implies #[trigger] self.red_ok(h) by {
            assert(self.live(h) == o.live(h));
            if h != s && h != p {
                assert(o.red_ok(h));
                assert(o.link_ok(h));
                assert(self.same_tone(o, h));
                let l = o.nd(h).left;
                let r = o.nd(h).right;
                if l != EMPTY_REF {
                    assert(self.same_tone(o, l));
                }
                if r != EMPTY_REF {
                    assert(self.same_tone(o, r));
                }
            }
        }
        if o.nd(p).color == Color::Red {
            if pp != EMPTY_REF {
                assert(self.bh_ok(pp));
                assert(self.red_ok(pp));
            }
        }
        assert forall|a: u32| o.live(a) && o.lo(n) <= o.pos(a) < o.hi(n) implies #[trigger] self.nd(
            a,
        ) == o.nd(a) && self.place(a) == o.place(a) by {
            assert(self.same_tone(o, a));
            assert(self.nd(a).left == o.nd(a).left);
            assert(self.nd(a) == o.nd(a));
            assert(self.place(a).lo == o.place(a).lo);
            assert(self.place(a) == o.place(a));
        }
        let r = o.root;
        assert(o.link_ok(r));
        if r != p && r != s {
            assert(self.same_tone(o, r));
        }
    }

    /// Black sibling whose far child is black and whose near child is red: the near
    /// child turns black and the sibling red, and a rotation about the sibling leaves a
    /// black sibling with a red far child.
    #[verifier::rlimit(100)]
    pub(crate) proof fn lemma_near_red(&self, r1: &Self, o: &Self, n: u32, side: bool)
        requires
            o.short_at(n),
            o.nd(n).parent != EMPTY_REF,
            n == o.kid(o.nd(n).parent, side),
            o.sib(n) == o.kid(o.nd(n).parent, !side),
            o.nd(o.sib(n)).color == Color::Black,
            o.dark(o.kid(o.sib(n), !side)),
            !o.dark(o.kid(o.sib(n), side)),
            r1.linked(),
            r1.repainted(o),
            r1.tones_kept(o, o.sib(n), o.kid(o.sib(n), side), o.sib(n)),
            r1.nd(o.sib(n)).color == Color::Red,
            r1.bh(o.sib(n)) == o.bh(o.sib(n)) - 1,
            r1.nd(o.kid(o.sib(n), side)).color == Color::Black,
            r1.bh(o.kid(o.sib(n), side)) == o.bh(o.kid(o.sib(n), side)) + 1,
            self.linked(),
            self.turned(r1, o.sib(n), !side),
        ensures
            self.short_at(n),
            self.rebalanced(o),
            self.untouched(o, n),
            self.nd(n).parent == o.nd(n).parent,
            n == self.kid(o.nd(n).parent, side),
            self.sib(n) == self.kid(o.nd(n).parent, !side),
            self.sib(n) == o.kid(o.sib(n), side),
            self.live(self.sib(n)),
            self.nd(self.sib(n)).color == Color::Black,
            self.kid(self.sib(n), !side) == o.sib(n),
            self.nd(o.sib(n)).color == Color::Red,
            self.nd(o.nd(n).parent).color == o.nd(o.nd(n).parent).color,
            self.bh(o.nd(n).parent) == o.bh(o.nd(n).parent),
    {
        let p = o.nd(n).parent;
        let s = o.sib(n);
        let m = o.kid(s, side);
        let f = o.kid(s, !side);
        assert(o.link_ok(n));
        assert(o.link_ok(p));
        assert(o.bh_ok(n));
        assert(o.link_ok(s));
        assert(o.bh_ok(s));
        assert(o.red_ok(s));
        assert(o.link_ok(m));
        assert(o.bh_ok(m));
        assert(o.red_ok(m));
        let m1 = o.kid(m, side);
        let m2 = o.kid(m, !side);
        r1.lemma_repainted(o);
        assert(r1.live(s) == o.live(s));
        assert(r1.nd(p).left == o.nd(p).left);
        assert(r1.nd(s).left == o.nd(s).left);
        assert(r1.nd(m).left == o.nd(m).left);
        assert(r1.nd(n).left == o.nd(n).left);
        self.lemma_turned_frame(r1, s, !side);
        self.lemma_turned_rebalanced(r1, s, !side);
        self.lemma_rebalanced_trans(r1, o);
        assert(r1.place(n).lo == o.place(n).lo);
        assert(r1.same_tone(o, n));
        assert(r1.same_tone(o, p));
        assert(self.place(n) == r1.place(n));
        assert(self.nd(n) == r1.nd(n));
        assert(self.nd(m).color == r1.nd(m).color);
        assert(self.nd(p).color == r1.nd(p).color);
        assert(self.nd(s).color == r1.nd(s).color);
        assert(self.place(m).bh == r1.place(m).bh);
        assert(self.place(p).bh == r1.place(p).bh);
        assert(self.place(s).bh == r1.place(s).bh);
        assert(self.live(n) == r1.live(n));
        assert(self.live(m) == r1.live(m));
        assert(r1.live(m) == o.live(m));
        if f != EMPTY_REF {
            assert(o.link_ok(f));
            assert(r1.same_tone(o, f));
            assert(self.nd(f).color == r1.nd(f).color);
            assert(self.place(f).bh == r1.place(f).bh);
        }
        if m1 != EMPTY_REF {
            assert(o.link_ok(m1));
            assert(r1.same_tone(o, m1));
            assert(self.nd(m1).color == r1.nd(m1).color);
            assert(self.place(m1).bh == r1.place(m1).bh);
        }
        if m2 != EMPTY_REF {
            assert(o.link_ok(m2));
            assert(r1.same_tone(o, m2));
            assert(self.nd(m2).color == r1.nd(m2).color);
            assert(self.place(m2).bh == r1.place(m2).bh);
        }
        assert(self.bh_ok(s));
        assert(self.red_ok(s));
        assert(self.bh_ok(m));
        assert(self.red_ok(m));
        assert forall|h: u32| self.live(h) && h != p implies #[trigger] self.bh_ok(h) by {
            assert(self.live(h) == r1.live(h));
            assert(r1.live(h) == o.live(h));
            if h != s && h != m {
                assert(o.bh_ok(h));
                assert(o.link_ok(h));
                assert(r1.same_tone(o, h));
                let l = o.nd(h).left;
                let r = o.nd(h).right;
                if l != EMPTY_REF {
                    assert(r1.same_tone(o, l));
                }
                if r != EMPTY_REF {
                    assert(r1.same_tone(o, r));
                }
                assert(r1.bh_ok(h));
            }
        }
        assert forall|h: u32| self.live(h) && h != p implies #[trigger] self.red_ok(h) by {
            assert(self.live(h) == r1.live(h));
            assert(r1.live(h) == o.live(h));
            if h != s && h != m {
                assert(o.red_ok(h));
                assert(o.link_ok(h));
                assert(r1.same_tone(o, h));
                let l = o.nd(h).left;
                let r = o.nd(h).right;
                if l != EMPTY_REF {
                    assert(r1.same_tone(o, l));
                }
                if r != EMPTY_REF {
                    assert(r1.same_tone(o, r));
                }
                assert(r1.red_ok(h));
            }
        }
        assert forall|a: u32| o.live(a) && o.lo(n) <= o.pos(a) < o.hi(n) implies #[trigger] self.nd(
            a,
        ) == o.nd(a) && self.place(a) == o.place(a) by {
            assert(r1.same_tone(o, a));
            assert(r1.nd(a).left == o.nd(a).left);
            assert(r1.nd(a) == o.nd(a));
            assert(r1.place(a).lo == o.place(a).lo);
            assert(r1.place(a) == o.place(a));
            assert(self.nd(a) == r1.nd(a));
            assert(self.place(a) == r1.place(a));
        }
        let r = o.root;
        assert(o.link_ok(r));
        if r != p && r != s {
            assert(r1.same_tone(o, r));
            assert(self.nd(r).color == r1.nd(r).color);
        }
    }

    /// Black sibling with a red far child: the sibling takes the parent's colour, parent
    /// and far child turn black, and a rotation about the parent makes the tree sound.
    #[verifier::rlimit(100)]
    pub(crate) proof fn lemma_far_red(&self, r1: &Self, o: &Self, n: u32, side: bool)
        requires
            o.short_at(n),
            o.nd(n).parent != EMPTY_REF,
            n == o.kid(o.nd(n).parent, side),
            o.sib(n) == o.kid(o.nd(n).parent, !side),
            o.nd(o.sib(n)).color == Color::Black,
            !o.dark(o.kid(o.sib(n), !side)),
            r1.linked(),
            r1.repainted(o),
            r1.tones_kept(o, o.sib(n), o.nd(n).parent, o.kid(o.sib(n), !side)),
            r1.nd(o.sib(n)).color == o.nd(o.nd(n).parent).color,
            r1.bh(o.sib(n)) == o.bh(o.nd(n).parent),
            r1.nd(o.nd(n).parent).color == Color::Black,
            r1.bh(o.nd(n).parent) == o.bh(n) + 1,
            r1.nd(o.kid(o.sib(n), !side)).color == Color::Black,
            r1.bh(o.kid(o.sib(n), !side)) == o.bh(o.kid(o.sib(n), !side)) + 1,
            self.linked(),
            self.turned(r1, o.nd(n).parent, side),
        ensures
            self.sound_with_nil(),
            self.rebalanced(o),
            self.untouched(o, n),
            self.nd(o.nd(n).parent).parent == o.sib(n),
            self.nd(o.sib(n)).color == o.nd(o.nd(n).parent).color,
            self.nd(o.nd(n).parent).color == Color::Black,
            self.bh(o.sib(n)) == o.bh(o.nd(n).parent),
    {
        let p = o.nd(n).parent;
        let s = o.sib(n);
        let m = o.kid(s, side);
        let f = o.kid(s, !side);
        let gp = o.nd(p).parent;
        assert(o.link_ok(n));
        assert(o.link_ok(p));
        assert(o.bh_ok(n));
        assert(o.link_ok(s));
        assert(o.bh_ok(s));
        assert(o.link_ok(f));
        assert(o.bh_ok(f));
        assert(o.red_ok(f));
        r1.lemma_repainted(o);
        assert(r1.live(p) == o.live(p));
        assert(r1.nd(p).left == o.nd(p).left);
        assert(r1.nd(s).left == o.nd(s).left);
        assert(r1.nd(f).left == o.nd(f).left);
        assert(r1.nd(n).left == o.nd(n).left);
        self.lemma_turned_frame(r1, p, side);
        self.lemma_turned_rebalanced(r1, p, side);
        self.lemma_rebalanced_trans(r1, o);
        assert(r1.place(n).lo == o.place(n).lo);
        assert(r1.same_tone(o, n));
        assert(self.place(n) == r1.place(n));
        assert(self.nd(n) == r1.nd(n));
        assert(self.nd(f).color == r1.nd(f).color);
        assert(self.nd(p).color == r1.nd(p).color);
        assert(self.nd(s).color == r1.nd(s).color);
        assert(self.place(f).bh == r1.place(f).bh);
        assert(self.place(p).bh == r1.place(p).bh);
        assert(self.place(s).bh == r1.place(s).bh);
        assert(self.nd(f) == r1.nd(f));
        if m != EMPTY_REF {
            assert(o.link_ok(m));
            assert(r1.same_tone(o, m));
            assert(self.nd(m).color == r1.nd(m).color);
            assert(self.place(m).bh == r1.place(m).bh);
        }
        let f1 = o.nd(f).left;
        let f2 = o.nd(f).right;
        if f1 != EMPTY_REF {
            assert(o.link_ok(f1));
            assert(r1.same_tone(o, f1));
            assert(self.nd(f1).color == r1.nd(f1).color);
            assert(self.place(f1).bh == r1.place(f1).bh);
        }
        if f2 != EMPTY_REF {
            assert(o.link_ok(f2));
            assert(r1.same_tone(o, f2));
            assert(self.nd(f2).color == r1.nd(f2).color);
            assert(self.place(f2).bh == r1.place(f2).bh);
        }
        assert(self.bh_ok(p));
        assert(self.red_ok(p));
        assert(self.bh_ok(s));
        assert(self.red_ok(s));
        assert(self.bh_ok(f));
        assert(self.red_ok(f));
        if gp != EMPTY_REF {
            assert(o.link_ok(gp));
            assert(o.bh_ok(gp));
            assert(o.red_ok(gp));
            assert(r1.same_tone(o, gp));
            assert(r1.nd(gp).left == o.nd(gp).left);
            assert(self.nd(gp).color == r1.nd(gp).color);
            assert(self.place(gp).bh == r1.place(gp).bh);
            let other = if o.nd(gp).left == p {
                o.nd(gp).right
            } else {
                o.nd(gp).left
            };
            if other != EMPTY_REF {
                assert(o.link_ok(other));
                assert(r1.same_tone(o, other));
                assert(self.nd(other).color == r1.nd(other).color);
                assert(self.place(other).bh == r1.place(other).bh);
            }
            assert(self.bh_ok(gp));
            assert(self.red_ok(gp));
        }
        assert forall|h: u32| self.live(h) implies #[trigger] self.bh_ok(h) by {
            assert(self.live(h) == r1.live(h));
            assert(r1.live(h) == o.live(h));
            if h != s && h != p && h != f && h != gp {
                assert(o.bh_ok(h));
                assert(o.link_ok(h));
                assert(r1.same_tone(o, h));
                let l = o.nd(h).left;
                let r = o.nd(h).right;
                if l != EMPTY_REF {
                    assert(r1.same_tone(o, l));
                }
                if r != EMPTY_REF {
                    assert(r1.same_tone(o, r));
                }
                assert(r1.bh_ok(h));
            }
        }
        assert forall|h: u32| self.live(h) implies #[trigger] self.red_ok(h) by {
            assert(self.live(h) == r1.live(h));
            assert(r1.live(h) == o.live(h));
            if h != s && h != p && h != f && h != gp {
                assert(o.red_ok(h));
                assert(o.link_ok(h));
                assert(r1.same_tone(o, h));
                let l = o.nd(h).left;
                let r = o.nd(h).right;
                if l != EMPTY_REF {
                    assert(r1.same_tone(o, l));
                }
                if r != EMPTY_REF {
                    assert(r1.same_tone(o, r));
                }
                assert(r1.red_ok(h));
            }
        }
        assert forall|a: u32| o.live(a) && o.lo(n) <= o.pos(a) < o.hi(n) implies #[trigger] self.nd(
            a,
        ) == o.nd(a) && self.place(a) == o.place(a) by {
            assert(r1.same_tone(o, a));
            assert(r1.nd(a).left == o.nd(a).left);
            assert(r1.nd(a) == o.nd(a));
            assert(r1.place(a).lo == o.place(a).lo);
            assert(r1.place(a) == o.place(a));
            assert(self.nd(a) == r1.nd(a));
            assert(self.place(a) == r1.place(a));
        }
        let r = o.root;
        assert(o.link_ok(r));
        if r != p && r != s {
            assert(r1.same_tone(o, r));
            assert(self.nd(r).color == r1.nd(r).color);
        }
    }

    /// The short node is the root and red: painting it black makes the tree sound.
    pub(crate) proof fn lemma_blacken_root(&self, o: &Self, n: u32)
        requires
            o.short_at(n),
            n == o.root,
            o.nd(n).color == Color::Red,
            self.repainted(o),
            self.tones_kept(o, n, n, n),
            self.nd(n).color == Color::Black,
            self.bh(n) == o.bh(n) + 1,
        ensures
            self.sound_with_nil(),
            self.rebalanced(o),
    {
        self.lemma_repainted(o);
        assert(o.link_ok(n));
        assert forall|h: u32| self.live(h) implies #[trigger] self.bh_ok(h) by {
            assert(o.live(h) == self.live(h));
            assert(o.link_ok(h));
            assert(o.bh_ok(h));
            assert(self.nd(h).left == o.nd(h).left);
            let l = o.nd(h).left;
            let r = o.nd(h).right;
            if l != EMPTY_REF {
                assert(o.link_ok(l));
                assert(self.same_tone(o, l));
            }
            if r != EMPTY_REF {
                assert(o.link_ok(r));
                assert(self.same_tone(o, r));
            }
            if h != n {
                assert(self.same_tone(o, h));
            }
        }
        assert forall|h: u32| self.live(h) implies #[trigger] self.red_ok(h) by {
            assert(o.live(h) == self.live(h));
            assert(o.link_ok(h));
            assert(o.red_ok(h));
            assert(self.nd(h).left == o.nd(h).left);
            let l = o.nd(h).left;
            let r = o.nd(h).right;
            if l != EMPTY_REF {
                assert(o.link_ok(l));
                assert(self.same_tone(o, l));
            }
            if r != EMPTY_REF {
                assert(o.link_ok(r));
                assert(self.same_tone(o, r));
            }
            if h != n {
                assert(self.same_tone(o, h));
            }
        }
    }
}

} // verus!
