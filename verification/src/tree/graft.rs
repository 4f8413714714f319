use vstd::prelude::*;
use crate::node::{Color, Node, EMPTY_REF};
use crate::order::lt;
use crate::tree::{Place, Shape, Tree};

verus! {

/// The place `pl` once a node has come in at rank `k`, as a left child (`left`) or as a
/// right child of the node beside it.
pub open spec fn shift_in(pl: Place, k: int, left: bool) -> Place {
    Place {
        pos: if pl.pos >= k {
            pl.pos + 1
        } else {
            pl.pos
        },
        lo: if (left && pl.lo > k) || (!left && pl.lo >= k) {
            pl.lo + 1
        } else {
            pl.lo
        },
        hi: if (left && pl.hi > k) || (!left && pl.hi >= k) {
            pl.hi + 1
        } else {
            pl.hi
        },
        bh: pl.bh,
    }
}

/// The layout `shape` with the handle `x` added at rank `k` as a leaf of black height `bh`.
pub open spec fn grafted_shape(shape: Shape, x: u32, k: int, left: bool, bh: int) -> Shape {
    Shape {
        order: Seq::new(
            (shape.order.len() + 1) as nat,
            |q: int|
                if q < k {
                    shape.order[q]
                } else if q == k {
                    x
                } else {
                    shape.order[q - 1]
                },
        ),
        places: |h: u32|
            if h == x {
                Place { pos: k, lo: k, hi: k + 1, bh }
            } else {
                shift_in((shape.places)(h), k, left)
            },
    }
}

impl<T: Clone + PartialEq + Eq + PartialOrd + Ord> Tree<T> {
    /// The rank at which a child of `p` on the given side stands.
    pub open(crate) spec fn child_rank(&self, p: u32, left: bool) -> int {
        if left {
            self.pos(p)
        } else {
            self.pos(p) + 1
        }
    }

    /// `value` may stand at rank `k`: it lies between its neighbours there.
    pub open(crate) spec fn fits(&self, value: T, k: int) -> bool {
        &&& 0 <= k <= self.count()
        &&& k > 0 ==> lt(self.val_at(k - 1), value)
        &&& k < self.count() ==> lt(value, self.val_at(k))
    }

    /// What the free stack of `self` is to the tree `o` once the handle `x` has left it.
    pub open(crate) spec fn free_after_take(&self, o: &Self, x: u32) -> bool {
        &&& self.store.wf()
        &&& self.slots().len() >= o.slots().len()
        &&& (x as int) < self.slots().len()
        &&& !o.live(x)
        &&& x != o.nil_index
        &&& forall|j: int|
            0 <= j < self.store.unused@.len() ==> {
                let f = #[trigger] self.store.unused@[j];
                f != x && f != o.nil_index && !o.live(f)
            }
        &&& o.count() + self.store.unused@.len() + 2 == self.slots().len()
    }

    /// `self` is `o` with the red leaf `x` holding `value` hung under `p`.
    pub open(crate) spec fn grafted(&self, o: &Self, x: u32, p: u32, left: bool, value: T) -> bool {
        &&& self.root == o.root
        &&& self.nil_index == o.nil_index
        &&& self.free_after_take(o, x)
        &&& forall|h: u32|
            (h as int) < o.slots().len() && h != x && h != p ==> #[trigger] self.nd(h) == o.nd(h)
        &&& self.nd(p) == (if left {
            Node { left: x, ..o.nd(p) }
        } else {
            Node { right: x, ..o.nd(p) }
        })
        &&& self.nd(x) == (Node {
            parent: p,
            left: EMPTY_REF,
            right: EMPTY_REF,
            color: Color::Red,
            value,
        })
        &&& self.shape@ == grafted_shape(o.shape@, x, o.child_rank(p, left), left, 0)
    }

    pub(crate) proof fn lemma_take(&self, o: &Self, x: u32)
        requires
            o.linked(),
            !o.live(o.nil_index),
            o.store.free().len() > 0 || o.store.slots().len() < u32::MAX,
            self.store.wf(),
            (x as int) < self.store.slots().len(),
            o.store.free().len() > 0 ==> {
                &&& x == o.store.free().last()
                &&& self.store.free() == o.store.free().drop_last()
                &&& self.store.slots() == o.store.slots()
            },
            o.store.free().len() == 0 ==> {
                &&& x == o.store.slots().len()
                &&& self.store.slots().len() > o.store.slots().len()
                &&& self.store.slots().subrange(0, o.store.slots().len() as int)
                    == o.store.slots()
                &&& self.store.free().len() == self.store.slots().len() - o.store.slots().len()
                    - 1
                &&& self.store.packed()
            },
        ensures
            self.free_after_take(o, x),
            forall|h: u32| (h as int) < o.slots().len() ==> #[trigger] self.nd(h) == o.nd(h),
    {
        assert forall|h: u32| (h as int) < o.slots().len() implies #[trigger] self.nd(h) == o.nd(
            h,
        ) by {
            if o.store.free().len() == 0 {
                assert(self.store.slots().subrange(0, o.store.slots().len() as int)[h as int]
                    == self.store.slots()[h as int]);
            }
        }
        if o.store.free().len() > 0 {
            let last = o.store.free().len() - 1;
            assert(o.store.unused@[last] == x);
            assert forall|j: int| 0 <= j < self.store.unused@.len() implies {
                let f = #[trigger] self.store.unused@[j];
                f != x && f != o.nil_index && !o.live(f)
            } by {
                assert(self.store.unused@[j] == o.store.unused@[j]);
            }
        } else {
            assert forall|j: int| 0 <= j < self.store.unused@.len() implies {
                let f = #[trigger] self.store.unused@[j];
                f != x && f != o.nil_index && !o.live(f)
            } by {
                assert(self.store.free()[j] == self.store.slots().len() - 1 - j);
            }
        }
    }

    #[verifier::rlimit(100)]
    pub(crate) proof fn lemma_grafted_links(&self, o: &Self, x: u32, p: u32, left: bool, value: T)
        requires
            o.linked(),
            !o.live(o.nil_index),
            o.live(p),
            left ==> o.nd(p).left == EMPTY_REF,
            !left ==> o.nd(p).right == EMPTY_REF,
            self.grafted(o, x, p, left, value),
        ensures
            self.linked(),
            !self.live(self.nil_index),
            self.live(x),
            forall|h: u32| #[trigger] self.live(h) == (h == x || o.live(h)),
            self.count() == o.count() + 1,
    {
        let k = o.child_rank(p, left);
        assert(o.link_ok(p));
        assert(k == self.pos(x));
        assert(self.order()[k] == x);
        assert forall|h: u32| #[trigger] self.live(h) == (h == x || o.live(h)) by {
            if h != x {
                let q = o.pos(h);
                if o.live(h) {
                    assert(self.order()[self.pos(h)] == h);
                }
                if self.live(h) {
                    let q2 = self.pos(h);
                    if q2 == k {
                    } else if q2 < k {
                        assert(self.order()[q2] == o.order()[q2]);
                    } else {
                        assert(self.order()[q2] == o.order()[q2 - 1]);
                        assert(o.pos(o.order()[q2 - 1]) == q2 - 1);
                    }
                    assert(o.live(h));
                }
            }
        }
        assert(self.arena_ok()) by {
            assert forall|q: int| 0 <= q < self.count() implies (#[trigger] self.order()[q] as int)
                < self.store.buffer@.len() && self.pos(self.order()[q]) == q by {
                if q < k {
                    assert(self.order()[q] == o.order()[q]);
                    assert(o.pos(o.order()[q]) == q);
                } else if q > k {
                    assert(self.order()[q] == o.order()[q - 1]);
                    assert(o.pos(o.order()[q - 1]) == q - 1);
                }
            }
            assert forall|j: int| 0 <= j < self.store.unused@.len() implies !self.live(
                #[trigger] self.store.unused@[j],
            ) && self.store.unused@[j] != self.nil_index by {
                let f = self.store.unused@[j];
                assert(self.live(f) == (f == x || o.live(f)));
            }
            assert(self.live(self.nil_index) == (self.nil_index == x || o.live(o.nil_index)));
        }
        assert(self.root_ok()) by {
            assert(o.count() > 0);
            assert(o.link_ok(o.root));
            assert(self.live(o.root) == (o.root == x || o.live(o.root)));
            if o.root != p {
                assert(self.nd(o.root) == o.nd(o.root));
            }
        }
        assert forall|h: u32| self.live(h) implies #[trigger] self.link_ok(h) by {
            assert(self.live(h) == (h == x || o.live(h)));
            assert(self.live(p) == (p == x || o.live(p)));
            if h == x {
            } else {
                assert(o.link_ok(h));
                if h != p {
                    assert(self.nd(h) == o.nd(h));
                }
                let l = o.nd(h).left;
                let r = o.nd(h).right;
                let u = o.nd(h).parent;
                if l != EMPTY_REF {
                    assert(o.link_ok(l));
                    assert(self.live(l) == (l == x || o.live(l)));
                    if l != p {
                        assert(self.nd(l) == o.nd(l));
                    }
                }
                if r != EMPTY_REF {
                    assert(o.link_ok(r));
                    assert(self.live(r) == (r == x || o.live(r)));
                    if r != p {
                        assert(self.nd(r) == o.nd(r));
                    }
                }
                if u != EMPTY_REF {
                    assert(o.link_ok(u));
                    assert(self.live(u) == (u == x || o.live(u)));
                    if u != p {
                        assert(self.nd(u) == o.nd(u));
                    }
                }
            }
        }
    }

    pub(crate) proof fn lemma_grafted_values(&self, o: &Self, x: u32, p: u32, left: bool, value: T)
        requires
            o.wf(),
            o.live(p),
            left ==> o.nd(p).left == EMPTY_REF,
            !left ==> o.nd(p).right == EMPTY_REF,
            o.fits(value, o.child_rank(p, left)),
            self.grafted(o, x, p, left, value),
        ensures
            self.sorted_but(self.nil_index),
            self@ == o@.insert(o.child_rank(p, left), value),
            forall|h: u32| o.live(h) ==> (#[trigger] self.nd(h)).value == o.nd(h).value,
            forall|h: u32| o.live(h) ==> #[trigger] self.pos(h) == (if o.pos(h) >= o.child_rank(
                p,
                left,
            ) {
                o.pos(h) + 1
            } else {
                o.pos(h)
            }),
    {
        let k = o.child_rank(p, left);
        assert(o.link_ok(p));
        o.lemma_fenced(value, k, k);
        assert forall|h: u32| o.live(h) implies (#[trigger] self.nd(h)).value == o.nd(h).value by {
            if h != p {
                assert(self.nd(h) == o.nd(h));
            }
        }
        assert forall|q: int| 0 <= q < self.count() implies #[trigger] self.val_at(q) == (if q
            < k {
            o.val_at(q)
        } else if q == k {
            value
        } else {
            o.val_at(q - 1)
        }) by {
            if q < k {
                assert(o.live(o.order()[q]));
                assert(self.order()[q] == o.order()[q]);
            } else if q > k {
                assert(o.live(o.order()[q - 1]));
                assert(self.order()[q] == o.order()[q - 1]);
            }
        }
        assert forall|a: int, b: int|
            0 <= a < b < self.count() && self.order()[a] != self.nil_index && self.order()[b]
                != self.nil_index implies lt(
            #[trigger] self.val_at(a),
            #[trigger] self.val_at(b),
        ) by {
            if b < k {
                assert(lt(o.val_at(a), o.val_at(b)));
            } else if b == k {
                assert(lt(o.val_at(a), value));
            } else if a < k {
                assert(lt(o.val_at(a), o.val_at(b - 1))) by {
                    if a == b - 1 {
                    } else {
                    }
                }
            } else if a == k {
                assert(lt(value, o.val_at(b - 1)));
            } else {
                assert(lt(o.val_at(a - 1), o.val_at(b - 1)));
            }
        }
        assert(self@ =~= o@.insert(k, value));
    }

    pub(crate) proof fn lemma_grafted_tones(&self, o: &Self, x: u32, p: u32, left: bool, value: T)
        requires
            o.linked(),
            !o.live(o.nil_index),
            o.colored(),
            o.live(p),
            left ==> o.nd(p).left == EMPTY_REF,
            !left ==> o.nd(p).right == EMPTY_REF,
            self.grafted(o, x, p, left, value),
            forall|h: u32| #[trigger] self.live(h) == (h == x || o.live(h)),
        ensures
            forall|h: u32| self.live(h) ==> #[trigger] self.bh_ok(h),
            forall|h: u32| self.live(h) && h != p ==> #[trigger] self.red_ok(h),
            self.nd(p).color == Color::Black ==> self.red_ok(p),
            self.nd(p).color == Color::Red ==> self.dark(
                if left {
                    self.nd(p).right
                } else {
                    self.nd(p).left
                },
            ),
    {
        assert(o.link_ok(p));
        assert(o.bh_ok(p));
        assert(o.red_ok(p));
        assert forall|h: u32| self.live(h) implies #[trigger] self.bh_ok(h) by {
            assert(self.live(h) == (h == x || o.live(h)));
            if h != x {
                assert(o.bh_ok(h));
                assert(o.link_ok(h));
                if h != p {
                    assert(self.nd(h) == o.nd(h));
                }
                let l = o.nd(h).left;
                let r = o.nd(h).right;
                if l != EMPTY_REF && l != p {
                    assert(self.nd(l) == o.nd(l));
                }
                if r != EMPTY_REF && r != p {
                    assert(self.nd(r) == o.nd(r));
                }
            }
        }
        assert forall|h: u32| self.live(h) && h != p implies #[trigger] self.red_ok(h) by {
            assert(self.live(h) == (h == x || o.live(h)));
            if h != x {
                assert(o.red_ok(h));
                assert(o.link_ok(h));
                assert(self.nd(h) == o.nd(h));
                let l = o.nd(h).left;
                let r = o.nd(h).right;
                if l != EMPTY_REF && l != p {
                    assert(self.nd(l) == o.nd(l));
                }
                if r != EMPTY_REF && r != p {
                    assert(self.nd(r) == o.nd(r));
                }
            }
        }
        let other = if left {
            o.nd(p).right
        } else {
            o.nd(p).left
        };
        if other != EMPTY_REF {
            assert(self.nd(other) == o.nd(other));
        }
    }
}

} // verus!
