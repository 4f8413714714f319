use vstd::prelude::*;
use crate::node::{Color, Node, EMPTY_REF};
use crate::order::lt;
use crate::tree::{put, Place, Shape, Tree};

verus! {

/// The place `pl` once the node of rank `k` has gone.
pub open spec fn shift_out(pl: Place, k: int) -> Place {
    Place {
        pos: if pl.pos > k {
            pl.pos - 1
        } else {
            pl.pos
        },
        lo: if pl.lo > k {
            pl.lo - 1
        } else {
            pl.lo
        },
        hi: if pl.hi > k {
            pl.hi - 1
        } else {
            pl.hi
        },
        bh: pl.bh,
    }
}

/// The layout `shape` without the node of rank `k`.
pub open spec fn pruned_shape(shape: Shape, k: int) -> Shape {
    Shape {
        order: Seq::new(
            (shape.order.len() - 1) as nat,
            |q: int|
                if q < k {
                    shape.order[q]
                } else {
                    shape.order[q + 1]
                },
        ),
        places: |h: u32| shift_out((shape.places)(h), k),
    }
}

/// The layout `shape` with the handle `nil` in the place of the node of rank `k`, as a
/// leaf of black height 0.
pub open spec fn stood_in_shape(shape: Shape, k: int, nil: u32) -> Shape {
    Shape {
        order: shape.order.update(k, nil),
        places: put(shape.places, nil, Place { bh: 0, ..(shape.places)(shape.order[k]) }),
    }
}

impl<T: Clone + PartialEq + Eq + PartialOrd + Ord> Tree<T> {
    /// `self` is `o` with the node `n` cut out and its only child `c`, if any, in its
    /// place. The handle `n` has gone to the free stack, unless it is the sentinel.
    pub open(crate) spec fn spliced(&self, o: &Self, n: u32, c: u32) -> bool {
        let p = o.nd(n).parent;
        &&& self.nil_index == o.nil_index
        &&& self.root == (if p == EMPTY_REF {
            c
        } else {
            o.root
        })
        &&& self.slots() == Self::with_child(Self::with_parent(o.slots(), c, p), p, n, c)
        &&& self.store.unused@ == (if n == o.nil_index {
            o.store.unused@
        } else {
            o.store.unused@.push(n)
        })
        &&& self.shape@ == pruned_shape(o.shape@, o.pos(n))
    }

    /// What cutting `n` out of `o` comes to, node by node.
    pub open(crate) spec fn cut_out(&self, o: &Self, n: u32, c: u32) -> bool {
        let p = o.nd(n).parent;
        let k = o.pos(n);
        &&& self.nil_index == o.nil_index
        &&& self.slots().len() == o.slots().len()
        &&& self.root == (if p == EMPTY_REF {
            c
        } else {
            o.root
        })
        &&& self.count() == o.count() - 1
        &&& forall|h: u32| #[trigger] self.live(h) == (h != n && o.live(h))
        &&& forall|h: u32|
            (h as int) < self.slots().len() ==> (#[trigger] self.nd(h)).color == o.nd(h).color
                && self.nd(h).value == o.nd(h).value
        &&& forall|h: u32| #[trigger] self.bh(h) == o.bh(h)
        &&& forall|h: u32|
            #[trigger] self.pos(h) == (if o.pos(h) > k {
                o.pos(h) - 1
            } else {
                o.pos(h)
            })
        &&& forall|q: int|
            0 <= q < self.count() ==> #[trigger] self.order()[q] == o.order()[if q < k {
                q
            } else {
                q + 1
            }]
        &&& p != EMPTY_REF ==> {
            &&& p != c
            &&& p != n
            &&& (o.nd(p).left == n || o.nd(p).right == n)
            &&& self.nd(p).parent == o.nd(p).parent
            &&& self.nd(p).left == (if o.nd(p).left == n {
                c
            } else {
                o.nd(p).left
            })
            &&& self.nd(p).right == (if o.nd(p).right == n {
                c
            } else {
                o.nd(p).right
            })
        }
        &&& c != EMPTY_REF ==> {
            &&& c != n
            &&& self.nd(c).parent == p
            &&& self.nd(c).left == o.nd(c).left
            &&& self.nd(c).right == o.nd(c).right
        }
        &&& forall|h: u32|
            (h as int) < self.slots().len() && h != p && h != c ==> #[trigger] self.nd(h) == o.nd(
                h,
            )
    }

    #[verifier::rlimit(100)]
    pub(crate) proof fn lemma_spliced_links(&self, o: &Self, n: u32, c: u32)
        requires
            o.linked(),
            o.live(n),
            (c == o.nd(n).left && o.nd(n).right == EMPTY_REF) || (c == o.nd(n).right && o.nd(
                n,
            ).left == EMPTY_REF),
            o.live(o.nil_index) ==> n == o.nil_index,
            self.spliced(o, n, c),
        ensures
            self.linked(),
            !self.live(self.nil_index),
            self.cut_out(o, n, c),
    {
        let p = o.nd(n).parent;
        let k = o.pos(n);
        assert(o.link_ok(n));
        if p != EMPTY_REF {
            assert(o.link_ok(p));
        }
        if c != EMPTY_REF {
            assert(o.link_ok(c));
        }
        assert(self.slots().len() == o.slots().len());
        assert forall|q: int| 0 <= q < self.count() implies #[trigger] self.order()[q]
            == o.order()[if q < k {
            q
        } else {
            q + 1
        }] by {}
        assert forall|h: u32| #[trigger] self.live(h) == (h != n && o.live(h)) by {
            if o.live(h) && h != n {
                let q = o.pos(h);
                if q > k {
                    assert(self.order()[q - 1] == o.order()[q]);
                } else {
                    assert(self.order()[q] == o.order()[q]);
                }
            }
            if self.live(h) {
                let q2 = self.pos(h);
                if q2 < k {
                    assert(self.order()[q2] == o.order()[q2]);
                    assert(o.pos(o.order()[q2]) == q2);
                } else {
                    assert(self.order()[q2] == o.order()[q2 + 1]);
                    assert(o.pos(o.order()[q2 + 1]) == q2 + 1);
                }
            }
        }
        assert(self.store.wf()) by {
            assert(o.store.wf());
            assert(self.store.slots().len() == o.store.slots().len());
            assert forall|j: int| 0 <= j < self.store.free().len() implies (
            #[trigger] self.store.free()[j]) < self.store.slots().len() by {
                if j < o.store.free().len() {
                    assert(self.store.free()[j] == o.store.free()[j]);
                }
            }
            assert forall|i: int, j: int|
                0 <= i < j < self.store.free().len() implies self.store.free()[i]
                != self.store.free()[j] by {
                assert(self.store.free()[i] == o.store.free()[i]);
                if j < o.store.free().len() {
                    assert(self.store.free()[j] == o.store.free()[j]);
                } else {
                    assert(!o.live(o.store.unused@[i]));
                }
            }
        }
        assert(self.arena_ok()) by {
            assert forall|q: int| 0 <= q < self.count() implies (#[trigger] self.order()[q] as int)
                < self.store.buffer@.len() && self.pos(self.order()[q]) == q by {
                if q < k {
                    assert(o.pos(o.order()[q]) == q);
                } else {
                    assert(o.pos(o.order()[q + 1]) == q + 1);
                }
            }
            assert forall|j: int| 0 <= j < self.store.unused@.len() implies !self.live(
                #[trigger] self.store.unused@[j],
            ) && self.store.unused@[j] != self.nil_index by {
                let f = self.store.unused@[j];
                assert(self.live(f) == (f != n && o.live(f)));
                if j < o.store.unused@.len() {
                    assert(f == o.store.unused@[j]);
                }
            }
            assert(self.live(self.nil_index) == (self.nil_index != n && o.live(o.nil_index)));
        }
        assert(self.root_ok()) by {
            assert(o.link_ok(o.root));
            assert(self.live(o.root) == (o.root != n && o.live(o.root)));
            if c != EMPTY_REF {
                assert(self.live(c) == (c != n && o.live(c)));
            }
        }
        assert forall|h: u32| self.live(h) implies #[trigger] self.link_ok(h) by {
            assert(self.live(h) == (h != n && o.live(h)));
            assert(o.link_ok(h));
            let l = o.nd(h).left;
            let r = o.nd(h).right;
            let u = o.nd(h).parent;
            if l != EMPTY_REF {
                assert(o.link_ok(l));
                assert(self.live(l) == (l != n && o.live(l)));
            }
            if r != EMPTY_REF {
                assert(o.link_ok(r));
                assert(self.live(r) == (r != n && o.live(r)));
            }
            if u != EMPTY_REF {
                assert(o.link_ok(u));
                assert(self.live(u) == (u != n && o.live(u)));
            }
            if c != EMPTY_REF {
                assert(self.live(c) == (c != n && o.live(c)));
            }
            if p != EMPTY_REF {
                assert(self.live(p) == (p != n && o.live(p)));
            }
        }
        assert(self.cut_out(o, n, c));
    }

    /// Cutting a node out keeps the other values in order, and keeps the black height
    /// and the red rule of every node but the parent of the one that went.
    pub(crate) proof fn lemma_cut_out_frame(&self, o: &Self, n: u32, c: u32)
        requires
            o.linked(),
            o.live(n),
            self.cut_out(o, n, c),
        ensures
            forall|q: int|
                0 <= q < self.count() ==> #[trigger] self.val_at(q) == o.val_at(
                    if q < o.pos(n) {
                        q
                    } else {
                        q + 1
                    },
                ),
            o.sorted_but(n) ==> forall|z: u32| #[trigger] self.sorted_but(z),
            forall|h: u32|
                o.live(h) && h != n && h != o.nd(n).parent && o.bh_ok(h) ==> #[trigger] self.bh_ok(
                    h,
                ),
            forall|h: u32|
                o.live(h) && h != n && h != o.nd(n).parent && o.red_ok(h)
                    ==> #[trigger] self.red_ok(h),
    {
        let k = o.pos(n);
        let p = o.nd(n).parent;
        assert forall|q: int| 0 <= q < self.count() implies #[trigger] self.val_at(q) == o.val_at(
            if q < k {
                q
            } else {
                q + 1
            },
        ) by {
            let h = self.order()[q];
            assert(h == o.order()[if q < k {
                q
            } else {
                q + 1
            }]);
            assert(self.nd(h).value == o.nd(h).value);
        }
        if o.sorted_but(n) {
            assert forall|z: u32| #[trigger] self.sorted_but(z) by {
                assert forall|a: int, b: int|
                    0 <= a < b < self.count() && self.order()[a] != z && self.order()[b]
                        != z implies lt(#[trigger] self.val_at(a), #[trigger] self.val_at(b)) by {
                    let a2 = if a < k {
                        a
                    } else {
                        a + 1
                    };
                    let b2 = if b < k {
                        b
                    } else {
                        b + 1
                    };
                    assert(self.order()[a] == o.order()[a2]);
                    assert(self.order()[b] == o.order()[b2]);
                    assert(o.pos(o.order()[a2]) == a2);
                    assert(o.pos(o.order()[b2]) == b2);
                    assert(lt(o.val_at(a2), o.val_at(b2)));
                }
            }
        }
        assert forall|h: u32|
            o.live(h) && h != n && h != p && o.bh_ok(h) implies #[trigger] self.bh_ok(h) by {
            assert(o.link_ok(h));
            assert(self.bh(h) == o.bh(h));
            assert(self.bh(o.nd(h).left) == o.bh(o.nd(h).left));
            assert(self.bh(o.nd(h).right) == o.bh(o.nd(h).right));
            if h != c {
                assert(self.nd(h) == o.nd(h));
            }
        }
        assert forall|h: u32|
            o.live(h) && h != n && h != p && o.red_ok(h) implies #[trigger] self.red_ok(h) by {
            assert(o.link_ok(h));
            if h != c {
                assert(self.nd(h) == o.nd(h));
            }
        }
    }

    /// `self` is `o` with the sentinel standing in for the leaf `n`, as a red leaf.
    pub open(crate) spec fn stood_in(&self, o: &Self, n: u32) -> bool {
        let p = o.nd(n).parent;
        let nil = o.nil_index;
        &&& self.nil_index == o.nil_index
        &&& self.root == o.root
        &&& self.slots() == Self::with_child(
            o.slots().update(
                nil as int,
                Node {
                    parent: p,
                    left: EMPTY_REF,
                    right: EMPTY_REF,
                    color: Color::Red,
                    value: o.nd(nil).value,
                },
            ),
            p,
            n,
            nil,
        )
        &&& self.store.unused@ == o.store.unused@.push(n)
        &&& self.shape@ == stood_in_shape(o.shape@, o.pos(n), nil)
    }

    #[verifier::rlimit(100)]
    pub(crate) proof fn lemma_stood_in(&self, o: &Self, n: u32)
        requires
            o.linked(),
            !o.live(o.nil_index),
            o.live(n),
            o.nd(n).left == EMPTY_REF,
            o.nd(n).right == EMPTY_REF,
            o.nd(n).parent != EMPTY_REF,
            self.stood_in(o, n),
        ensures
            self.linked(),
            self.live(self.nil_index),
            self.count() == o.count(),
            self.order() == o.order().update(o.pos(n), o.nil_index),
            forall|h: u32| #[trigger] self.live(h) == (h == o.nil_index || (h != n && o.live(h))),
            forall|h: u32| h != o.nil_index ==> #[trigger] self.place(h) == o.place(h),
            self.place(o.nil_index) == (Place { bh: 0, ..o.place(n) }),
            forall|h: u32|
                (h as int) < self.slots().len() && h != o.nil_index && h != o.nd(n).parent
                    ==> #[trigger] self.nd(h) == o.nd(h),
            self.nd(o.nil_index).color == Color::Red,
            self.nd(o.nil_index).left == EMPTY_REF,
            self.nd(o.nil_index).right == EMPTY_REF,
            self.nd(o.nil_index).parent == o.nd(n).parent,
            self.nd(o.nil_index).value == o.nd(o.nil_index).value,
            ({
                let p = o.nd(n).parent;
                &&& p != o.nil_index
                &&& p != n
                &&& (o.nd(p).left == n || o.nd(p).right == n)
                &&& self.nd(p).parent == o.nd(p).parent
                &&& self.nd(p).color == o.nd(p).color
                &&& self.nd(p).value == o.nd(p).value
                &&& self.nd(p).left == (if o.nd(p).left == n {
                    o.nil_index
                } else {
                    o.nd(p).left
                })
                &&& self.nd(p).right == (if o.nd(p).right == n {
                    o.nil_index
                } else {
                    o.nd(p).right
                })
            }),
            o.sorted_but(n) ==> self.sorted_but(self.nil_index),
            forall|h: u32|
                o.live(h) && h != n && h != o.nd(n).parent && o.bh_ok(h) ==> #[trigger] self.bh_ok(
                    h,
                ),
            forall|h: u32|
                o.live(h) && h != n && h != o.nd(n).parent && o.red_ok(h)
                    ==> #[trigger] self.red_ok(h),
            self.bh_ok(self.nil_index),
            self.red_ok(self.nil_index),
    {
        let p = o.nd(n).parent;
        let k = o.pos(n);
        let nil = o.nil_index;
        assert(o.link_ok(n));
        assert(o.link_ok(p));
        assert(self.slots().len() == o.slots().len());
        assert forall|h: u32| #[trigger] self.live(h) == (h == nil || (h != n && o.live(h))) by {
            if o.live(h) && h != n {
                assert(self.order()[o.pos(h)] == o.order()[o.pos(h)]);
            }
        }
        assert(self.store.wf()) by {
            assert(o.store.wf());
            assert(self.store.slots().len() == o.store.slots().len());
            assert forall|j: int| 0 <= j < self.store.free().len() implies (
            #[trigger] self.store.free()[j]) < self.store.slots().len() by {
                if j < o.store.free().len() {
                    assert(self.store.free()[j] == o.store.free()[j]);
                }
            }
            assert forall|i: int, j: int|
                0 <= i < j < self.store.free().len() implies self.store.free()[i]
                != self.store.free()[j] by {
                assert(self.store.free()[i] == o.store.free()[i]);
                if j < o.store.free().len() {
                    assert(self.store.free()[j] == o.store.free()[j]);
                } else {
                    assert(!o.live(o.store.unused@[i]));
                }
            }
        }
        assert(self.arena_ok()) by {
            assert forall|q: int| 0 <= q < self.count() implies (#[trigger] self.order()[q] as int)
                < self.store.buffer@.len() && self.pos(self.order()[q]) == q by {
                if q != k {
                    assert(o.pos(o.order()[q]) == q);
                }
            }
            assert forall|j: int| 0 <= j < self.store.unused@.len() implies !self.live(
                #[trigger] self.store.unused@[j],
            ) && self.store.unused@[j] != self.nil_index by {
                let f = self.store.unused@[j];
                assert(self.live(f) == (f == nil || (f != n && o.live(f))));
                if j < o.store.unused@.len() {
                    assert(f == o.store.unused@[j]);
                }
            }
        }
        assert(self.root_ok()) by {
            assert(o.link_ok(o.root));
            assert(self.live(o.root) == (o.root == nil || (o.root != n && o.live(o.root))));
        }
        assert forall|h: u32| self.live(h) implies #[trigger] self.link_ok(h) by {
            assert(self.live(h) == (h == nil || (h != n && o.live(h))));
            assert(self.live(p) == (p == nil || (p != n && o.live(p))));
            assert(self.live(nil));
            if h != nil {
                assert(o.link_ok(h));
                let l = o.nd(h).left;
                let r = o.nd(h).right;
                let u = o.nd(h).parent;
                if l != EMPTY_REF {
                    assert(o.link_ok(l));
                    assert(self.live(l) == (l == nil || (l != n && o.live(l))));
                }
                if r != EMPTY_REF {
                    assert(o.link_ok(r));
                    assert(self.live(r) == (r == nil || (r != n && o.live(r))));
                }
                if u != EMPTY_REF {
                    assert(o.link_ok(u));
                    assert(self.live(u) == (u == nil || (u != n && o.live(u))));
                }
            }
        }
        if o.sorted_but(n) {
            assert forall|a: int, b: int|
                0 <= a < b < self.count() && self.order()[a] != self.nil_index && self.order()[b]
                    != self.nil_index implies lt(
                #[trigger] self.val_at(a),
                #[trigger] self.val_at(b),
            ) by {
                assert(o.live(o.order()[a]));
                assert(o.live(o.order()[b]));
                assert(o.pos(o.order()[a]) == a);
                assert(o.pos(o.order()[b]) == b);
                assert(lt(o.val_at(a), o.val_at(b)));
            }
        }
        assert forall|h: u32|
            o.live(h) && h != n && h != p && o.bh_ok(h) implies #[trigger] self.bh_ok(h) by {
            assert(o.link_ok(h));
            assert(self.nd(h) == o.nd(h));
            assert(self.place(h) == o.place(h));
            assert(self.place(o.nd(h).left) == o.place(o.nd(h).left));
            assert(self.place(o.nd(h).right) == o.place(o.nd(h).right));
        }
        assert forall|h: u32|
            o.live(h) && h != n && h != p && o.red_ok(h) implies #[trigger] self.red_ok(h) by {
            assert(o.link_ok(h));
            assert(self.nd(h) == o.nd(h));
            let l = o.nd(h).left;
            let r = o.nd(h).right;
            if l != EMPTY_REF {
                assert(o.link_ok(l));
                if l != p {
                    assert(self.nd(l) == o.nd(l));
                }
            }
            if r != EMPTY_REF {
                assert(o.link_ok(r));
                if r != p {
                    assert(self.nd(r) == o.nd(r));
                }
            }
        }
    }
}

} // verus!
