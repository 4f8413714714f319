use vstd::prelude::*;
use crate::node::EMPTY_REF;
use crate::tree::{Place, Shape, Tree};

verus! {

impl<T: Clone + PartialEq + Eq + PartialOrd + Ord> Tree<T> {
    /// The number of nodes under `h`, `h` counted.
    pub open(crate) spec fn size(&self, h: u32) -> int {
        self.hi(h) - self.lo(h)
    }

    /// The number of nodes under the handles `list[i..j]`, taken together.
    pub open(crate) spec fn span_sum(&self, list: Seq<u32>, i: int, j: int) -> int
        decreases j - i,
    {
        if i >= j {
            0
        } else {
            self.size(list[j - 1]) + self.span_sum(list, i, j - 1)
        }
    }

    pub(crate) proof fn lemma_span_sum_same(&self, a: Seq<u32>, b: Seq<u32>, i: int, j: int)
        requires
            0 <= i,
            j <= a.len(),
            j <= b.len(),
            forall|t: int| i <= t < j ==> a[t] == b[t],
        ensures
            self.span_sum(a, i, j) == self.span_sum(b, i, j),
        decreases j - i,
    {
        if i < j {
            self.lemma_span_sum_same(a, b, i, j - 1);
        }
    }

    pub(crate) proof fn lemma_span_sum_front(&self, list: Seq<u32>, i: int, j: int)
        requires
            0 <= i < j <= list.len(),
        ensures
            self.span_sum(list, i, j) == self.size(list[i]) + self.span_sum(list, i + 1, j),
        decreases j - i,
    {
        if i + 1 < j {
            self.lemma_span_sum_front(list, i, j - 1);
        } else {
            assert(self.span_sum(list, i, i) == 0);
            assert(self.span_sum(list, i + 1, i + 1) == 0);
        }
    }

    pub(crate) proof fn lemma_span_sum_least(&self, list: Seq<u32>, i: int, j: int)
        requires
            0 <= i <= j <= list.len(),
            forall|t: int| i <= t < j ==> self.size(#[trigger] list[t]) >= 1,
        ensures
            self.span_sum(list, i, j) >= j - i,
        decreases j - i,
    {
        if i < j {
            self.lemma_span_sum_least(list, i, j - 1);
        }
    }

    /// The handles `list[from..]` are nodes of the tree, those from `active` on stand
    /// side by side from left to right, and none of the others lies under one of these.
    pub open(crate) spec fn sweep_ok(&self, list: Seq<u32>, from: int, active: int) -> bool {
        &&& 0 <= from <= active <= list.len()
        &&& forall|j: int|
            from <= j < list.len() ==> self.live(#[trigger] list[j]) && self.lo(list[j])
                <= self.pos(list[j]) < self.hi(list[j])
        &&& forall|a: int, b: int|
            from <= a < list.len() && active <= b < list.len() && a != b ==> !(self.lo(
                #[trigger] list[b],
            ) <= self.pos(#[trigger] list[a]) < self.hi(list[b]))
        &&& forall|a: int, b: int|
            from <= a < b < list.len() ==> #[trigger] list[a] != #[trigger] list[b]
    }

    /// Empties the tree: every node goes to the free stack, level by level.
    #[verifier::rlimit(100)]
    pub fn clear_all(&mut self)
        requires
            old(self).wf(),
        ensures
            final(self).wf(),
            final(self)@ == Seq::<T>::empty(),
            final(self).root_handle() == EMPTY_REF,
            final(self).slot_count() == old(self).slot_count(),
            final(self).free_count() == old(self).free_count() + old(self)@.len(),
    {
        if self.root == EMPTY_REF {
            proof {
                assert(self@ =~= Seq::<T>::empty());
            }
            return ;
        }
        let ghost o = *self;
        let ghost f0 = o.store.unused@.len() as int;
        proof {
            assert(o.link_ok(o.root));
        }
        self.store.put_back(self.root);
        self.root = EMPTY_REF;

        let mut n: usize = 1;
        proof {
            assert(o.span_sum(self.store.unused@, f0, f0 + 1) == o.size(o.root)) by {
                assert(o.span_sum(self.store.unused@, f0, f0) == 0);
            }
        }
        while n > 0
            invariant
                o.wf(),
                f0 == o.store.unused@.len(),
                self.store.buffer@ == o.store.buffer@,
                self.nil_index == o.nil_index,
                self.shape == o.shape,
                self.root == EMPTY_REF,
                forall|j: int| 0 <= j < f0 ==> self.store.unused@[j] == o.store.unused@[j],
                f0 + n <= self.store.unused@.len(),
                o.sweep_ok(self.store.unused@, f0, self.store.unused@.len() - n),
                forall|a: int, b: int|
                    self.store.unused@.len() - n <= a < b < self.store.unused@.len() ==> o.hi(
                        #[trigger] self.store.unused@[a],
                    ) <= o.lo(#[trigger] self.store.unused@[b]),
                (self.store.unused@.len() - n - f0) + o.span_sum(
                    self.store.unused@,
                    self.store.unused@.len() - n,
                    self.store.unused@.len() as int,
                ) == o.count(),
            decreases o.count() - (self.store.unused@.len() - n - f0),
        {
            proof {
                o.lemma_span_sum_least(
                    self.store.unused@,
                    self.store.unused@.len() - n,
                    self.store.unused@.len() as int,
                );
            }
            let i0 = self.store.unused.len() - n;
            n = 0;
            let end = self.store.unused.len();
            let mut i = i0;
            proof {
                assert(o.span_sum(self.store.unused@, end as int, end as int) == 0);
            }
            while i < end
                invariant
                    o.wf(),
                    f0 == o.store.unused@.len(),
                    self.store.buffer@ == o.store.buffer@,
                    self.nil_index == o.nil_index,
                    self.shape == o.shape,
                    self.root == EMPTY_REF,
                    forall|j: int| 0 <= j < f0 ==> self.store.unused@[j] == o.store.unused@[j],
                    f0 <= i0 <= i <= end,
                    end + n == self.store.unused@.len(),
                    o.sweep_ok(self.store.unused@, f0, i as int),
                    forall|a: int, b: int|
                        i <= a < b < end ==> o.hi(#[trigger] self.store.unused@[a]) <= o.lo(
                            #[trigger] self.store.unused@[b],
                        ),
                    forall|a: int, b: int|
                        end <= a < b < self.store.unused@.len() ==> o.hi(
                            #[trigger] self.store.unused@[a],
                        ) <= o.lo(#[trigger] self.store.unused@[b]),
                    forall|a: int, b: int|
                        end <= a < self.store.unused@.len() && i <= b < end ==> o.hi(
                            #[trigger] self.store.unused@[a],
                        ) <= o.lo(#[trigger] self.store.unused@[b]),
                    (i - f0) + o.span_sum(self.store.unused@, i as int, end as int) + o.span_sum(
                        self.store.unused@,
                        end as int,
                        self.store.unused@.len() as int,
                    ) == o.count(),
                    self.store.unused@.len() - f0 <= o.count(),
                    o.count() <= u32::MAX,
                decreases end - i,
            {
                let ghost before = self.store.unused@;
                let index = self.store.unused[i];
                proof {
                    assert(o.live(before[i as int]));
                    assert(o.link_ok(index));
                    o.lemma_span_sum_front(before, i as int, end as int);
                    o.lemma_span_sum_least(before, i as int + 1, end as int);
                    o.lemma_span_sum_least(before, end as int, before.len() as int);
                }
                let node = self.node(index);
                let left = node.left;
                let right = node.right;
                if left != EMPTY_REF {
                    self.store.put_back(left);
                    n += 1;
                    proof {
                        assert(o.link_ok(left));
                    }
                }
                let ghost middle = self.store.unused@;
                if right != EMPTY_REF {
                    self.store.put_back(right);
                    n += 1;
                    proof {
                        assert(o.link_ok(right));
                    }
                }
                i += 1;
                proof {
                    let after = self.store.unused@;
                    let len0 = before.len() as int;
                    assert forall|t: int| 0 <= t < len0 implies after[t] == before[t] by {
                        assert(middle[t] == before[t]);
                    }
                    o.lemma_span_sum_same(before, after, i as int, end as int);
                    o.lemma_span_sum_same(before, middle, end as int, len0);
                    o.lemma_span_sum_same(middle, after, end as int, middle.len() as int);
                    assert(o.span_sum(after, end as int, after.len() as int) == o.span_sum(
                        before,
                        end as int,
                        len0,
                    ) + o.size(index) - 1) by {
                        if left != EMPTY_REF {
                            assert(middle[len0] == left);
                        }
                        if right != EMPTY_REF {
                            assert(after[middle.len() as int] == right);
                        }
                    }
                    assert forall|j: int| f0 <= j < after.len() implies o.live(#[trigger] after[j])
                        && o.lo(after[j]) <= o.pos(after[j]) < o.hi(after[j]) by {
                        if j < len0 {
                            assert(after[j] == before[j]);
                        }
                    }
                    assert forall|a: int, b: int|
                        f0 <= a < after.len() && i <= b < after.len() && a != b implies !(o.lo(
                            #[trigger] after[b],
                        ) <= o.pos(#[trigger] after[a]) < o.hi(after[b])) by {
                        if a < len0 {
                            assert(after[a] == before[a]);
                        }
                        if b < len0 {
                            assert(after[b] == before[b]);
                        }
                        if a < len0 && a != i - 1 {
                            assert(!(o.lo(before[i - 1]) <= o.pos(before[a]) < o.hi(
                                before[i - 1],
                            )));
                        }
                    }
                    assert forall|a: int, b: int| f0 <= a < b < after.len() implies #[trigger] after[a]
                        != #[trigger] after[b] by {
                        if a < len0 {
                            assert(after[a] == before[a]);
                        }
                        if b < len0 {
                            assert(after[b] == before[b]);
                        } else {
                            assert(!(o.lo(after[b]) <= o.pos(after[a]) < o.hi(after[b])));
                        }
                    }
                    assert forall|a: int, b: int| i <= a < b < end implies o.hi(
                        #[trigger] after[a],
                    ) <= o.lo(#[trigger] after[b]) by {
                        assert(after[a] == before[a]);
                        assert(after[b] == before[b]);
                    }
                    assert forall|a: int, b: int| end <= a < b < after.len() implies o.hi(
                        #[trigger] after[a],
                    ) <= o.lo(#[trigger] after[b]) by {
                        if a < len0 {
                            assert(after[a] == before[a]);
                            assert(o.hi(before[a]) <= o.lo(before[i - 1]));
                        }
                        if b < len0 {
                            assert(after[b] == before[b]);
                        }
                    }
                    assert forall|a: int, b: int|
                        end <= a < after.len() && i <= b < end implies o.hi(#[trigger] after[a])
                        <= o.lo(#[trigger] after[b]) by {
                        assert(after[b] == before[b]);
                        if a < len0 {
                            assert(after[a] == before[a]);
                        } else {
                            assert(o.hi(before[i - 1]) <= o.lo(before[b]));
                        }
                    }
                    o.lemma_span_sum_least(after, i as int, end as int);
                    o.lemma_span_sum_least(after, end as int, after.len() as int);
                }
            }
        }
        self.shape = Ghost(
            Shape { order: Seq::empty(), places: |h: u32| Place { pos: 0, lo: 0, hi: 0, bh: 0 } },
        );
        proof {
            let list = self.store.unused@;
            assert(o.span_sum(list, list.len() as int, list.len() as int) == 0);
            assert(list.len() == f0 + o.count());
            assert(self@ =~= Seq::<T>::empty());
            assert(self.store.wf()) by {
                assert(o.store.wf());
                assert forall|k: int| 0 <= k < list.len() implies (#[trigger] list[k] as int)
                    < self.store.buffer@.len() by {
                    if k < f0 {
                        assert(list[k] == o.store.unused@[k]);
                    } else {
                        assert(o.live(list[k]));
                    }
                }
                assert forall|j: int, k: int| 0 <= j < k < list.len() implies list[j]
                    != list[k] by {
                    if k < f0 {
                        assert(list[j] == o.store.unused@[j]);
                        assert(list[k] == o.store.unused@[k]);
                    } else if j < f0 {
                        assert(list[j] == o.store.unused@[j]);
                        assert(!o.live(o.store.unused@[j]));
                        assert(o.live(list[k]));
                    }
                }
            }
            assert forall|k: int| 0 <= k < list.len() implies !self.live(#[trigger] list[k])
                && list[k] != self.nil_index by {
                if k < f0 {
                    assert(list[k] == o.store.unused@[k]);
                } else {
                    assert(o.live(list[k]));
                }
            }
        }
    }
}

} // verus!
