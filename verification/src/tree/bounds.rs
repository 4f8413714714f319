use vstd::prelude::*;
use vstd::arithmetic::power2::{
    lemma2_to64, lemma_pow2_strictly_increases, lemma_pow2_unfold, pow2,
};
use crate::node::EMPTY_REF;
use crate::tree::Tree;

verus! {

impl<T: Clone + PartialEq + Eq + PartialOrd + Ord> Tree<T> {
    /// 1 for a red node, 0 for a black one.
    pub open(crate) spec fn red(&self, h: u32) -> int {
        1 - self.black(h)
    }

    /// A subtree of black height `b` holds at least `2^b - 1` nodes, and twice as many
    /// and one more under a red root.
    pub(crate) proof fn lemma_size(&self, h: u32)
        requires
            self.linked(),
            self.colored(),
            self.live(h),
        ensures
            self.bh(h) >= 0,
            pow2((self.bh(h) + self.red(h)) as nat) <= self.hi(h) - self.lo(h) + 1,
        decreases self.hi(h) - self.lo(h),
    {
        assert(self.link_ok(h));
        assert(self.bh_ok(h));
        let l = self.nd(h).left;
        let r = self.nd(h).right;
        let b = self.bh(h) - self.black(h);
        assert(pow2(b as nat) <= self.pos(h) - self.lo(h) + 1) by {
            if l == EMPTY_REF {
                lemma2_to64();
            } else {
                assert(self.link_ok(l));
                self.lemma_size(l);
                if self.red(l) == 1 {
                    lemma_pow2_strictly_increases(b as nat, (b + 1) as nat);
                }
            }
        }
        assert(pow2(b as nat) <= self.hi(h) - self.pos(h)) by {
            if r == EMPTY_REF {
                lemma2_to64();
            } else {
                assert(self.link_ok(r));
                self.lemma_size(r);
                if self.red(r) == 1 {
                    lemma_pow2_strictly_increases(b as nat, (b + 1) as nat);
                }
            }
        }
        lemma_pow2_unfold((b + 1) as nat);
    }

    /// No black height exceeds 32.
    pub(crate) proof fn lemma_black_height_bound(&self, h: u32)
        requires
            self.linked(),
            self.colored(),
            self.live(h),
        ensures
            0 <= self.bh(h) <= 32,
    {
        self.lemma_size(h);
        assert(self.link_ok(h));
        if self.bh(h) > 32 {
            lemma2_to64();
            if self.bh(h) + self.red(h) > 32 {
                lemma_pow2_strictly_increases(32, (self.bh(h) + self.red(h)) as nat);
            }
        }
    }
}

} // verus!
