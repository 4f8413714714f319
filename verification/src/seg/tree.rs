use vstd::prelude::*;
use vstd::arithmetic::power2::pow2;
use crate::bits::{bit_length, bits_of, lemma_bit_length_bound, lemma_bit_length_range};
use crate::seg::heap::Heap32;

verus! {

/// How a range of positions is laid over the 32 leaves of the heap: `min` is the first
/// position, one below the range, `max` the last, one above it, and each leaf takes
/// `2^scale` positions.
pub struct Layout {
    pub min: i64,
    pub max: i64,
    pub scale: u32,
}

impl Layout {
    /// The layout is that of a range of at least 15 positions.
    pub open spec fn wf(&self) -> bool {
        &&& self.min < self.max
        &&& self.max - self.min <= i64::MAX
        &&& self.max - self.min >= 17
        &&& self.scale + 5 == bit_length((self.max - self.min - 1) as nat)
    }

    /// The leaf on which the position `value` falls.
    pub open spec fn leaf(&self, value: i64) -> int {
        (value - self.min) / (pow2(self.scale as nat) as int)
    }

    /// The layout for the positions `start..=end`, and none for fewer than 3 of them.
    /// From 3 to 14 positions are more than none and too few to cover the 32 leaves with.
    pub fn new(start: i64, end: i64) -> (r: Option<Self>)
        requires
            start <= end,
            start > i64::MIN,
            end < i64::MAX,
            end - start <= i64::MAX - 2,
            end - start < 3 || end - start >= 15,
        ensures
            (r is None) == (end - start < 3),
            r matches Some(layout) ==> layout.wf() && layout.min == start - 1 && layout.max
                == end + 1,
    {
        let min = start - 1;
        let max = end + 1;
        let len = (max - min) as u64;
        if len < Heap32::POWER as u64 {
            return None;
        }
        let p = bits_of(len - 1);
        proof {
            lemma_bit_length_range((len - 1) as nat);
            vstd::arithmetic::power2::lemma2_to64();
            if p < 5 {
                vstd::arithmetic::power2::lemma_pow2_strictly_increases(p as nat, 4);
            }
        }
        let scale = p - Heap32::POWER;

        Some(Self { min, max, scale })
    }

    /// The leaf on which the position `value` falls.
    pub fn index(&self, value: i64) -> (r: u32)
        requires
            self.wf(),
            self.min <= value <= self.max,
        ensures
            r == self.leaf(value),
            r <= 32,
    {
        let offset = (value - self.min) as u64;
        proof {
            let span = (self.max - self.min) as u64;
            lemma_bit_length_range((span - 1) as nat);
            vstd::arithmetic::power2::lemma2_to64_rest();
            lemma_bit_length_bound((span - 1) as nat, 64);
            vstd::bits::lemma_u64_shr_is_div(offset, self.scale as u64);
            vstd::arithmetic::power2::lemma_pow2_adds(self.scale as nat, 5);
            vstd::arithmetic::power2::lemma2_to64();
            vstd::arithmetic::power2::lemma_pow2_pos(self.scale as nat);
            let unit = pow2(self.scale as nat) as int;
            assert(offset <= span);
            assert(span <= unit * 32);
            assert(offset as int / unit <= 32) by (nonlinear_arith)
                requires
                    unit > 0,
                    0 <= offset <= unit * 32,
            ;
        }
        (offset >> self.scale) as u32
    }

    /// The number of nodes of the heap up to the leaf on which the last position falls.
    pub fn count(&self) -> (r: usize)
        requires
            self.wf(),
        ensures
            r == self.leaf(self.max) + 31,
    {
        let order = self.index(self.max);
        Heap32::order_to_heap_index(order) as usize
    }
}

} // verus!
