use vstd::prelude::*;

verus! {

/// A closed range of positions, both bounds included.
#[derive(Debug, Clone, Copy)]
pub struct SegRange<R> {
    pub min: R,
    pub max: R,
}

} // verus!
