use vstd::prelude::*;

verus! {

/// The handle that stands for "no node".
pub const EMPTY_REF: u32 = u32::MAX;

/// The colour of a node.
#[derive(PartialEq, Eq, Structural, Clone, Copy)]
pub enum Color {
    Red,
    Black,
}

/// One slot of the arena: three handles, a colour and a value.
pub struct Node<T> {
    pub parent: u32,
    pub left: u32,
    pub right: u32,
    pub color: Color,
    pub value: T,
}

} // verus!
