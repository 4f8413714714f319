pub mod array;
pub mod bits;
pub mod laws;
pub mod node;
pub mod ord;
pub mod order;
pub mod seg;
pub mod store;
pub mod tree;
