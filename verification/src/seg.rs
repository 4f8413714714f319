pub mod exp;
pub mod heap;
pub mod tree;
