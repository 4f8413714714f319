pub mod entity;
pub mod list;
pub mod sort;
