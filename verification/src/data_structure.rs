pub mod dsu;
pub mod monoid;
pub mod multi_set;
pub mod segment_tree;
