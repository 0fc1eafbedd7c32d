pub mod algorithms;
pub mod data_structure;
pub mod math;
pub mod misc;
pub mod strings;
