pub mod knuth_morris_pratt;
pub mod rolling_hash;
pub mod z_algorithm;
