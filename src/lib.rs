//! A Bloom filter over a fixed-size bit array whose bits only ever go from 0 to 1.
pub mod bloomfilter;
pub mod lock_free_array;
