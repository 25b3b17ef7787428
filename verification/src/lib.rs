//! Approximate membership filters over bit-packed storage: a Bloom filter, a
//! bucketed `(2, 4)` cuckoo filter and a windowed `(2, 2)` cuckoo filter.
pub mod bloom;
pub mod cuckoo;
pub mod hash;
pub mod packed;
pub mod rounding;
pub mod windowed;

pub use bloom::BloomFilter;
pub use cuckoo::CuckooFilter;
pub use windowed::WindowedCuckooFilter;
