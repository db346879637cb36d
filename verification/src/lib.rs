//! Approximate membership and frequency structures over byte strings: a Bloom
//! filter and a Count-Min sketch, both indexed by double hashing over two
//! fixed 32-bit hash functions.

pub mod bf;
pub mod bf_laws;
pub mod cms;
pub mod cms_laws;
pub mod hash;
