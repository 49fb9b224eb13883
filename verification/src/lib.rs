//! Incremental prime sieve with verified query operations: primality
//! testing, factorization into prime powers, indexed enumeration of the
//! prime sequence, and nearest-prime search.

pub mod primality;
pub mod queries;
pub mod sieve;
