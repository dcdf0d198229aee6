//! Prime numbers up to a bound, by the sieve of Eratosthenes.
//!
//! The sieve keeps a buffer of candidates `[2, 3, ..., n]`, strikes the multiples of each
//! prime it finds by overwriting them with 0, and stops striking once the next prime squared
//! exceeds the bound: every number that is still in place after that is prime.

mod numable;
pub mod primes;
mod sieve;

pub use numable::Numable;
pub use sieve::{find_primes, lemma_normalized_bound_same_primes, prime_serch, sieve};
