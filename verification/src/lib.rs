//! Search for printable-ASCII probable primes: table-based modular reduction,
//! a small-prime sieve, a Miller-Rabin test and candidate generation, with
//! every function specified over mathematical integers.

pub mod radix;
pub mod bits;
pub mod natural;
pub mod bigint;
pub mod rng;
pub mod fastmod;
pub mod sieve;
pub mod fermat;
pub mod primality;
pub mod candidate;
pub mod search;
