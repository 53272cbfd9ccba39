//! The random draws, taken from `random_fast_rng`'s generator of the
//! calling thread. Nothing is known of what a draw returns.

use vstd::prelude::*;

verus! {

/// `Random::get_u16` on `local_rng()`: any 16-bit value.
#[verifier::external_body]
pub(crate) fn random_u16() -> u16 {
    random_fast_rng::Random::get_u16(&mut *random_fast_rng::local_rng())
}

/// `Random::fill_bytes` on `local_rng()`, over four bytes: any four bytes.
#[verifier::external_body]
pub(crate) fn random_bytes() -> [u8; 4] {
    let mut bytes = [0u8; 4];
    random_fast_rng::Random::fill_bytes(&mut *random_fast_rng::local_rng(), &mut bytes);
    bytes
}

} // verus!
