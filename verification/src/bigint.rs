//! The arithmetic that `num_bigint` performs for this crate. Every function
//! here hands its operands to `num_bigint::BigUint` and takes the result
//! back as canonical words; what each contract says of the result is
//! believed, not proved.

use vstd::prelude::*;
use vstd::arithmetic::power::pow;
use vstd::arithmetic::power2::pow2;
use crate::natural::Natural;

verus! {

/// The number that big-endian bytes denote: the last byte counts once, each
/// earlier byte 256 times as much as its successor.
pub open spec fn be_value(bytes: Seq<u8>) -> nat
    decreases bytes.len(),
{
    if bytes.len() == 0 {
        0
    } else {
        256 * be_value(bytes.drop_last()) + (bytes.last() as nat)
    }
}

/// `base` raised to `exp`, reduced by `modulus`.
pub open spec fn pow_mod(base: nat, exp: nat, modulus: nat) -> nat {
    (pow(base as int, exp) % (modulus as int)) as nat
}

/// `&BigUint * &BigUint`: the result is the product of the two numbers.
#[verifier::external_body]
pub(crate) fn times(a: &Natural, b: &Natural) -> (r: Natural)
    ensures
        r@ == a@ * b@,
{
    let x = num_bigint::BigUint::from_slice(&a.words);
    let y = num_bigint::BigUint::from_slice(&b.words);
    Natural { words: (&x * &y).to_u32_digits() }
}

/// `&BigUint * u32`: the result is the number times the word.
#[verifier::external_body]
pub(crate) fn times_word(a: &Natural, d: u32) -> (r: Natural)
    ensures
        r@ == a@ * (d as nat),
{
    let x = num_bigint::BigUint::from_slice(&a.words);
    Natural { words: (&x * d).to_u32_digits() }
}

/// `BigUint + &BigUint`: the result is the sum of the two numbers.
#[verifier::external_body]
pub(crate) fn plus(a: &Natural, b: &Natural) -> (r: Natural)
    ensures
        r@ == a@ + b@,
{
    let x = num_bigint::BigUint::from_slice(&a.words);
    let y = num_bigint::BigUint::from_slice(&b.words);
    Natural { words: (x + &y).to_u32_digits() }
}

/// `&BigUint + u32`: the result is the number plus the word.
#[verifier::external_body]
pub(crate) fn plus_word(a: &Natural, d: u32) -> (r: Natural)
    ensures
        r@ == a@ + (d as nat),
{
    let x = num_bigint::BigUint::from_slice(&a.words);
    Natural { words: (&x + d).to_u32_digits() }
}

/// `&BigUint - u32`, which panics when the word exceeds the number: the
/// result is the number minus the word.
#[verifier::external_body]
pub(crate) fn minus_word(a: &Natural, d: u32) -> (r: Natural)
    requires
        a@ >= d,
    ensures
        r@ == a@ - (d as nat),
{
    let x = num_bigint::BigUint::from_slice(&a.words);
    Natural { words: (&x - d).to_u32_digits() }
}

/// `BigUint % &BigUint`, which panics on a zero divisor: the result is the
/// remainder of the division of `a` by `k`.
#[verifier::external_body]
pub(crate) fn modulo(a: &Natural, k: &Natural) -> (r: Natural)
    requires
        k@ != 0,
    ensures
        r@ == a@ % k@,
{
    let x = num_bigint::BigUint::from_slice(&a.words);
    let y = num_bigint::BigUint::from_slice(&k.words);
    Natural { words: (x % &y).to_u32_digits() }
}

/// `&BigUint << usize`: the result is the number times two to the power
/// `bits`. The shift prepends `bits / 32` words and may append one, a count
/// that has to fit the machine.
#[verifier::external_body]
pub(crate) fn shift_left(a: &Natural, bits: usize) -> (r: Natural)
    requires
        a.spec_words().len() + bits / 32 + 1 <= usize::MAX,
    ensures
        r@ == a@ * pow2(bits as nat),
{
    let x = num_bigint::BigUint::from_slice(&a.words);
    Natural { words: (&x << bits).to_u32_digits() }
}

/// `&BigUint >> usize`: the result is the number divided by two to the
/// power `bits`, rounded down.
#[verifier::external_body]
pub(crate) fn shift_right(a: &Natural, bits: usize) -> (r: Natural)
    ensures
        r@ == a@ / pow2(bits as nat),
{
    let x = num_bigint::BigUint::from_slice(&a.words);
    Natural { words: (&x >> bits).to_u32_digits() }
}

/// `BigUint::modpow`, which panics on a zero modulus: the result is
/// `base` to the power `exp`, reduced by `modulus`.
#[verifier::external_body]
pub(crate) fn modpow(base: &Natural, exp: &Natural, modulus: &Natural) -> (r: Natural)
    requires
        modulus@ != 0,
    ensures
        r@ == pow_mod(base@, exp@, modulus@),
{
    let b = num_bigint::BigUint::from_slice(&base.words);
    let e = num_bigint::BigUint::from_slice(&exp.words);
    let m = num_bigint::BigUint::from_slice(&modulus.words);
    Natural { words: b.modpow(&e, &m).to_u32_digits() }
}

/// `BigUint::from_bytes_be`: the result is the number that the bytes denote
/// in big-endian order; no bytes denote zero.
#[verifier::external_body]
pub(crate) fn from_bytes_be(bytes: &[u8]) -> (r: Natural)
    ensures
        r@ == be_value(bytes@),
{
    Natural { words: num_bigint::BigUint::from_bytes_be(bytes).to_u32_digits() }
}

/// `BigUint::to_bytes_be`: the result denotes the number in big-endian
/// order and starts with a nonzero byte, except that zero is the single
/// byte 0. The call computes the number's bit length in a `usize`.
#[verifier::external_body]
pub(crate) fn to_bytes_be(a: &Natural) -> (r: Vec<u8>)
    requires
        a.spec_words().len() * 32 + 8 <= usize::MAX,
    ensures
        be_value(r@) == a@,
        r@.len() >= 1,
        a@ == 0 ==> r@ == seq![0u8],
        a@ != 0 ==> r@[0] != 0,
{
    num_bigint::BigUint::from_slice(&a.words).to_bytes_be()
}

} // verus!
