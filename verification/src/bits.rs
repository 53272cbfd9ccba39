//! Bit-level measures of a number: its length in bits and the power of two
//! that divides it, with the facts that tie them to words.

use vstd::prelude::*;
use vstd::arithmetic::power::lemma_pow_multiplies;
use vstd::arithmetic::power2::{
    lemma2_to64, lemma_pow2, lemma_pow2_adds, lemma_pow2_pos, lemma_pow2_strictly_increases,
    lemma_pow2_unfold, pow2,
};
use vstd::arithmetic::div_mod::{lemma_div_multiples_vanish, lemma_fundamental_div_mod};
use vstd::std_specs::bits::{
    axiom_u32_leading_zeros, axiom_u32_trailing_zeros, u32_leading_zeros, u32_trailing_zeros,
};
use vstd::bits::lemma_u32_shl_is_mul;
use crate::radix::{
    is_canonical, lemma_radix_pow, lemma_words_value_low, lemma_words_value_lower,
    lemma_words_value_upper, radix, radix_pow, words_value,
};

verus! {

/// The fewest bits that express `v`; zero takes none.
pub open spec fn bit_length(v: nat) -> nat
    decreases v,
{
    if v == 0 {
        0
    } else {
        1 + bit_length(v / 2)
    }
}

/// The exponent of the largest power of two that divides `m`; 0 for zero.
pub open spec fn two_adic(m: nat) -> nat
    decreases m,
{
    if m == 0 || m % 2 == 1 {
        0
    } else {
        1 + two_adic(m / 2)
    }
}

/// What is left of `m` once every factor of two is divided out.
pub open spec fn odd_part(m: nat) -> nat {
    m / pow2(two_adic(m))
}

/// Two to a power does not shrink as the exponent grows.
pub proof fn lemma_pow2_monotone(i: nat, j: nat)
    requires
        i <= j,
    ensures
        pow2(i) <= pow2(j),
{
    if i < j {
        lemma_pow2_strictly_increases(i, j);
    }
}

/// The `i`-th power of the radix is two to the power `32 * i`.
pub proof fn lemma_radix_pow_is_pow2(i: nat)
    ensures
        radix_pow(i) == pow2(32 * i),
{
    lemma2_to64();
    lemma_pow2(32);
    lemma_pow2(32 * i);
    lemma_pow_multiplies(2, 32, i);
    lemma_radix_pow(i);
}

/// A number lies below two to its bit length and, unless it is zero, not
/// below half of that.
pub proof fn lemma_bit_length_bounds(v: nat)
    ensures
        v < pow2(bit_length(v)),
        v > 0 ==> pow2((bit_length(v) - 1) as nat) <= v,
    decreases v,
{
    if v == 0 {
        lemma_pow2_pos(0);
    } else {
        let h = v / 2;
        lemma_bit_length_bounds(h);
        lemma_pow2_unfold(bit_length(v));
        if h == 0 {
            lemma2_to64();
        } else {
            lemma_pow2_unfold(bit_length(h));
        }
    }
}

/// The bit length is the only `b` with `2^(b-1) <= v < 2^b`.
pub proof fn lemma_bit_length_unique(v: nat, b: nat)
    requires
        b > 0,
        pow2((b - 1) as nat) <= v < pow2(b),
    ensures
        bit_length(v) == b,
{
    lemma_pow2_pos((b - 1) as nat);
    lemma_bit_length_bounds(v);
    let l = bit_length(v);
    if l < b {
        lemma_pow2_monotone(l, (b - 1) as nat);
    }
    if l > b {
        lemma_pow2_monotone(b, (l - 1) as nat);
    }
}

/// An odd number times two to the power `t` has exactly `t` factors of two
/// and that odd number as its odd part.
pub proof fn lemma_two_adic_factored(t: nat, c: nat)
    requires
        c % 2 == 1,
    ensures
        two_adic(pow2(t) * c) == t,
        odd_part(pow2(t) * c) == c,
    decreases t,
{
    lemma_pow2_pos(t);
    if t == 0 {
        lemma2_to64();
        assert(pow2(0) * c == c);
    } else {
        let h = pow2((t - 1) as nat) * c;
        lemma_pow2_unfold(t);
        lemma_pow2_pos((t - 1) as nat);
        assert(pow2(t) * c == 2 * h) by (nonlinear_arith)
            requires
                pow2(t) == 2 * pow2((t - 1) as nat),
                h == pow2((t - 1) as nat) * c,
        ;
        assert(h > 0) by (nonlinear_arith)
            requires
                h == pow2((t - 1) as nat) * c,
                pow2((t - 1) as nat) > 0,
                c > 0,
        ;
        lemma_two_adic_factored((t - 1) as nat, c);
        assert(two_adic(2 * h) == 1 + two_adic(h));
    }
    lemma_div_multiples_vanish(c as int, pow2(t) as int);
    assert(pow2(t) * c == c * pow2(t)) by (nonlinear_arith);
}

/// A positive number is its odd part times two to the power of its factors
/// of two, and the odd part is odd.
pub proof fn lemma_two_adic_split(m: nat)
    requires
        m > 0,
    ensures
        m == pow2(two_adic(m)) * odd_part(m),
        odd_part(m) % 2 == 1,
    decreases m,
{
    lemma2_to64();
    if m % 2 == 1 {
        assert(two_adic(m) == 0);
        assert(odd_part(m) == m);
        assert(pow2(0) * m == m);
    } else {
        let h = m / 2;
        lemma_two_adic_split(h);
        let t = two_adic(h);
        lemma_pow2_unfold(t + 1);
        lemma_pow2_pos(t);
        let c = odd_part(h);
        assert(m == pow2(t + 1) * c) by (nonlinear_arith)
            requires
                m == 2 * h,
                h == pow2(t) * c,
                pow2(t + 1) == 2 * pow2(t),
        ;
        lemma_two_adic_factored(t + 1, c);
        assert(two_adic(m) == t + 1);
        assert(odd_part(m) == c);
    }
}

/// Words that are zero below index `i` contribute nothing: the number is
/// the `i`-th power of the radix times the number that the other words
/// denote.
pub proof fn lemma_low_zero_words(words: Seq<u32>, i: nat)
    requires
        i <= words.len(),
        forall|j: int| 0 <= j < i ==> words[j] == 0,
    ensures
        words_value(words) == radix_pow(i) * words_value(words.skip(i as int)),
    decreases i,
{
    lemma_radix_pow(i);
    if i == 0 {
        assert(words.skip(0) =~= words);
        assert(1 * words_value(words) == words_value(words));
    } else {
        lemma_words_value_low(words);
        let rest = words.skip(1);
        assert forall|j: int| 0 <= j < i - 1 implies rest[j] == 0 by {
            assert(rest[j] == words[j + 1]);
        }
        lemma_low_zero_words(rest, (i - 1) as nat);
        assert(rest.skip((i - 1) as int) =~= words.skip(i as int));
        lemma_radix_pow((i - 1) as nat);
        let tail = words_value(words.skip(i as int));
        let p = radix_pow((i - 1) as nat);
        assert(radix() * (p * tail) == (p * radix()) * tail) by (nonlinear_arith);
    }
}

/// The factors of two of a number whose lowest nonzero word sits at index
/// `i` and has `t < 32` factors of two: 32 for each zero word, and `t`.
pub proof fn lemma_words_two_adic(words: Seq<u32>, i: nat, t: nat, c: nat)
    requires
        i < words.len(),
        forall|j: int| 0 <= j < i ==> words[j] == 0,
        t < 32,
        c % 2 == 1,
        words[i as int] as nat == pow2(t) * c,
    ensures
        two_adic(words_value(words)) == 32 * i + t,
{
    let tail = words.skip(i as int);
    lemma_low_zero_words(words, i);
    lemma_words_value_low(tail);
    let rest = words_value(tail.skip(1));
    let up = pow2((32 - t) as nat);
    lemma_pow2_adds(t, (32 - t) as nat);
    lemma_pow2_unfold((32 - t) as nat);
    lemma2_to64();
    lemma_radix_pow_is_pow2(i);
    lemma_pow2_adds(32 * i, t);
    let odd = c + up * rest;
    let half = pow2((31 - t) as nat) * rest;
    assert(up * rest == 2 * half) by (nonlinear_arith)
        requires
            up == 2 * pow2((31 - t) as nat),
            half == pow2((31 - t) as nat) * rest,
    ;
    assert(odd % 2 == 1);
    assert(words_value(tail) == pow2(t) * odd) by (nonlinear_arith)
        requires
            words_value(tail) == pow2(t) * c + radix() * rest,
            radix() == pow2(t) * up,
            odd == c + up * rest,
    ;
    assert(words_value(words) == pow2(32 * i + t) * odd) by (nonlinear_arith)
        requires
            words_value(words) == radix_pow(i) * words_value(tail),
            radix_pow(i) == pow2(32 * i),
            words_value(tail) == pow2(t) * odd,
            pow2(32 * i + t) == pow2(32 * i) * pow2(t),
    ;
    lemma_two_adic_factored(32 * i + t, odd);
}

/// A canonical number below two to the power `e` takes fewer than
/// `e / 32 + 1` words, counted in bits.
pub proof fn lemma_words_for_bits(words: Seq<u32>, e: nat)
    requires
        is_canonical(words),
        words_value(words) < pow2(e),
    ensures
        32 * words.len() < e + 32,
{
    if words.len() > 0 {
        let w = (words.len() - 1) as nat;
        lemma_words_value_lower(words);
        lemma_radix_pow_is_pow2(w);
        if 32 * w >= e {
            lemma_pow2_monotone(e, 32 * w);
        }
    }
}

/// A nonzero word is an odd number times two to the power of its count of
/// trailing zero bits.
pub proof fn lemma_trailing_zeros_factor(d: u32)
    requires
        d != 0,
    ensures
        u32_trailing_zeros(d) < 32,
        (d as nat) == pow2(u32_trailing_zeros(d) as nat) * ((d as nat) / pow2(
            u32_trailing_zeros(d) as nat,
        )),
        ((d as nat) / pow2(u32_trailing_zeros(d) as nat)) % 2 == 1,
{
    let t: u32 = u32_trailing_zeros(d);
    axiom_u32_trailing_zeros(d);
    let back: u32 = (32 - t) as u32;
    assert(d % (1u32 << t) == 0 && (d / (1u32 << t)) % 2 == 1) by (bit_vector)
        requires
            t < 32,
            (d >> t) & 1 == 1,
            back == 32 - t,
            d << back == 0,
    ;
    lemma_pow2_strictly_increases(t as nat, 32);
    lemma2_to64();
    lemma_u32_shl_is_mul(1, t);
    lemma_fundamental_div_mod(d as int, pow2(t as nat) as int);
}

/// A nonzero word lies between two powers of two that its count of leading
/// zero bits names.
pub proof fn lemma_leading_zeros_bounds(d: u32)
    requires
        d != 0,
    ensures
        u32_leading_zeros(d) < 32,
        pow2((31 - u32_leading_zeros(d)) as nat) <= d,
        (d as nat) + 1 <= pow2((32 - u32_leading_zeros(d)) as nat),
{
    let z: u32 = u32_leading_zeros(d);
    axiom_u32_leading_zeros(d);
    let top: u32 = (31 - z) as u32;
    let above: u32 = (32 - z) as u32;
    assert((1u32 << top) <= d && (z > 0 ==> d < (1u32 << above))) by (bit_vector)
        requires
            z < 32,
            top == 31 - z,
            above == 32 - z,
            (d >> top) & 1 != 0,
            d >> above == 0,
    ;
    lemma2_to64();
    lemma_pow2_strictly_increases(top as nat, 32);
    lemma_u32_shl_is_mul(1, top);
    if z > 0 {
        lemma_pow2_strictly_increases(above as nat, 32);
        lemma_u32_shl_is_mul(1, above);
    }
}

/// The bit length of a canonical number: 32 for each word, less the
/// leading zero bits of the most significant word.
pub proof fn lemma_words_bit_length(words: Seq<u32>)
    requires
        words.len() > 0,
        words.last() != 0,
    ensures
        u32_leading_zeros(words.last()) < 32,
        bit_length(words_value(words)) == 32 * words.len() - u32_leading_zeros(words.last()),
{
    let m = (words.len() - 1) as nat;
    let top = words.last() as nat;
    let z = u32_leading_zeros(words.last()) as nat;
    let front = words_value(words.drop_last());
    let p = radix_pow(m);
    let v = words_value(words);
    lemma_leading_zeros_bounds(words.last());
    lemma_words_value_upper(words.drop_last());
    lemma_radix_pow_is_pow2(m);
    lemma_pow2_adds(32 * m, (31 - z) as nat);
    lemma_pow2_adds(32 * m, (32 - z) as nat);
    let lo = pow2((31 - z) as nat);
    let hi = pow2((32 - z) as nat);
    assert(p * lo <= v && v < p * hi) by (nonlinear_arith)
        requires
            v == front + top * p,
            front < p,
            lo <= top,
            top + 1 <= hi,
    ;
    lemma_bit_length_unique(v, (32 * m + 32 - z) as nat);
}

} // verus!
