//! The primality test: trial division by the sieved primes, then the
//! Miller-Rabin witness test on fixed and random bases.

use vstd::prelude::*;
use vstd::arithmetic::div_mod::{lemma_mod_bound, lemma_mul_mod_noop, lemma_small_mod};
use vstd::arithmetic::power::{lemma_pow_adds, pow};
use vstd::arithmetic::power2::{lemma2_to64, lemma_pow2_adds, lemma_pow2_unfold, pow2};
use vstd::std_specs::bits::{axiom_u32_trailing_zeros, u32_trailing_zeros};
use crate::bigint::{minus_word, modpow, pow_mod, shift_right, times};
use crate::bits::{
    bit_length, lemma_bit_length_bounds, lemma_low_zero_words, lemma_pow2_monotone,
    lemma_radix_pow_is_pow2, lemma_trailing_zeros_factor, lemma_two_adic_split,
    lemma_words_two_adic, odd_part, two_adic,
};
use crate::fermat::{lemma_fermat, lemma_square_root_of_one};
use crate::fastmod::{
    big_weights, fastmod_bignum_bignum, fastmod_bignum_u32, is_reduction_table,
    precompute_bignum_bignum, word_weights,
};
use crate::natural::Natural;
use crate::radix::{
    is_canonical, lemma_fewer_words, lemma_words_value_lower, radix_pow, weighted_sum, words_value,
};
use crate::rng::random_u16;
use crate::sieve::{divides, is_prime};

verus! {

/// Every entry pairs a modulus with its reduction table.
pub open spec fn has_tables(prime_list: Seq<(u32, Vec<u32>)>) -> bool {
    forall|i: int|
        0 <= i < prime_list.len() ==> is_reduction_table(
            word_weights((#[trigger] prime_list[i]).1@),
            prime_list[i].0 as nat,
        )
}

/// Some modulus of the list divides `n`.
pub open spec fn divides_some(prime_list: Seq<(u32, Vec<u32>)>, n: nat) -> bool {
    exists|i: int| 0 <= i < prime_list.len() && n % ((#[trigger] prime_list[i]).0 as nat) == 0
}

/// Every modulus of the list is at least 2 and below `n`.
pub open spec fn exceeds_moduli(prime_list: Seq<(u32, Vec<u32>)>, n: nat) -> bool {
    forall|i: int| 0 <= i < prime_list.len() ==> 2 <= (#[trigger] prime_list[i]).0 < n
}

/// The filter rejects no prime that exceeds every modulus of the list:
/// none of them divides it.
pub proof fn lemma_filter_keeps_primes(prime_list: Seq<(u32, Vec<u32>)>, n: nat)
    requires
        is_prime(n),
        exceeds_moduli(prime_list, n),
    ensures
        !divides_some(prime_list, n),
{
    assert forall|i: int| 0 <= i < prime_list.len() implies n % ((#[trigger] prime_list[i]).0 as nat)
        != 0 by {
        assert(!divides(prime_list[i].0 as nat, n));
    }
}

/// Whether no sieved prime divides the candidate: reduces `n` through the
/// table of every entry of `prime_list` and rejects on the first residue
/// that is zero.
pub fn first_pass_primality_check(n: &Natural, prime_list: &Vec<(u32, Vec<u32>)>) -> (r: bool)
    requires
        forall|i: int|
            0 <= i < prime_list@.len() ==> (#[trigger] prime_list@[i]).0 > 0 && n.word_count()
                <= prime_list@[i].1@.len(),
    ensures
        r == forall|i: int|
            0 <= i < prime_list@.len() ==> weighted_sum(
                n.spec_words(),
                word_weights((#[trigger] prime_list@[i]).1@),
            ) % (prime_list@[i].0 as nat) != 0,
        has_tables(prime_list@) ==> r == !divides_some(prime_list@, n@),
        has_tables(prime_list@) && is_prime(n@) && exceeds_moduli(prime_list@, n@) ==> r,
{
    proof {
        if is_prime(n@) && exceeds_moduli(prime_list@, n@) {
            lemma_filter_keeps_primes(prime_list@, n@);
        }
    }
    let mut i: usize = 0;
    while i < prime_list.len()
        invariant
            i <= prime_list@.len(),
            forall|j: int|
                0 <= j < prime_list@.len() ==> (#[trigger] prime_list@[j]).0 > 0 && n.word_count()
                    <= prime_list@[j].1@.len(),
            forall|j: int|
                0 <= j < i ==> weighted_sum(
                    n.spec_words(),
                    word_weights((#[trigger] prime_list@[j]).1@),
                ) % (prime_list@[j].0 as nat) != 0,
            has_tables(prime_list@) ==> forall|j: int|
                0 <= j < i ==> n@ % ((#[trigger] prime_list@[j]).0 as nat) != 0,
            is_prime(n@) && exceeds_moduli(prime_list@, n@) ==> !divides_some(prime_list@, n@),
        decreases prime_list@.len() - i,
    {
        let p = prime_list[i].0;
        if fastmod_bignum_u32(n, p, &prime_list[i].1) == 0 {
            return false;
        }
        i += 1;
    }
    true
}

/// The number of random bases that follow the fixed bases 2 and 3.
pub const RANDOM_BASES: usize = 48;

/// `a` raised to the odd part of `n - 1` and then squared `r` times,
/// reduced by `n`.
pub open spec fn squared_power(n: nat, a: nat, r: nat) -> nat {
    pow_mod(a, odd_part((n - 1) as nat) * pow2(r), n)
}

/// The base `a` does not expose `n` as composite: `a` to the odd part of
/// `n - 1` is 1, or that power or one of its squares, up to as many
/// squarings as `n - 1` has factors of two, is `n - 1`.
pub open spec fn passes_base(n: nat, a: nat) -> bool {
    squared_power(n, a, 0) == 1 || exists|r: nat|
        r <= two_adic((n - 1) as nat) && #[trigger] squared_power(n, a, r) == n - 1
}

/// The base that a random draw stands for: the draw with bit 1 set, so
/// that it exceeds 1.
pub open spec fn drawn_base(draw: u16) -> nat {
    (draw | 2) as nat
}

/// `n` passes the fixed bases 2 and 3 and the base of every draw.
pub open spec fn passes_all(n: nat, draws: Seq<u16>) -> bool {
    &&& passes_base(n, 2)
    &&& passes_base(n, 3)
    &&& forall|i: int| 0 <= i < draws.len() ==> passes_base(n, #[trigger] drawn_base(draws[i]))
}

/// One more squaring: the next squared power is the square of the current
/// one, reduced by `n`.
pub proof fn lemma_squared_power_step(n: nat, a: nat, r: nat)
    requires
        n > 0,
    ensures
        squared_power(n, a, r + 1) == (squared_power(n, a, r) * squared_power(n, a, r)) % n,
        squared_power(n, a, r) < n,
{
    let q = odd_part((n - 1) as nat);
    let e = q * pow2(r);
    let x = pow(a as int, e);
    lemma_pow2_unfold(r + 1);
    assert(q * pow2(r + 1) == e + e) by (nonlinear_arith)
        requires
            pow2(r + 1) == 2 * pow2(r),
            e == q * pow2(r),
    ;
    lemma_pow_adds(a as int, e, e);
    lemma_mul_mod_noop(x, x, n as int);
    lemma_mod_bound(x, n as int);
}

/// Modulo a prime, a chain of squarings that arrives at 1 started at 1 or
/// passed through `n - 1` on its way.
pub proof fn lemma_chain_to_one(n: nat, a: nat, r: nat)
    requires
        is_prime(n),
        squared_power(n, a, r) == 1,
    ensures
        squared_power(n, a, 0) == 1 || exists|j: nat|
            j < r && #[trigger] squared_power(n, a, j) == n - 1,
    decreases r,
{
    if r > 0 {
        let prev = (r - 1) as nat;
        let x = squared_power(n, a, prev);
        lemma_squared_power_step(n, a, prev);
        lemma_square_root_of_one(n, x);
        if x == 1 {
            lemma_chain_to_one(n, a, prev);
            if squared_power(n, a, 0) != 1 {
                let j = choose|j: nat| j < prev && #[trigger] squared_power(n, a, j) == n - 1;
                assert(j < r && squared_power(n, a, j) == n - 1);
            }
        } else {
            assert(prev < r && squared_power(n, a, prev) == n - 1);
        }
    }
}

/// A prime passes every base that it does not divide.
pub proof fn lemma_prime_passes_base(n: nat, a: nat)
    requires
        is_prime(n),
        a % n != 0,
    ensures
        passes_base(n, a),
{
    let m = (n - 1) as nat;
    let k = two_adic(m);
    let q = odd_part(m);
    lemma_two_adic_split(m);
    assert(q * pow2(k) == m) by (nonlinear_arith)
        requires
            m == pow2(k) * q,
    ;
    lemma_fermat(n, a);
    lemma_chain_to_one(n, a, k);
    if squared_power(n, a, 0) != 1 {
        let j = choose|j: nat| j < k && #[trigger] squared_power(n, a, j) == n - 1;
        assert(j <= k && squared_power(n, a, j) == n - 1);
    }
}

/// A prime above 3 passes the fixed bases and the base of every draw that
/// is no multiple of it; a prime above 65535 passes whatever is drawn.
pub proof fn lemma_prime_passes_all(n: nat, draws: Seq<u16>)
    requires
        is_prime(n),
        n > 3,
        n >= 0x1_0000 || forall|i: int|
            0 <= i < draws.len() ==> (#[trigger] drawn_base(draws[i])) % n != 0,
    ensures
        passes_all(n, draws),
{
    lemma_small_mod(2, n);
    lemma_small_mod(3, n);
    lemma_prime_passes_base(n, 2);
    lemma_prime_passes_base(n, 3);
    assert forall|i: int| 0 <= i < draws.len() implies passes_base(
        n,
        #[trigger] drawn_base(draws[i]),
    ) by {
        let d = draws[i];
        if n >= 0x1_0000 {
            assert(d | 2 >= 2) by (bit_vector);
            lemma_small_mod(drawn_base(d), n);
        }
        lemma_prime_passes_base(n, drawn_base(d));
    }
}

/// The square of a number below `n` takes no more words than a table of
/// `bit_length(n) / 16 + 1` entries covers.
pub proof fn lemma_square_fits(words: Seq<u32>, c: nat, n: nat)
    requires
        is_canonical(words),
        words_value(words) == c * c,
        c < n,
    ensures
        words.len() <= bit_length(n) / 16 + 1,
{
    if words.len() > 0 {
        let b = bit_length(n);
        let w = (words.len() - 1) as nat;
        lemma_bit_length_bounds(n);
        lemma_pow2_adds(b, b);
        assert(c * c < pow2(b) * pow2(b)) by (nonlinear_arith)
            requires
                c < n,
                n < pow2(b),
        ;
        lemma_words_value_lower(words);
        lemma_radix_pow_is_pow2(w);
        if 32 * w >= 2 * b {
            lemma_pow2_monotone(2 * b, 32 * w);
        }
    }
}

/// Counts the factors of two of a positive number: 32 for every zero word
/// at the low end, and the trailing zero bits of the first nonzero word.
pub fn count_twos(m: &Natural) -> (k: usize)
    requires
        m@ > 0,
        m.word_count() * 32 <= usize::MAX,
    ensures
        k == two_adic(m@),
{
    let digits = m.words();
    let mut k: usize = 0;
    let mut i: usize = 0;
    while i < digits.len()
        invariant
            i <= digits@.len(),
            digits@.len() * 32 <= usize::MAX,
            k == 32 * i,
            forall|j: int| 0 <= j < i ==> digits@[j] == 0,
            words_value(digits@) == m@,
        decreases digits@.len() - i,
    {
        let d = digits[i];
        proof {
            axiom_u32_trailing_zeros(d);
        }
        k += d.trailing_zeros() as usize;
        if d != 0 {
            proof {
                lemma_trailing_zeros_factor(d);
                let t = u32_trailing_zeros(d) as nat;
                lemma_words_two_adic(digits@, i as nat, t, (d as nat) / pow2(t));
            }
            return k;
        }
        i += 1;
    }
    proof {
        lemma_low_zero_words(digits@, digits@.len());
        assert(digits@.skip(digits@.len() as int) =~= Seq::<u32>::empty());
        assert(words_value(digits@) == 0) by (nonlinear_arith)
            requires
                words_value(digits@) == radix_pow(digits@.len()) * 0,
        ;
    }
    k
}

/// What the witness test needs of a candidate, computed once: the
/// candidate `n` itself, `n - 1`, its odd part and its count of factors of
/// two, and the reduction table for `n`, long enough for the square of any
/// number below `n`.
pub struct WitnessTest {
    modulus: Natural,
    minus_one: Natural,
    odd: Natural,
    twos: usize,
    table: Vec<Natural>,
}

/// The values that the witness test on `n` works with.
pub open spec fn prepared(n: nat, minus_one: nat, odd: nat, twos: nat, weights: Seq<nat>) -> bool {
    &&& n > 1
    &&& minus_one == n - 1
    &&& odd == odd_part((n - 1) as nat)
    &&& twos == two_adic((n - 1) as nat)
    &&& weights.len() == bit_length(n) / 16 + 1
    &&& is_reduction_table(weights, n)
}

impl WitnessTest {
    /// The candidate that the test is for.
    pub closed spec fn modulus(&self) -> nat {
        self.modulus@
    }

    /// The invariant of the type: the values are those that the witness
    /// test on the candidate works with.
    #[verifier::type_invariant]
    pub closed spec fn wf(&self) -> bool {
        prepared(
            self.modulus@,
            self.minus_one@,
            self.odd@,
            self.twos as nat,
            big_weights(self.table@),
        )
    }

    /// Factors `n - 1` into an odd number and a power of two, and builds the
    /// reduction table for `n`.
    pub fn new(n: &Natural) -> (t: WitnessTest)
        requires
            n@ > 3,
            n@ % 2 == 1,
            n.word_count() * 32 <= usize::MAX,
        ensures
            t.modulus() == n@,
    {
        let minus_one = minus_word(n, 1);
        proof {
            use_type_invariant(&minus_one);
            use_type_invariant(n);
            minus_one.lemma_canonical();
            n.lemma_canonical();
            lemma_fewer_words(minus_one.spec_words(), n.spec_words());
        }
        let twos = count_twos(&minus_one);
        let odd = shift_right(&minus_one, twos);
        let limit = n.bits() / 16;
        let table = precompute_bignum_bignum(limit, n);
        WitnessTest { modulus: n.clone(), minus_one, odd, twos, table }
    }

    /// The candidate less one.
    pub fn minus_one(&self) -> (r: &Natural)
        ensures
            r@ == self.modulus() - 1,
    {
        proof {
            use_type_invariant(self);
        }
        &self.minus_one
    }

    /// The odd part of the candidate less one.
    pub fn odd(&self) -> (r: &Natural)
        ensures
            r@ == odd_part((self.modulus() - 1) as nat),
    {
        proof {
            use_type_invariant(self);
        }
        &self.odd
    }

    /// How many factors of two the candidate less one has.
    pub fn twos(&self) -> (r: usize)
        ensures
            r == two_adic((self.modulus() - 1) as nat),
    {
        proof {
            use_type_invariant(self);
        }
        self.twos
    }

    /// The reduction table for the candidate.
    pub fn table(&self) -> (r: &Vec<Natural>)
        ensures
            r@.len() == bit_length(self.modulus()) / 16 + 1,
            is_reduction_table(big_weights(r@), self.modulus()),
    {
        proof {
            use_type_invariant(self);
        }
        &self.table
    }

    /// Whether the base `a` exposes the candidate as composite.
    pub fn is_witness(&self, a: u32) -> (r: bool)
        ensures
            r == !passes_base(self.modulus(), a as nat),
    {
        proof {
            use_type_invariant(self);
        }
        let n = &self.modulus;
        let base = Natural::from_u32(a);
        let one = Natural::from_u32(1);
        let mut cur_power = modpow(&base, &self.odd, n);
        proof {
            lemma2_to64();
            assert(self.odd@ * pow2(0) == self.odd@);
            lemma_squared_power_step(n@, a as nat, 0);
        }
        if cur_power.is_equal(&one) {
            return false;
        }
        if cur_power.is_equal(&self.minus_one) {
            return false;
        }
        let mut done: usize = 0;
        while done < self.twos
            invariant
                n@ == self.modulus@,
                self.wf(),
                done <= self.twos,
                cur_power@ == squared_power(n@, a as nat, done as nat),
                squared_power(n@, a as nat, 0) != 1,
                forall|r: nat| r <= done ==> #[trigger] squared_power(n@, a as nat, r) != n@ - 1,
            decreases self.twos - done,
        {
            let square = times(&cur_power, &cur_power);
            proof {
                lemma_squared_power_step(n@, a as nat, done as nat);
                use_type_invariant(&square);
                square.lemma_canonical();
                lemma_square_fits(square.spec_words(), cur_power@, n@);
            }
            cur_power = fastmod_bignum_bignum(&square, n, &self.table);
            done += 1;
            if cur_power.is_equal(&self.minus_one) {
                return false;
            }
        }
        true
    }
}

/// The Miller-Rabin test on the fixed bases 2 and 3 and on the bases that
/// `draws` stand for, in that order, rejecting at the first witness.
pub fn miller_rabin_with_bases(n: &Natural, draws: &Vec<u16>) -> (r: bool)
    requires
        n@ > 3,
        n@ % 2 == 1,
        n.word_count() * 32 <= usize::MAX,
    ensures
        r == passes_all(n@, draws@),
{
    let test = WitnessTest::new(n);
    if test.is_witness(2) {
        return false;
    }
    if test.is_witness(3) {
        return false;
    }
    let mut i: usize = 0;
    while i < draws.len()
        invariant
            n@ > 3,
            test.modulus() == n@,
            i <= draws@.len(),
            forall|j: int| 0 <= j < i ==> passes_base(n@, #[trigger] drawn_base(draws@[j])),
        decreases draws@.len() - i,
    {
        let a = draws[i] | 2;
        if test.is_witness(a as u32) {
            assert(!passes_base(n@, drawn_base(draws@[i as int])));
            return false;
        }
        i += 1;
    }
    true
}

/// What the test on random bases may return for `n`: the verdict on the
/// fixed bases and on the draws that were made, in number `RANDOM_BASES`
/// where `n` was accepted and no more than that where it was rejected.
pub open spec fn random_verdict(n: nat, accepted: bool) -> bool {
    exists|draws: Seq<u16>|
        draws.len() <= RANDOM_BASES && (accepted ==> draws.len() == RANDOM_BASES) && accepted
            == #[trigger] passes_all(n, draws)
}

/// Whatever is drawn, a prime above 65535 is accepted, an accepted number
/// passes the bases 2 and 3, and a rejected one has a witness between 2
/// and 65535.
pub proof fn lemma_random_verdict(n: nat, accepted: bool)
    requires
        n > 3,
        random_verdict(n, accepted),
    ensures
        is_prime(n) && n >= 0x1_0000 ==> accepted,
        accepted ==> passes_base(n, 2) && passes_base(n, 3),
        !accepted ==> exists|a: nat| 2 <= a < 0x1_0000 && !passes_base(n, a),
{
    let draws = choose|draws: Seq<u16>|
        draws.len() <= RANDOM_BASES && (accepted ==> draws.len() == RANDOM_BASES) && accepted
            == #[trigger] passes_all(n, draws);
    if is_prime(n) && n >= 0x1_0000 {
        lemma_prime_passes_all(n, draws);
    }
    if !accepted {
        if passes_base(n, 2) && passes_base(n, 3) {
            let i = choose|i: int|
                0 <= i < draws.len() && !passes_base(n, #[trigger] drawn_base(draws[i]));
            let d = draws[i];
            assert(2 <= d | 2 <= 0xffff) by (bit_vector);
            assert(2 <= drawn_base(d) < 0x1_0000 && !passes_base(n, drawn_base(d)));
        } else if !passes_base(n, 2) {
            assert(2 <= 2nat < 0x1_0000 && !passes_base(n, 2));
        } else {
            assert(2 <= 3nat < 0x1_0000 && !passes_base(n, 3));
        }
    }
}

/// The Miller-Rabin test on the fixed bases 2 and 3 and on up to
/// `RANDOM_BASES` random bases, each a 16-bit draw with bit 1 set. The
/// test stops at the first witness. A prime above 65535 is always
/// accepted.
pub fn miller_rabin(n: &Natural) -> (r: bool)
    requires
        n@ > 3,
        n@ % 2 == 1,
        n.word_count() * 32 <= usize::MAX,
    ensures
        random_verdict(n@, r),
        is_prime(n@) && n@ >= 0x1_0000 ==> r,
{
    let test = WitnessTest::new(n);
    let ghost mut drawn: Seq<u16> = Seq::empty();
    if test.is_witness(2) || test.is_witness(3) {
        proof {
            assert(!passes_all(n@, drawn));
            lemma_random_verdict(n@, false);
        }
        return false;
    }
    let mut i: usize = 0;
    while i < RANDOM_BASES
        invariant
            n@ > 3,
            test.modulus() == n@,
            i <= RANDOM_BASES,
            drawn.len() == i,
            passes_all(n@, drawn),
        decreases RANDOM_BASES - i,
    {
        let draw = random_u16();
        let a = draw | 2;
        proof {
            drawn = drawn.push(draw);
        }
        if test.is_witness(a as u32) {
            proof {
                assert(!passes_base(n@, drawn_base(drawn[i as int])));
                assert(!passes_all(n@, drawn));
                lemma_random_verdict(n@, false);
            }
            return false;
        }
        i += 1;
    }
    proof {
        assert(passes_all(n@, drawn));
        lemma_random_verdict(n@, true);
    }
    true
}

} // verus!
