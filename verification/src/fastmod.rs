//! Reduction tables and table-based modular reduction.
//!
//! A table for a modulus `k` lists the residues of the radix's powers. A
//! number is then reduced by weighting each of its words with the matching
//! table entry and reducing the sum once.

use vstd::prelude::*;
use vstd::arithmetic::div_mod::{
    lemma_add_mod_noop, lemma_mod_twice, lemma_mul_mod_noop_left, lemma_mul_mod_noop_right,
    lemma_small_mod,
};
use vstd::arithmetic::power2::lemma2_to64;
use crate::bigint::{modulo, plus, shift_left, times_word};
use crate::natural::Natural;
use crate::radix::{
    lemma_fewer_words, lemma_radix_pow, radix, radix_pow, table_entry, weighted_sum, words_value,
};

verus! {

/// The entries of a one-word table as numbers.
pub open spec fn word_weights(table: Seq<u32>) -> Seq<nat> {
    table.map_values(|w: u32| w as nat)
}

/// The entries of a table of big numbers as numbers.
pub open spec fn big_weights(table: Seq<Natural>) -> Seq<nat> {
    table.map_values(|n: Natural| n@)
}

/// `weights` is the reduction table for modulus `k`: it starts at 1 and
/// entry `i > 0` is the `i`-th power of the radix reduced by `k`.
pub open spec fn is_reduction_table(weights: Seq<nat>, k: nat) -> bool {
    forall|i: int| 0 <= i < weights.len() ==> #[trigger] weights[i] == table_entry(k, i as nat)
}

/// Stepping a table entry: the next entry is the current one times the
/// radix, reduced by `k`.
pub proof fn lemma_table_entry_step(k: nat, i: nat)
    requires
        k > 0,
    ensures
        table_entry(k, i + 1) == (table_entry(k, i) * radix()) % k,
{
    lemma_radix_pow(i);
    if i > 0 {
        lemma_mul_mod_noop_left(radix_pow(i) as int, radix() as int, k as int);
    }
}

/// Every table entry is congruent to its power of the radix, and the first
/// entry is 1 reduced by the modulus whenever the modulus exceeds 1.
pub proof fn lemma_table_entry_congruent(k: nat, i: nat)
    requires
        k > 0,
    ensures
        table_entry(k, i) % k == radix_pow(i) % k,
        table_entry(k, 0) % k == 1nat % k,
        k > 1 ==> table_entry(k, 0) == 1nat % k,
{
    lemma_radix_pow(i);
    if i > 0 {
        lemma_mod_twice(radix_pow(i) as int, k as int);
    }
    if k > 1 {
        lemma_small_mod(1, k);
    }
}

/// Extending the weighted sum by one word adds that word times its weight.
pub proof fn lemma_weighted_sum_step(words: Seq<u32>, weights: Seq<nat>, i: int)
    requires
        0 <= i < words.len(),
    ensures
        weighted_sum(words.take(i + 1), weights) == weighted_sum(words.take(i), weights) + (
        words[i] as nat) * weights[i],
{
    assert(words.take(i + 1).drop_last() =~= words.take(i));
}

/// Weights that are congruent to the radix's powers modulo `k` make the
/// weighted sum of a number's words congruent to the number itself.
pub proof fn lemma_weighted_sum_congruent(words: Seq<u32>, weights: Seq<nat>, k: nat)
    requires
        k > 0,
        words.len() <= weights.len(),
        forall|i: int| 0 <= i < words.len() ==> #[trigger] weights[i] % k == radix_pow(i as nat) % k,
    ensures
        weighted_sum(words, weights) % k == words_value(words) % k,
    decreases words.len(),
{
    if words.len() > 0 {
        let m = words.len() - 1;
        let front = words.drop_last();
        let top = words.last() as int;
        let w = weights[m] as int;
        let p = radix_pow(m as nat) as int;
        let kk = k as int;
        lemma_weighted_sum_congruent(front, weights, k);
        assert(weights[m] % k == radix_pow(m as nat) % k);
        assert((top * w) % kk == (top * p) % kk) by {
            lemma_mul_mod_noop_right(top, w, kk);
            lemma_mul_mod_noop_right(top, p, kk);
        }
        lemma_add_mod_noop(weighted_sum(front, weights) as int, top * w, kk);
        lemma_add_mod_noop(words_value(front) as int, top * p, kk);
    }
}

/// Reducing a number through the reduction table of `k` gives the number's
/// residue modulo `k`.
pub proof fn lemma_table_reduces(words: Seq<u32>, weights: Seq<nat>, k: nat)
    requires
        k > 0,
        words.len() <= weights.len(),
        is_reduction_table(weights, k),
    ensures
        weighted_sum(words, weights) % k == words_value(words) % k,
{
    assert forall|i: int| 0 <= i < words.len() implies #[trigger] weights[i] % k == radix_pow(
        i as nat,
    ) % k by {
        lemma_table_entry_congruent(k, i as nat);
    }
    lemma_weighted_sum_congruent(words, weights, k);
}

/// Builds the table of `limit + 1` residues of the radix's powers modulo
/// `k`, each entry a big number.
pub fn precompute_bignum_bignum(limit: usize, k: &Natural) -> (table: Vec<Natural>)
    requires
        k@ != 0,
        limit < usize::MAX,
        k.word_count() + 2 <= usize::MAX,
    ensures
        table@.len() == limit + 1,
        is_reduction_table(big_weights(table@), k@),
        table@[0]@ % k@ == 1nat % k@,
        k@ > 1 ==> table@[0]@ == 1nat % k@,
{
    proof {
        lemma_table_entry_congruent(k@, 0);
    }
    let mut last_pow = Natural::from_u32(1);
    let mut ret: Vec<Natural> = Vec::with_capacity(limit);
    let mut i: usize = 0;
    proof {
        use_type_invariant(&last_pow);
        last_pow.lemma_canonical();
        lemma_fewer_words(last_pow.spec_words(), k.spec_words());
    }
    while i < limit + 1
        invariant
            k@ != 0,
            limit < usize::MAX,
            k.word_count() + 2 <= usize::MAX,
            i <= limit + 1,
            ret@.len() == i,
            last_pow@ == table_entry(k@, i as nat),
            last_pow.word_count() <= k.word_count(),
            is_reduction_table(big_weights(ret@), k@),
        decreases limit + 1 - i,
    {
        let shifted = shift_left(&last_pow, 32);
        let next = modulo(&shifted, k);
        proof {
            lemma2_to64();
            lemma_table_entry_step(k@, i as nat);
            use_type_invariant(&next);
            next.lemma_canonical();
            lemma_fewer_words(next.spec_words(), k.spec_words());
            assert(big_weights(ret@.push(last_pow)) =~= big_weights(ret@).push(last_pow@));
        }
        ret.push(last_pow);
        last_pow = next;
        i += 1;
    }
    proof {
        assert(big_weights(ret@)[0] == ret@[0]@);
    }
    ret
}

/// Builds the table of `limit + 1` residues of the radix's powers modulo the
/// one-word modulus `k`.
pub fn precompute_bignum_u32(limit: usize, k: u32) -> (table: Vec<u32>)
    requires
        k > 0,
        limit < usize::MAX,
    ensures
        table@.len() == limit + 1,
        is_reduction_table(word_weights(table@), k as nat),
        (table@[0] as nat) % (k as nat) == 1nat % (k as nat),
        k > 1 ==> table@[0] as nat == 1nat % (k as nat),
{
    proof {
        lemma_table_entry_congruent(k as nat, 0);
    }
    let mut last_pow: u32 = 1;
    let mut ret: Vec<u32> = Vec::with_capacity(limit);
    let mut i: usize = 0;
    while i < limit + 1
        invariant
            k > 0,
            limit < usize::MAX,
            i <= limit + 1,
            ret@.len() == i,
            last_pow as nat == table_entry(k as nat, i as nat),
            is_reduction_table(word_weights(ret@), k as nat),
        decreases limit + 1 - i,
    {
        let wide: u64 = last_pow as u64;
        proof {
            assert(wide << 32 == wide * 0x1_0000_0000) by (bit_vector)
                requires
                    wide <= 0xffff_ffff,
            ;
            lemma_table_entry_step(k as nat, i as nat);
            assert(word_weights(ret@.push(last_pow)) =~= word_weights(ret@).push(last_pow as nat));
        }
        ret.push(last_pow);
        last_pow = ((wide << 32) % (k as u64)) as u32;
        i += 1;
    }
    proof {
        assert(word_weights(ret@)[0] == ret@[0] as nat);
    }
    ret
}

/// Reduces `n` through a table of big numbers: the weighted sum of the
/// words of `n`, reduced once by `k`. With the reduction table of `k` this
/// is `n` modulo `k`.
pub fn fastmod_bignum_bignum(n: &Natural, k: &Natural, precomputed: &Vec<Natural>) -> (r: Natural)
    requires
        k@ != 0,
        n.word_count() <= precomputed@.len(),
    ensures
        r@ == weighted_sum(n.spec_words(), big_weights(precomputed@)) % k@,
        is_reduction_table(big_weights(precomputed@), k@) ==> r@ == n@ % k@,
{
    let mut sum = Natural::zero();
    let digits = n.words();
    let ghost weights = big_weights(precomputed@);
    let mut i: usize = 0;
    while i < digits.len()
        invariant
            i <= digits@.len(),
            digits@.len() <= precomputed@.len(),
            weights == big_weights(precomputed@),
            sum@ == weighted_sum(digits@.take(i as int), weights),
        decreases digits@.len() - i,
    {
        let term = times_word(&precomputed[i], digits[i]);
        proof {
            lemma_weighted_sum_step(digits@, weights, i as int);
            assert(weights[i as int] == precomputed@[i as int]@);
            assert(term@ == (digits@[i as int] as nat) * weights[i as int]) by (nonlinear_arith)
                requires
                    term@ == weights[i as int] * (digits@[i as int] as nat),
            ;
        }
        sum = plus(&sum, &term);
        i += 1;
    }
    proof {
        assert(digits@.take(i as int) =~= digits@);
        if is_reduction_table(weights, k@) {
            lemma_table_reduces(digits@, weights, k@);
        }
    }
    modulo(&sum, k)
}

/// Reduces `n` through a table of words: the weighted sum of the words of
/// `n`, reduced once by `k`. With the reduction table of `k` this is `n`
/// modulo `k`.
pub fn fastmod_bignum_u32(n: &Natural, k: u32, precomputed: &Vec<u32>) -> (r: u32)
    requires
        k > 0,
        n.word_count() <= precomputed@.len(),
    ensures
        r as nat == weighted_sum(n.spec_words(), word_weights(precomputed@)) % (k as nat),
        is_reduction_table(word_weights(precomputed@), k as nat) ==> r as nat == n@ % (k as nat),
{
    let mut sum: u128 = 0;
    let digits = n.words();
    let ghost weights = word_weights(precomputed@);
    let mut i: usize = 0;
    while i < digits.len()
        invariant
            i <= digits@.len(),
            digits@.len() <= precomputed@.len(),
            weights == word_weights(precomputed@),
            sum as nat == weighted_sum(digits@.take(i as int), weights),
            sum <= i * 0xffff_fffe_0000_0001u128,
        decreases digits@.len() - i,
    {
        let weight: u128 = precomputed[i] as u128;
        let digit: u128 = digits[i] as u128;
        proof {
            lemma_weighted_sum_step(digits@, weights, i as int);
            assert(weight * digit <= 0xffff_fffe_0000_0001u128) by (nonlinear_arith)
                requires
                    weight <= 0xffff_ffff,
                    digit <= 0xffff_ffff,
            ;
            assert((i + 1) * 0xffff_fffe_0000_0001u128 <= u128::MAX) by (nonlinear_arith)
                requires
                    i + 1 <= 0xffff_ffff_ffff_ffff,
            ;
            assert(weight * digit == digit * weight) by (nonlinear_arith);
        }
        sum += weight * digit;
        i += 1;
    }
    proof {
        assert(digits@.take(i as int) =~= digits@);
        if is_reduction_table(weights, k as nat) {
            lemma_table_reduces(digits@, weights, k as nat);
        }
    }
    (sum % (k as u128)) as u32
}

} // verus!
