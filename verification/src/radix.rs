//! The positional model shared by the whole crate: numbers as little-endian
//! sequences of 32-bit words, and the residues of the word radix's powers.

use vstd::prelude::*;
use vstd::arithmetic::power::{
    pow, lemma_pow0, lemma_pow1, lemma_pow_adds, lemma_pow_increases, lemma_pow_positive,
};

verus! {

/// The word radix, 2^32.
pub open spec fn radix() -> nat {
    0x1_0000_0000
}

/// `radix()` raised to the power `i`.
pub open spec fn radix_pow(i: nat) -> nat {
    pow(radix() as int, i) as nat
}

/// The number that the little-endian words `words` denote:
/// the sum of `words[i] * radix()^i`.
pub open spec fn words_value(words: Seq<u32>) -> nat
    decreases words.len(),
{
    if words.len() == 0 {
        0
    } else {
        words_value(words.drop_last()) + (words.last() as nat) * radix_pow(
            (words.len() - 1) as nat,
        )
    }
}

/// `words` has no superfluous zero word at its most significant end.
pub open spec fn is_canonical(words: Seq<u32>) -> bool {
    words.len() > 0 ==> words.last() != 0
}

/// Entry `i` of the reduction table for modulus `k`: the table starts at 1
/// and every later entry is the previous one times the radix, reduced by `k`.
pub open spec fn table_entry(k: nat, i: nat) -> nat {
    if i == 0 {
        1
    } else {
        radix_pow(i) % k
    }
}

/// The sum of `words[i] * weights[i]` over the indices of `words`.
pub open spec fn weighted_sum(words: Seq<u32>, weights: Seq<nat>) -> nat
    recommends
        words.len() <= weights.len(),
    decreases words.len(),
{
    if words.len() == 0 {
        0
    } else {
        weighted_sum(words.drop_last(), weights) + (words.last() as nat) * weights[words.len() - 1]
    }
}

/// Powers of the radix are positive, start at 1 and grow by a factor of
/// the radix per step.
pub proof fn lemma_radix_pow(i: nat)
    ensures
        radix_pow(i) > 0,
        radix_pow(0) == 1,
        radix_pow(1) == radix(),
        radix_pow(i + 1) == radix_pow(i) * radix(),
{
    let r = radix() as int;
    lemma_pow_positive(r, i);
    lemma_pow_positive(r, i + 1);
    lemma_pow0(r);
    lemma_pow1(r);
    lemma_pow_adds(r, i, 1);
}

/// Appending a most significant word adds that word times the matching
/// power of the radix.
pub proof fn lemma_words_value_push(words: Seq<u32>, w: u32)
    ensures
        words_value(words.push(w)) == words_value(words) + (w as nat) * radix_pow(words.len()),
{
    assert(words.push(w).drop_last() =~= words);
}

/// A number of `n` words lies below the `n`-th power of the radix.
pub proof fn lemma_words_value_upper(words: Seq<u32>)
    ensures
        words_value(words) < radix_pow(words.len()),
    decreases words.len(),
{
    if words.len() == 0 {
        lemma_radix_pow(0);
    } else {
        let m = (words.len() - 1) as nat;
        lemma_words_value_upper(words.drop_last());
        lemma_radix_pow(m);
        let top = words.last() as nat;
        let p = radix_pow(m);
        assert(top * p + p <= radix() * p) by (nonlinear_arith)
            requires
                top + 1 <= radix(),
        ;
        assert(radix_pow(m + 1) == radix() * p) by (nonlinear_arith)
            requires
                radix_pow(m + 1) == p * radix(),
        ;
    }
}

/// A canonical number of `n > 0` words is at least the `(n-1)`-th power of
/// the radix.
pub proof fn lemma_words_value_lower(words: Seq<u32>)
    requires
        words.len() > 0,
        words.last() != 0,
    ensures
        words_value(words) >= radix_pow((words.len() - 1) as nat),
{
    let m = (words.len() - 1) as nat;
    let top = words.last() as nat;
    let p = radix_pow(m);
    assert(top * p >= p) by (nonlinear_arith)
        requires
            top >= 1,
    ;
}

/// The radix's powers do not shrink as the exponent grows.
pub proof fn lemma_radix_pow_monotone(i: nat, j: nat)
    requires
        i <= j,
    ensures
        radix_pow(i) <= radix_pow(j),
{
    let r = radix() as int;
    lemma_pow_positive(r, i);
    lemma_pow_positive(r, j);
    lemma_pow_increases(r as nat, i, j);
}

/// A canonical number has no more words than any number at least as large.
pub proof fn lemma_fewer_words(a: Seq<u32>, b: Seq<u32>)
    requires
        is_canonical(a),
        words_value(a) <= words_value(b),
    ensures
        a.len() <= b.len(),
{
    if a.len() > b.len() {
        lemma_words_value_lower(a);
        lemma_words_value_upper(b);
        lemma_radix_pow_monotone(b.len(), (a.len() - 1) as nat);
    }
}

/// Splitting off the least significant word: the rest counts radix-fold.
pub proof fn lemma_words_value_low(words: Seq<u32>)
    requires
        words.len() > 0,
    ensures
        words_value(words) == (words[0] as nat) + radix() * words_value(words.skip(1)),
    decreases words.len(),
{
    if words.len() == 1 {
        assert(words.drop_last() =~= Seq::<u32>::empty());
        assert(words.skip(1) =~= Seq::<u32>::empty());
        lemma_radix_pow(0);
        assert(words_value(words.drop_last()) == 0);
        assert(words_value(words.skip(1)) == 0);
    } else {
        let m = (words.len() - 1) as nat;
        let front = words.drop_last();
        lemma_words_value_low(front);
        assert(front.skip(1) =~= words.skip(1).drop_last());
        assert(front[0] == words[0]);
        assert(words.skip(1).last() == words.last());
        let top = words.last() as nat;
        let rest = words_value(front.skip(1));
        lemma_radix_pow((m - 1) as nat);
        let p = radix_pow((m - 1) as nat);
        assert(radix_pow(m) == p * radix());
        assert(radix() * (rest + top * p) == radix() * rest + top * (p * radix()))
            by (nonlinear_arith);
    }
}

} // verus!
