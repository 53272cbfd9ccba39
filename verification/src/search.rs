//! The search: a context built once from the prefix text, and the step
//! that a worker repeats until it finds a probable prime.

use vstd::prelude::*;
use vstd::arithmetic::power2::{
    lemma2_to64, lemma_pow2_adds, lemma_pow2_pos, lemma_pow2_unfold, pow2,
};
use vstd::slice::slice_to_vec;
use crate::bigint::{be_value, from_bytes_be, shift_left};
use crate::bits::{bit_length, lemma_bit_length_bounds, lemma_words_for_bits};
use crate::candidate::{
    all_printable, candidate_bytes, candidate_value, is_be_encoding, is_printable,
    lemma_be_value_upper, lemma_candidate_printable, lemma_first_byte, lemma_suffix_bytes,
    lemma_suffix_value, make_candidate,
};
use crate::natural::Natural;
use crate::primality::{
    divides_some, exceeds_moduli, first_pass_primality_check, has_tables, miller_rabin,
    random_verdict,
};
use crate::rng::random_bytes;
use crate::sieve::{build_prime_tables, is_prime, lists_odd_primes, sieve_odd_primes};

verus! {

/// Why a search cannot start.
#[derive(Debug, Clone, Copy, PartialEq, Eq)]
pub enum ConfigError {
    /// The prefix text is empty.
    EmptyPrefix,
    /// The prefix text holds a byte that is not printable ASCII.
    UnprintablePrefix,
}

/// What every worker shares and none changes: the prefix text, the prefix
/// as the high-order part of every candidate, and the sieved primes with
/// their reduction tables.
pub struct SearchContext {
    text: Vec<u8>,
    prefix: Natural,
    sieve_bound: u32,
    small_primes: Vec<(u32, Vec<u32>)>,
}

/// The moduli of a list of primes with tables.
pub open spec fn moduli(list: Seq<(u32, Vec<u32>)>) -> Seq<u32> {
    list.map_values(|entry: (u32, Vec<u32>)| entry.0)
}

/// The longest prefix text whose candidates have a bit length that the
/// machine can count.
pub open spec fn max_text_len() -> nat {
    ((usize::MAX - 128) / 8) as nat
}

/// The prefix of a text lies below two to the power of its bit count.
pub proof fn lemma_prefix_bound(text: Seq<u8>)
    ensures
        be_value(text) * pow2(24) < pow2(8 * text.len() + 24),
{
    lemma_be_value_upper(text);
    lemma_pow2_adds(8 * text.len(), 24);
    lemma_pow2_pos(24);
    assert(be_value(text) * pow2(24) < pow2(8 * text.len()) * pow2(24)) by (nonlinear_arith)
        requires
            be_value(text) < pow2(8 * text.len()),
            pow2(24) > 0,
    ;
}

/// A candidate stays below twice its prefix, and so below two to the
/// prefix's bit length plus one; it is odd and no less than four spaces
/// would give.
pub proof fn lemma_candidate_bound(text: Seq<u8>, random: Seq<u8>)
    requires
        random.len() == 4,
        text.len() > 0,
        all_printable(text),
    ensures
        candidate_value(text, random) < pow2(bit_length(be_value(text) * pow2(24)) + 1),
        candidate_value(text, random) < pow2(8 * text.len() + 25),
        candidate_value(text, random) >= 0x2020_2021,
        candidate_value(text, random) % 2 == 1,
{
    let prefix = be_value(text) * pow2(24);
    let b = bit_length(prefix);
    lemma_suffix_bytes(random);
    lemma_suffix_value(random);
    lemma2_to64();
    lemma_be_value_upper(text);
    lemma_bit_length_bounds(prefix);
    lemma_pow2_unfold(b + 1);
    lemma_pow2_adds(8 * text.len(), 24);
    lemma_pow2_unfold(8 * text.len() + 25);
    lemma_first_byte(text);
    assert(prefix >= 0x2000_0000 && prefix % 2 == 0 && prefix < pow2(8 * text.len()) * 0x100_0000)
        by (nonlinear_arith)
        requires
            prefix == be_value(text) * 0x100_0000,
            be_value(text) >= 0x20,
            be_value(text) < pow2(8 * text.len()),
    ;
}

/// A text, a prefix, a sieve bound and a list of primes with tables that
/// belong together: the text is printable and not empty, the prefix is the
/// text moved up by three bytes, the moduli are the odd primes up to the
/// bound, and every modulus comes with its reduction table, long enough
/// for any candidate.
pub open spec fn consistent(
    text: Seq<u8>,
    prefix: nat,
    bound: nat,
    list: Seq<(u32, Vec<u32>)>,
) -> bool {
    &&& 0 < text.len() <= max_text_len()
    &&& all_printable(text)
    &&& prefix == be_value(text) * pow2(24)
    &&& lists_odd_primes(moduli(list), bound)
    &&& has_tables(list)
    &&& forall|i: int|
        0 <= i < list.len() ==> (#[trigger] list[i]).1@.len() == bit_length(prefix) / 32 + 2
}

/// The moduli of a list of odd primes up to `bound` lie between 2 and
/// whatever exceeds the bound.
pub proof fn lemma_sieved_moduli(list: Seq<(u32, Vec<u32>)>, bound: nat, n: nat)
    requires
        lists_odd_primes(moduli(list), bound),
        bound < n,
    ensures
        exceeds_moduli(list, n),
        forall|i: int| 0 <= i < list.len() ==> (#[trigger] list[i]).0 >= 3,
{
    assert forall|i: int| 0 <= i < list.len() implies 3 <= (#[trigger] list[i]).0 < n by {
        assert(moduli(list)[i] == list[i].0);
    }
}

impl SearchContext {
    /// The prefix text.
    pub closed spec fn text_view(&self) -> Seq<u8> {
        self.text@
    }

    /// The prefix: the high-order part of every candidate.
    pub closed spec fn prefix_value(&self) -> nat {
        self.prefix@
    }

    /// The bound of the sieve.
    pub closed spec fn bound_value(&self) -> nat {
        self.sieve_bound as nat
    }

    /// The sieved primes, each with its reduction table.
    pub closed spec fn prime_list(&self) -> Seq<(u32, Vec<u32>)> {
        self.small_primes@
    }

    /// The invariant of the type: text, prefix, bound and list belong
    /// together.
    #[verifier::type_invariant]
    pub closed spec fn wf(&self) -> bool {
        consistent(self.text@, self.prefix@, self.sieve_bound as nat, self.small_primes@)
    }

    /// Builds the context for a prefix text: the prefix, the odd primes up
    /// to `sieve_bound` and a table for each, sized for the candidates.
    /// An empty text and a text with an unprintable byte are refused.
    pub fn new(text: &[u8], sieve_bound: u32) -> (r: Result<SearchContext, ConfigError>)
        requires
            text@.len() <= max_text_len(),
            sieve_bound < usize::MAX,
        ensures
            match r {
                Ok(ctx) => {
                    &&& text@.len() > 0
                    &&& all_printable(text@)
                    &&& ctx.text_view() == text@
                    &&& ctx.bound_value() == sieve_bound
                    &&& consistent(
                        ctx.text_view(),
                        ctx.prefix_value(),
                        ctx.bound_value(),
                        ctx.prime_list(),
                    )
                },
                Err(e) => if text@.len() == 0 {
                    e == ConfigError::EmptyPrefix
                } else {
                    e == ConfigError::UnprintablePrefix && !all_printable(text@)
                },
            },
    {
        if text.len() == 0 {
            return Err(ConfigError::EmptyPrefix);
        }
        let mut i: usize = 0;
        while i < text.len()
            invariant
                i <= text@.len(),
                forall|j: int| 0 <= j < i ==> is_printable(#[trigger] text@[j]),
            decreases text@.len() - i,
        {
            if text[i] < 0x20 || text[i] > 0x7e {
                return Err(ConfigError::UnprintablePrefix);
            }
            i += 1;
        }
        let raw = from_bytes_be(text);
        proof {
            lemma_be_value_upper(text@);
            use_type_invariant(&raw);
            raw.lemma_canonical();
            lemma_words_for_bits(raw.spec_words(), 8 * text@.len());
        }
        let prefix = shift_left(&raw, 24);
        proof {
            lemma2_to64();
            lemma_pow2_adds(8 * text@.len(), 24);
            assert(prefix@ < pow2(8 * text@.len() + 24)) by (nonlinear_arith)
                requires
                    prefix@ == raw@ * pow2(24),
                    raw@ < pow2(8 * text@.len()),
                    pow2(8 * text@.len() + 24) == pow2(8 * text@.len()) * pow2(24),
                    pow2(24) > 0,
            ;
            use_type_invariant(&prefix);
            prefix.lemma_canonical();
            lemma_words_for_bits(prefix.spec_words(), 8 * text@.len() + 24);
        }
        let limit = prefix.bits() / 32 + 1;
        let primes = sieve_odd_primes(sieve_bound);
        let small_primes = build_prime_tables(&primes, limit);
        proof {
            assert(moduli(small_primes@) =~= primes@);
        }
        Ok(SearchContext { text: slice_to_vec(text), prefix, sieve_bound, small_primes })
    }

    /// The prefix text.
    pub fn text(&self) -> (r: &Vec<u8>)
        ensures
            r@ == self.text_view(),
            0 < r@.len() <= max_text_len(),
            all_printable(r@),
    {
        proof {
            use_type_invariant(self);
        }
        &self.text
    }

    /// The prefix: the text moved up by three bytes.
    pub fn prefix(&self) -> (r: &Natural)
        ensures
            r@ == self.prefix_value(),
            r@ == be_value(self.text_view()) * pow2(24),
            r.word_count() * 32 <= usize::MAX,
    {
        proof {
            use_type_invariant(self);
            use_type_invariant(&self.prefix);
            self.prefix.lemma_canonical();
            lemma_prefix_bound(self.text@);
            lemma_words_for_bits(self.prefix.spec_words(), 8 * self.text@.len() + 24);
        }
        &self.prefix
    }

    /// The bound of the sieve.
    pub fn sieve_bound(&self) -> (r: u32)
        ensures
            r == self.bound_value(),
    {
        self.sieve_bound
    }

    /// The sieved primes, each with its reduction table.
    pub fn small_primes(&self) -> (r: &Vec<(u32, Vec<u32>)>)
        ensures
            r@ == self.prime_list(),
            consistent(self.text_view(), self.prefix_value(), self.bound_value(), r@),
    {
        proof {
            use_type_invariant(self);
        }
        &self.small_primes
    }

    /// The candidate that four drawn bytes give; it is odd.
    pub fn candidate(&self, random: [u8; 4]) -> (c: Natural)
        ensures
            c@ == candidate_value(self.text_view(), random@),
            c@ % 2 == 1,
            c.word_count() * 32 + 8 <= usize::MAX,
    {
        proof {
            use_type_invariant(self);
            lemma_candidate_bound(self.text@, random@);
        }
        let c = make_candidate(&self.prefix, random);
        proof {
            use_type_invariant(&c);
            c.lemma_canonical();
            lemma_words_for_bits(c.spec_words(), 8 * self.text@.len() + 25);
        }
        c
    }

    /// The bytes that a candidate of this context shows as text: the
    /// prefix text followed by three more bytes, every one printable.
    pub fn text_of(&self, candidate: &Natural) -> (bytes: Vec<u8>)
        requires
            is_candidate_of(self.text_view(), candidate@),
        ensures
            is_be_encoding(bytes@, candidate@),
            bytes@.len() == self.text_view().len() + 3,
            bytes@.subrange(0, self.text_view().len() as int) == self.text_view(),
            all_printable(bytes@),
    {
        let ghost random = choose|random: Seq<u8>|
            random.len() == 4 && candidate@ == #[trigger] candidate_value(self.text@, random);
        proof {
            use_type_invariant(self);
            lemma_candidate_bound(self.text@, random);
            use_type_invariant(candidate);
            candidate.lemma_canonical();
            lemma_words_for_bits(candidate.spec_words(), 8 * self.text@.len() + 25);
        }
        let bytes = candidate_bytes(candidate);
        proof {
            lemma_candidate_printable(self.text@, random, bytes@);
            lemma_suffix_bytes(random);
            assert(bytes@.subrange(0, self.text@.len() as int) =~= self.text@);
        }
        bytes
    }
}

/// `c` is a candidate of the prefix text: some four drawn bytes give it.
pub open spec fn is_candidate_of(text: Seq<u8>, c: nat) -> bool {
    exists|random: Seq<u8>| random.len() == 4 && c == #[trigger] candidate_value(text, random)
}

/// What one attempt on the drawn bytes `random` may return. A candidate
/// that is returned is the one that the bytes give, has no sieved prime as
/// a divisor and was accepted by the test on random bases; where none is
/// returned, the candidate has a sieved divisor or was rejected by that
/// test.
pub open spec fn step_outcome(ctx: SearchContext, random: Seq<u8>, found: Option<Natural>) -> bool {
    let c = candidate_value(ctx.text_view(), random);
    match found {
        Some(n) => {
            &&& n@ == c
            &&& !divides_some(ctx.prime_list(), c)
            &&& random_verdict(c, true)
        },
        None => divides_some(ctx.prime_list(), c) || random_verdict(c, false),
    }
}

/// One attempt on given drawn bytes: builds the candidate, filters it by
/// the sieved primes and then runs the Miller-Rabin test. A candidate that
/// is prime and exceeds the sieve bound is always returned.
pub fn search_step(ctx: &SearchContext, random: [u8; 4]) -> (found: Option<Natural>)
    ensures
        step_outcome(*ctx, random@, found),
        is_prime(candidate_value(ctx.text_view(), random@)) && ctx.bound_value()
            < candidate_value(ctx.text_view(), random@) ==> found is Some,
{
    let this_guess = ctx.candidate(random);
    proof {
        use_type_invariant(ctx);
        lemma_candidate_bound(ctx.text@, random@);
        lemma_sieved_moduli(
            ctx.small_primes@,
            ctx.sieve_bound as nat,
            (ctx.sieve_bound + 1) as nat,
        );
        if ctx.sieve_bound < this_guess@ {
            lemma_sieved_moduli(ctx.small_primes@, ctx.sieve_bound as nat, this_guess@);
        }
        use_type_invariant(&this_guess);
        this_guess.lemma_canonical();
        lemma_words_for_bits(this_guess.spec_words(), bit_length(ctx.prefix@) + 1);
        lemma_words_for_bits(this_guess.spec_words(), 8 * ctx.text@.len() + 25);
    }
    if first_pass_primality_check(&this_guess, &ctx.small_primes) {
        if miller_rabin(&this_guess) {
            return Some(this_guess);
        }
    }
    None
}

/// A worker's own state: how many candidates it has tried.
pub struct Worker {
    pub attempts: u64,
}

impl Worker {
    /// A worker that has tried nothing yet.
    pub fn new() -> (w: Worker)
        ensures
            w.attempts == 0,
    {
        Worker { attempts: 0 }
    }

    /// One attempt on freshly drawn bytes, counted: what `search_step`
    /// returns on some four bytes.
    pub fn attempt(&mut self, ctx: &SearchContext) -> (found: Option<Natural>)
        requires
            old(self).attempts < u64::MAX,
        ensures
            final(self).attempts == old(self).attempts + 1,
            exists|random: Seq<u8>| random.len() == 4 && #[trigger] step_outcome(*ctx, random, found),
    {
        let random = random_bytes();
        self.attempts += 1;
        let found = search_step(ctx, random);
        assert(random@.len() == 4 && step_outcome(*ctx, random@, found));
        found
    }
}

} // verus!
