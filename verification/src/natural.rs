//! Arbitrary-precision natural numbers held as little-endian 32-bit words.

use vstd::prelude::*;
use crate::bits::{bit_length, lemma_words_bit_length};
use crate::radix::{
    is_canonical, lemma_radix_pow, lemma_words_value_low, lemma_words_value_lower,
    lemma_words_value_push, radix, radix_pow, words_value,
};

verus! {

/// A natural number of any size. Its words are kept canonical, so two
/// values denote the same number exactly when their words agree.
#[derive(Debug, PartialEq, Eq)]
pub struct Natural {
    pub(crate) words: Vec<u32>,
}

impl View for Natural {
    type V = nat;

    open spec fn view(&self) -> nat {
        words_value(self.spec_words())
    }
}

/// Two canonical word sequences that denote the same number are equal.
pub proof fn lemma_canonical_unique(a: Seq<u32>, b: Seq<u32>)
    requires
        is_canonical(a),
        is_canonical(b),
        words_value(a) == words_value(b),
    ensures
        a == b,
    decreases a.len() + b.len(),
{
    if a.len() == 0 || b.len() == 0 {
        if a.len() > 0 {
            lemma_words_value_lower(a);
            lemma_radix_pow((a.len() - 1) as nat);
        }
        if b.len() > 0 {
            lemma_words_value_lower(b);
            lemma_radix_pow((b.len() - 1) as nat);
        }
        assert(a =~= b);
    } else {
        lemma_words_value_low(a);
        lemma_words_value_low(b);
        let ra = words_value(a.skip(1));
        let rb = words_value(b.skip(1));
        let r = radix();
        assert(a[0] == b[0] && ra == rb) by (nonlinear_arith)
            requires
                (a[0] as nat) + r * ra == (b[0] as nat) + r * rb,
                (a[0] as nat) < r,
                (b[0] as nat) < r,
                r > 0,
        ;
        assert(is_canonical(a.skip(1))) by {
            if a.skip(1).len() > 0 {
                assert(a.skip(1).last() == a.last());
            }
        }
        assert(is_canonical(b.skip(1))) by {
            if b.skip(1).len() > 0 {
                assert(b.skip(1).last() == b.last());
            }
        }
        lemma_canonical_unique(a.skip(1), b.skip(1));
        assert(a =~= seq![a[0]] + a.skip(1));
        assert(b =~= seq![b[0]] + b.skip(1));
    }
}

impl Clone for Natural {
    fn clone(&self) -> (r: Natural)
        ensures
            r@ == self@,
            r.spec_words() == self.spec_words(),
    {
        proof {
            use_type_invariant(self);
        }
        Natural { words: self.words.clone() }
    }
}

impl Natural {
    /// The little-endian words of the number.
    pub closed spec fn spec_words(&self) -> Seq<u32> {
        self.words@
    }

    /// The number of words that the number takes.
    pub open spec fn word_count(&self) -> nat {
        self.spec_words().len()
    }

    /// The invariant of the type: the words are canonical.
    #[verifier::type_invariant]
    pub closed spec fn canonical(&self) -> bool {
        is_canonical(self.words@)
    }

    /// What the invariant says of the words.
    pub proof fn lemma_canonical(&self)
        requires
            self.canonical(),
        ensures
            is_canonical(self.spec_words()),
    {
    }

    /// The number zero.
    pub fn zero() -> (n: Natural)
        ensures
            n@ == 0,
            n.word_count() == 0,
    {
        Natural { words: Vec::new() }
    }

    /// The number held by one machine word.
    pub fn from_u32(x: u32) -> (n: Natural)
        ensures
            n@ == x,
            n.spec_words() == if x == 0 {
                Seq::<u32>::empty()
            } else {
                seq![x]
            },
    {
        let mut words: Vec<u32> = Vec::new();
        if x != 0 {
            words.push(x);
            proof {
                lemma_radix_pow(0);
                lemma_words_value_push(Seq::<u32>::empty(), x);
                assert(words@ =~= Seq::<u32>::empty().push(x));
                assert((x as nat) * 1 == x as nat);
                assert(words_value(Seq::<u32>::empty()) == 0);
            }
        }
        Natural { words }
    }

    /// The number denoted by little-endian words; superfluous zero words at
    /// the most significant end are dropped.
    pub fn from_words(words: Vec<u32>) -> (n: Natural)
        ensures
            n@ == words_value(words@),
            n.word_count() <= words@.len(),
            is_canonical(words@) ==> n.spec_words() == words@,
    {
        let mut words = words;
        let ghost given = words@;
        while words.len() > 0 && words[words.len() - 1] == 0
            invariant
                words_value(words@) == words_value(given),
                words@.len() <= given.len(),
                is_canonical(given) ==> words@ == given,
            decreases words.len(),
        {
            proof {
                let p = radix_pow((words@.len() - 1) as nat);
                assert((words@.last() as nat) * p == 0) by (nonlinear_arith)
                    requires
                        words@.last() == 0,
                ;
            }
            words.pop();
        }
        Natural { words }
    }

    /// The canonical little-endian words of the number.
    pub fn words(&self) -> (w: &Vec<u32>)
        ensures
            w@ == self.spec_words(),
            is_canonical(w@),
            words_value(w@) == self@,
    {
        proof {
            use_type_invariant(self);
        }
        &self.words
    }

    /// The fewest bits that express the number.
    pub fn bits(&self) -> (r: usize)
        requires
            self.word_count() * 32 <= usize::MAX,
        ensures
            r == bit_length(self@),
    {
        let len = self.words.len();
        if len == 0 {
            return 0;
        }
        let zeros = self.words[len - 1].leading_zeros();
        proof {
            use_type_invariant(self);
            lemma_words_bit_length(self.words@);
        }
        len * 32 - zeros as usize
    }

    /// Whether the number is zero.
    pub fn is_zero(&self) -> (r: bool)
        ensures
            r == (self@ == 0),
    {
        proof {
            use_type_invariant(self);
            if self.words@.len() > 0 {
                lemma_words_value_lower(self.words@);
                lemma_radix_pow((self.words@.len() - 1) as nat);
            }
        }
        self.words.len() == 0
    }

    /// Whether the number is odd.
    pub fn is_odd(&self) -> (r: bool)
        ensures
            r == (self@ % 2 == 1),
    {
        if self.words.len() == 0 {
            false
        } else {
            let low = self.words[0];
            proof {
                lemma_words_value_low(self.words@);
                let rest = words_value(self.words@.skip(1));
                assert(((low as nat) + 0x1_0000_0000 * rest) % 2 == (low as nat) % 2)
                    by (nonlinear_arith);
                assert((low & 1 == 1) == (low % 2 == 1)) by (bit_vector);
            }
            low & 1 == 1
        }
    }

    /// Whether two numbers are the same.
    pub fn is_equal(&self, other: &Natural) -> (r: bool)
        ensures
            r == (self@ == other@),
    {
        proof {
            use_type_invariant(self);
            use_type_invariant(other);
            if self@ == other@ {
                lemma_canonical_unique(self.words@, other.words@);
            }
        }
        if self.words.len() != other.words.len() {
            return false;
        }
        let mut i: usize = 0;
        while i < self.words.len()
            invariant
                self.words@.len() == other.words@.len(),
                i <= self.words@.len(),
                forall|j: int| 0 <= j < i ==> self.words@[j] == other.words@[j],
                self@ == other@ ==> self.words@ == other.words@,
            decreases self.words@.len() - i,
        {
            if self.words[i] != other.words[i] {
                return false;
            }
            i += 1;
        }
        assert(self.words@ =~= other.words@);
        true
    }
}

} // verus!
