//! Candidates: a fixed printable prefix followed by three random bytes
//! that are forced into the printable range, the last of them odd.

use vstd::prelude::*;
use vstd::arithmetic::power2::{lemma2_to64, lemma_pow2_adds, pow2};
use crate::bigint::{be_value, plus_word, to_bytes_be};
use crate::natural::Natural;

verus! {

/// `b` is a printable ASCII character, from the space to the tilde.
pub open spec fn is_printable(b: u8) -> bool {
    0x20 <= b <= 0x7e
}

/// Every byte of `bytes` is printable.
pub open spec fn all_printable(bytes: Seq<u8>) -> bool {
    forall|i: int| 0 <= i < bytes.len() ==> is_printable(#[trigger] bytes[i])
}

/// The printable byte that `b` is forced to: the high bit is cleared, a
/// control character gets bit 0x20 set, and the delete character becomes
/// 0x7d, which keeps its low bit.
pub open spec fn printable_of(b: u8) -> u8 {
    let c = b & 0x7f;
    if c < 0x20 {
        c | 0x20
    } else if c == 0x7f {
        0x7d
    } else {
        c
    }
}

/// The three low-order bytes of a candidate, most significant first, as
/// drawn bytes 1 to 3 give them; the last one is made odd first. Drawn byte
/// 0 is dropped, so that the suffix cannot reach into the prefix.
pub open spec fn suffix_bytes(random: Seq<u8>) -> Seq<u8>
    recommends
        random.len() == 4,
{
    seq![printable_of(random[1]), printable_of(random[2]), printable_of(random[3] | 1)]
}

/// The candidate that a prefix text and four drawn bytes give: the text
/// moved up by three bytes, plus the suffix.
pub open spec fn candidate_value(text: Seq<u8>, random: Seq<u8>) -> nat
    recommends
        random.len() == 4,
{
    be_value(text) * pow2(24) + be_value(suffix_bytes(random))
}

/// `bytes` is the big-endian encoding of `v`: it denotes `v` and has no
/// leading zero byte, except that zero is the single byte 0.
pub open spec fn is_be_encoding(bytes: Seq<u8>, v: nat) -> bool {
    &&& be_value(bytes) == v
    &&& bytes.len() >= 1
    &&& v == 0 ==> bytes == seq![0u8]
    &&& v != 0 ==> bytes[0] != 0
}

/// Bytes that start with a nonzero byte denote a positive number.
pub proof fn lemma_be_value_positive(bytes: Seq<u8>)
    requires
        bytes.len() > 0,
        bytes[0] != 0,
    ensures
        be_value(bytes) > 0,
    decreases bytes.len(),
{
    if bytes.len() > 1 {
        assert(bytes.drop_last()[0] == bytes[0]);
        lemma_be_value_positive(bytes.drop_last());
    } else {
        assert(bytes.last() == bytes[0]);
    }
}

/// Bytes denote at least what their first byte denotes alone.
pub proof fn lemma_first_byte(bytes: Seq<u8>)
    requires
        bytes.len() > 0,
    ensures
        be_value(bytes) >= bytes[0],
    decreases bytes.len(),
{
    if bytes.len() > 1 {
        assert(bytes.drop_last()[0] == bytes[0]);
        lemma_first_byte(bytes.drop_last());
    } else {
        assert(bytes.last() == bytes[0]);
    }
}

/// Bytes denote a number below 256 to the power of their count.
pub proof fn lemma_be_value_upper(bytes: Seq<u8>)
    ensures
        be_value(bytes) < pow2(8 * bytes.len()),
    decreases bytes.len(),
{
    lemma2_to64();
    if bytes.len() > 0 {
        let front = bytes.drop_last();
        lemma_be_value_upper(front);
        lemma_pow2_adds(8 * front.len(), 8);
        assert(256 * be_value(front) + 255 < pow2(8 * front.len()) * 256) by (nonlinear_arith)
            requires
                be_value(front) < pow2(8 * front.len()),
        ;
    }
}

/// Appending bytes moves the number up by one byte each and adds what the
/// appended bytes denote.
pub proof fn lemma_be_value_concat(high: Seq<u8>, low: Seq<u8>)
    ensures
        be_value(high + low) == be_value(high) * pow2(8 * low.len()) + be_value(low),
    decreases low.len(),
{
    lemma2_to64();
    if low.len() == 0 {
        assert(high + low =~= high);
        assert(be_value(high) * 1 == be_value(high));
    } else {
        let front = low.drop_last();
        assert((high + low).drop_last() =~= high + front);
        assert((high + low).last() == low.last());
        lemma_be_value_concat(high, front);
        lemma_pow2_adds(8 * front.len(), 8);
        let h = be_value(high);
        let p = pow2(8 * front.len());
        assert(256 * (h * p + be_value(front)) == h * (p * 256) + 256 * be_value(front))
            by (nonlinear_arith);
    }
}

/// Two byte sequences without a leading zero byte that denote the same
/// number are equal.
pub proof fn lemma_be_value_unique(a: Seq<u8>, b: Seq<u8>)
    requires
        a.len() > 0 ==> a[0] != 0,
        b.len() > 0 ==> b[0] != 0,
        be_value(a) == be_value(b),
    ensures
        a == b,
    decreases a.len() + b.len(),
{
    if a.len() == 0 || b.len() == 0 {
        if a.len() > 0 {
            lemma_be_value_positive(a);
        }
        if b.len() > 0 {
            lemma_be_value_positive(b);
        }
        assert(a =~= b);
    } else {
        let fa = a.drop_last();
        let fb = b.drop_last();
        if fa.len() > 0 {
            assert(fa[0] == a[0]);
        }
        if fb.len() > 0 {
            assert(fb[0] == b[0]);
        }
        assert(a.last() == b.last() && be_value(fa) == be_value(fb)) by (nonlinear_arith)
            requires
                256 * be_value(fa) + (a.last() as nat) == 256 * be_value(fb) + (b.last() as nat),
                (a.last() as nat) < 256,
                (b.last() as nat) < 256,
        ;
        lemma_be_value_unique(fa, fb);
        assert(a =~= fa.push(a.last()));
        assert(b =~= fb.push(b.last()));
    }
}

/// A forced byte is printable, and it is odd when the given byte was made
/// odd.
pub proof fn lemma_printable_of(b: u8)
    ensures
        is_printable(printable_of(b)),
        printable_of(b | 1) % 2 == 1,
{
    let c = b & 0x7f;
    assert(c <= 0x7f) by (bit_vector)
        requires
            c == b & 0x7f,
    ;
    assert(c < 0x20 ==> 0x20 <= (c | 0x20) <= 0x3f) by (bit_vector);
    let d = (b | 1) & 0x7f;
    assert(d % 2 == 1 && (d | 0x20) % 2 == 1) by (bit_vector)
        requires
            d == (b | 1) & 0x7f,
    ;
}

/// The suffix has three bytes, each of them printable and the last odd.
pub proof fn lemma_suffix_bytes(random: Seq<u8>)
    requires
        random.len() == 4,
    ensures
        suffix_bytes(random).len() == 3,
        suffix_bytes(random)[0] == printable_of(random[1]),
        suffix_bytes(random)[1] == printable_of(random[2]),
        suffix_bytes(random)[2] == printable_of(random[3] | 1),
        all_printable(suffix_bytes(random)),
        suffix_bytes(random)[2] % 2 == 1,
{
    lemma_printable_of(random[1]);
    lemma_printable_of(random[2]);
    lemma_printable_of(random[3]);
    lemma_printable_of(random[3] | 1);
}

/// What the three suffix bytes denote.
pub proof fn lemma_suffix_value(random: Seq<u8>)
    requires
        random.len() == 4,
    ensures
        be_value(suffix_bytes(random)) == 0x1_0000 * (printable_of(random[1]) as nat) + 0x100 * (
        printable_of(random[2]) as nat) + (printable_of(random[3] | 1) as nat),
{
    lemma_suffix_bytes(random);
    let s = suffix_bytes(random);
    let s2 = s.drop_last();
    let s1 = s2.drop_last();
    assert(s.len() == 3 && s2.len() == 2 && s1.len() == 1);
    assert(s1.drop_last() =~= Seq::<u8>::empty());
    assert(be_value(s1.drop_last()) == 0);
    assert(be_value(s1) == s[0] as nat);
    assert(be_value(s2) == 256 * be_value(s1) + (s[1] as nat));
    assert(be_value(s) == 256 * be_value(s2) + (s[2] as nat));
}

/// Every candidate that a printable prefix text gives is odd, and its
/// big-endian encoding is the text followed by the three suffix bytes,
/// each of them printable.
pub proof fn lemma_candidate_printable(text: Seq<u8>, random: Seq<u8>, encoding: Seq<u8>)
    requires
        random.len() == 4,
        all_printable(text),
        is_be_encoding(encoding, candidate_value(text, random)),
    ensures
        candidate_value(text, random) % 2 == 1,
        encoding == text + suffix_bytes(random),
        all_printable(encoding),
{
    let suffix = suffix_bytes(random);
    let whole = text + suffix;
    lemma_suffix_bytes(random);
    lemma_suffix_value(random);
    lemma_be_value_concat(text, suffix);
    lemma2_to64();
    let high = be_value(text) * pow2(24);
    assert(high % 2 == 0) by (nonlinear_arith)
        requires
            high == be_value(text) * 0x100_0000,
    ;
    assert(is_printable(whole[0])) by {
        if text.len() > 0 {
            assert(whole[0] == text[0]);
        } else {
            assert(whole[0] == suffix[0]);
        }
    }
    lemma_be_value_positive(whole);
    lemma_be_value_unique(encoding, whole);
    assert forall|i: int| 0 <= i < whole.len() implies is_printable(#[trigger] whole[i]) by {
        if i < text.len() {
            assert(whole[i] == text[i]);
        } else {
            assert(whole[i] == suffix[i - text.len()]);
        }
    }
}

/// Forces a byte into the printable range.
pub fn make_printable(b: u8) -> (r: u8)
    ensures
        r == printable_of(b),
        is_printable(r),
{
    proof {
        lemma_printable_of(b);
    }
    let c = b & 0x7f;
    if c < 0x20 {
        c | 0x20
    } else if c == 0x7f {
        0x7d
    } else {
        c
    }
}

/// The suffix that four drawn bytes give: the highest byte zero, the other
/// three printable, the lowest odd.
pub fn mask_suffix(random: [u8; 4]) -> (suffix: u32)
    ensures
        suffix as nat == be_value(suffix_bytes(random@)),
        0x20_2021 <= suffix <= 0x7e_7e7d,
        suffix % 2 == 1,
{
    proof {
        lemma_suffix_bytes(random@);
        lemma_suffix_value(random@);
    }
    let high = make_printable(random[1]);
    let middle = make_printable(random[2]);
    let low = make_printable(random[3] | 1);
    (high as u32) * 0x1_0000 + (middle as u32) * 0x100 + (low as u32)
}

/// The candidate for a prefix and four drawn bytes: the prefix plus the
/// suffix.
pub fn make_candidate(prefix: &Natural, random: [u8; 4]) -> (candidate: Natural)
    ensures
        candidate@ == prefix@ + be_value(suffix_bytes(random@)),
{
    let suffix = mask_suffix(random);
    plus_word(prefix, suffix)
}

/// The big-endian bytes of a number, as they are shown as text.
pub fn candidate_bytes(n: &Natural) -> (bytes: Vec<u8>)
    requires
        n.word_count() * 32 + 8 <= usize::MAX,
    ensures
        is_be_encoding(bytes@, n@),
{
    to_bytes_be(n)
}

} // verus!
