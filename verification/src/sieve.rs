//! The small odd primes and their reduction tables, built once by a sieve
//! of Eratosthenes.

use vstd::prelude::*;
use vstd::arithmetic::div_mod::{lemma_fundamental_div_mod, lemma_mod_multiples_basic};
use crate::fastmod::{is_reduction_table, precompute_bignum_u32, word_weights};

verus! {

/// The odd primes up to this bound are the 9,999 odd primes that precede
/// 104,730. A search that wants only a hundred primes or so passes 547,
/// the hundredth odd prime, to `sieve_odd_primes` instead: the bound trades
/// filtering strength against the cost of building and walking the list.
pub const DEFAULT_SIEVE_BOUND: u32 = 104_729;

/// `d` divides `m`.
pub open spec fn divides(d: nat, m: nat) -> bool {
    d > 0 && m % d == 0
}

/// `p` is prime: at least 2 and divisible by nothing between 1 and itself.
pub open spec fn is_prime(p: nat) -> bool {
    p >= 2 && forall|d: nat| 2 <= d < p ==> !#[trigger] divides(d, p)
}

/// `m` has an odd divisor that is at least 3, below `c` and below `m`.
pub open spec fn has_odd_factor_below(m: nat, c: nat) -> bool {
    exists|d: nat| 3 <= d < c && d < m && d % 2 == 1 && #[trigger] divides(d, m)
}

/// `primes` lists exactly the odd primes up to `bound`, in rising order.
pub open spec fn lists_odd_primes(primes: Seq<u32>, bound: nat) -> bool {
    &&& forall|i: int|
        0 <= i < primes.len() ==> 3 <= #[trigger] primes[i] <= bound && is_prime(primes[i] as nat)
    &&& forall|i: int, j: int| 0 <= i < j < primes.len() ==> primes[i] < primes[j]
    &&& forall|p: nat|
        3 <= p <= bound && is_prime(p) ==> exists|i: int|
            0 <= i < primes.len() && #[trigger] primes[i] == p
}

/// Divisibility carries over: a divisor of a divisor divides.
pub proof fn lemma_divides_transitive(a: nat, b: nat, c: nat)
    requires
        divides(a, b),
        divides(b, c),
    ensures
        divides(a, c),
{
    let x = b / a;
    let y = c / b;
    lemma_fundamental_div_mod(b as int, a as int);
    lemma_fundamental_div_mod(c as int, b as int);
    assert(c == (x * y) * a) by (nonlinear_arith)
        requires
            b == a * x,
            c == b * y,
    ;
    lemma_mod_multiples_basic((x * y) as int, a as int);
}

/// An odd number from 3 on with no odd divisor between 2 and itself is
/// prime.
pub proof fn lemma_unfactored_is_prime(p: nat)
    requires
        p >= 3,
        p % 2 == 1,
        !has_odd_factor_below(p, p),
    ensures
        is_prime(p),
{
    assert forall|d: nat| 2 <= d < p implies !#[trigger] divides(d, p) by {
        if divides(d, p) {
            if d % 2 == 0 {
                assert(divides(2, d));
                lemma_divides_transitive(2, d, p);
            }
        }
    }
}

/// Raising the limit on the odd divisor from `p` to `p + 2` admits the
/// one new divisor `p`.
pub proof fn lemma_factor_below_step(x: nat, p: nat)
    requires
        p >= 3,
        p % 2 == 1,
    ensures
        has_odd_factor_below(x, p + 2) <==> has_odd_factor_below(x, p) || (divides(p, x) && p < x),
{
    if has_odd_factor_below(x, p + 2) {
        let d = choose|d: nat| 3 <= d < p + 2 && d < x && d % 2 == 1 && #[trigger] divides(d, x);
        if d < p {
            assert(has_odd_factor_below(x, p));
        }
    }
    if has_odd_factor_below(x, p) {
        let d = choose|d: nat| 3 <= d < p && d < x && d % 2 == 1 && #[trigger] divides(d, x);
        assert(3 <= d < p + 2 && d < x && d % 2 == 1 && divides(d, x));
    }
    if divides(p, x) && p < x {
        assert(3 <= p < p + 2 && p < x && p % 2 == 1 && divides(p, x));
    }
}

/// The multiples of a composite bring nothing new: their smaller odd
/// divisor was there before.
pub proof fn lemma_composite_multiple(x: nat, p: nat)
    requires
        has_odd_factor_below(p, p),
        divides(p, x),
        p < x,
    ensures
        has_odd_factor_below(x, p),
{
    let d = choose|d: nat| 3 <= d < p && d < p && d % 2 == 1 && #[trigger] divides(d, p);
    lemma_divides_transitive(d, p, x);
}

/// Between a multiple of `p` and the next one lies no multiple of `p`.
pub proof fn lemma_next_multiple(x: nat, m: nat, p: nat)
    requires
        divides(p, x),
        divides(p, m),
        m <= x < m + p,
    ensures
        x == m,
{
    let a = x / p;
    let b = m / p;
    lemma_fundamental_div_mod(x as int, p as int);
    lemma_fundamental_div_mod(m as int, p as int);
    assert(a == b) by (nonlinear_arith)
        requires
            x == p * a,
            m == p * b,
            m <= x < m + p,
            p > 0,
    ;
}

/// The odd primes from 3 up to `bound`, in rising order, by the sieve of
/// Eratosthenes: every odd number that no smaller odd number has crossed
/// out is prime and crosses out its own multiples.
pub fn sieve_odd_primes(bound: u32) -> (primes: Vec<u32>)
    requires
        bound < usize::MAX,
    ensures
        lists_odd_primes(primes@, bound as nat),
{
    let size: usize = bound as usize + 1;
    let mut crossed: Vec<bool> = Vec::with_capacity(size);
    while crossed.len() < size
        invariant
            crossed@.len() <= size,
            forall|x: int| 0 <= x < crossed@.len() ==> !crossed@[x],
        decreases size - crossed@.len(),
    {
        crossed.push(false);
    }
    let mut primes: Vec<u32> = Vec::new();
    let mut p: u64 = 3;
    while p <= bound as u64
        invariant
            size == bound + 1,
            crossed@.len() == size,
            3 <= p,
            p <= bound + 2 || p == 3,
            p % 2 == 1,
            forall|x: int|
                3 <= x <= bound && x % 2 == 1 ==> (#[trigger] crossed@[x] <==> has_odd_factor_below(
                    x as nat,
                    p as nat,
                )),
            forall|i: int|
                0 <= i < primes@.len() ==> 3 <= #[trigger] primes@[i] < p && primes@[i] <= bound
                    && is_prime(primes@[i] as nat),
            forall|i: int, j: int| 0 <= i < j < primes@.len() ==> primes@[i] < primes@[j],
            forall|q: nat|
                3 <= q < p && is_prime(q) ==> exists|i: int|
                    0 <= i < primes@.len() && #[trigger] primes@[i] == q,
        decreases bound + 3 - p,
    {
        let ghost before = crossed@;
        let ghost listed = primes@;
        if !crossed[p as usize] {
            proof {
                lemma_unfactored_is_prime(p as nat);
            }
            primes.push(p as u32);
            let mut m: u64 = 2 * p;
            proof {
                lemma_mod_multiples_basic(2, p as int);
                assert forall|x: int| 3 <= x <= bound && x % 2 == 1 implies (
                #[trigger] crossed@[x] <==> before[x] || (divides(p as nat, x as nat) && p < x
                    < m)) by {
                    if divides(p as nat, x as nat) && p < x < m {
                        lemma_mod_multiples_basic(1, p as int);
                        lemma_next_multiple(x as nat, p as nat, p as nat);
                    }
                }
            }
            while m <= bound as u64
                invariant
                    size == bound + 1,
                    crossed@.len() == size,
                    before.len() == size,
                    3 <= p <= bound,
                    2 * p <= m <= bound + p,
                    divides(p as nat, m as nat),
                    forall|x: int|
                        3 <= x <= bound && x % 2 == 1 ==> (#[trigger] crossed@[x] <==> before[x] || (
                        divides(p as nat, x as nat) && p < x < m)),
                decreases bound + p - m,
            {
                let ghost marked = crossed@;
                crossed.set(m as usize, true);
                proof {
                    assert forall|x: int| 3 <= x <= bound && x % 2 == 1 implies (
                    #[trigger] crossed@[x] <==> before[x] || (divides(p as nat, x as nat) && p < x
                        < m + p)) by {
                        if divides(p as nat, x as nat) && m <= x < m + p {
                            lemma_next_multiple(x as nat, m as nat, p as nat);
                        }
                    }
                    lemma_fundamental_div_mod(m as int, p as int);
                    lemma_mod_multiples_basic((m / p + 1) as int, p as int);
                    assert((m / p + 1) * p == m + p) by (nonlinear_arith)
                        requires
                            m == p * (m / p),
                    ;
                }
                m += p;
            }
            proof {
                assert(primes@ == listed.push(p as u32));
                assert forall|q: nat| 3 <= q < p + 2 && is_prime(q) implies exists|i: int|
                    0 <= i < primes@.len() && #[trigger] primes@[i] == q by {
                    if q < p {
                        let i = choose|i: int| 0 <= i < listed.len() && #[trigger] listed[i] == q;
                        assert(primes@[i] == q);
                    } else if q == p {
                        assert(primes@[listed.len() as int] == q);
                    } else {
                        assert(divides(2, q));
                    }
                }
            }
        } else {
            proof {
                assert forall|q: nat| 3 <= q < p + 2 && is_prime(q) implies exists|i: int|
                    0 <= i < primes@.len() && #[trigger] primes@[i] == q by {
                    if q == p {
                        let d = choose|d: nat|
                            3 <= d < p && d < p && d % 2 == 1 && #[trigger] divides(d, p as nat);
                        assert(false);
                    } else if q == p + 1 {
                        assert(divides(2, q));
                    }
                }
            }
        }
        proof {
            assert forall|x: int| 3 <= x <= bound && x % 2 == 1 implies (#[trigger] crossed@[x]
                <==> has_odd_factor_below(x as nat, (p + 2) as nat)) by {
                lemma_factor_below_step(x as nat, p as nat);
                if before[p as int] && divides(p as nat, x as nat) && p < x {
                    lemma_composite_multiple(x as nat, p as nat);
                }
            }
        }
        p += 2;
    }
    primes
}

/// Pairs every modulus of `primes` with its reduction table of
/// `limit + 1` entries, in the order of `primes`.
pub fn build_prime_tables(primes: &Vec<u32>, limit: usize) -> (list: Vec<(u32, Vec<u32>)>)
    requires
        limit < usize::MAX,
        forall|i: int| 0 <= i < primes@.len() ==> primes@[i] > 0,
    ensures
        list@.len() == primes@.len(),
        forall|i: int|
            0 <= i < list@.len() ==> (#[trigger] list@[i]).0 == primes@[i] && list@[i].1@.len()
                == limit + 1 && is_reduction_table(word_weights(list@[i].1@), primes@[i] as nat),
{
    let mut list: Vec<(u32, Vec<u32>)> = Vec::new();
    let mut i: usize = 0;
    while i < primes.len()
        invariant
            limit < usize::MAX,
            forall|j: int| 0 <= j < primes@.len() ==> primes@[j] > 0,
            i <= primes@.len(),
            list@.len() == i,
            forall|j: int|
                0 <= j < i ==> (#[trigger] list@[j]).0 == primes@[j] && list@[j].1@.len() == limit
                    + 1 && is_reduction_table(word_weights(list@[j].1@), primes@[j] as nat),
        decreases primes@.len() - i,
    {
        let p = primes[i];
        list.push((p, precompute_bignum_u32(limit, p)));
        i += 1;
    }
    list
}

} // verus!
