//! Why the witness test never rejects a prime on a base that the prime does
//! not divide: Euclid's lemma, the binomial theorem modulo a prime,
//! Fermat's little theorem, and the square roots of 1 modulo a prime.

use vstd::prelude::*;
use vstd::arithmetic::div_mod::{
    lemma_add_mod_noop, lemma_fundamental_div_mod, lemma_mod_multiples_basic,
    lemma_mod_multiples_vanish, lemma_mul_mod_noop_left, lemma_small_mod, lemma_sub_mod_noop,
};
use vstd::arithmetic::power::{
    lemma0_pow, lemma_pow0, lemma_pow1, lemma_pow_adds, lemma_pow_positive, pow,
};
use crate::sieve::{divides, is_prime};

verus! {

/// Euclid's lemma: a prime that divides a product divides a factor.
pub proof fn lemma_euclid(p: nat, u: nat, v: nat)
    requires
        is_prime(p),
        divides(p, u * v),
    ensures
        divides(p, u) || divides(p, v),
    decreases u,
{
    if u == 0 {
    } else if u >= p {
        let low = u % p;
        lemma_mul_mod_noop_left(u as int, v as int, p as int);
        lemma_euclid(p, low, v);
        if divides(p, low) {
            lemma_small_mod(low, p);
        }
    } else if u == 1 {
        assert(u * v == v) by (nonlinear_arith)
            requires
                u == 1,
        ;
    } else {
        assert(!divides(u, p));
        let s = p % u;
        let t = p / u;
        let c = (u * v) / p;
        lemma_fundamental_div_mod(p as int, u as int);
        lemma_fundamental_div_mod((u * v) as int, p as int);
        assert(s * v == (v - t * c) * p) by (nonlinear_arith)
            requires
                p == u * t + s,
                u * v == p * c,
        ;
        lemma_mod_multiples_basic(v - t * c, p as int);
        lemma_euclid(p, s, v);
        if divides(p, s) {
            lemma_small_mod(s, p);
        }
    }
}

/// The binomial coefficient, by Pascal's rule.
pub open spec fn binomial(n: nat, k: nat) -> nat
    decreases n,
{
    if k == 0 {
        1
    } else if n == 0 {
        0
    } else {
        binomial((n - 1) as nat, (k - 1) as nat) + binomial((n - 1) as nat, k)
    }
}

/// No way to choose more than there is.
pub proof fn lemma_binomial_beyond(n: nat, k: nat)
    requires
        k > n,
    ensures
        binomial(n, k) == 0,
    decreases n,
{
    if n > 0 {
        lemma_binomial_beyond((n - 1) as nat, (k - 1) as nat);
        lemma_binomial_beyond((n - 1) as nat, k);
    }
}

/// One way to choose everything.
pub proof fn lemma_binomial_full(n: nat)
    ensures
        binomial(n, n) == 1,
    decreases n,
{
    if n > 0 {
        lemma_binomial_full((n - 1) as nat);
        lemma_binomial_beyond((n - 1) as nat, n);
    }
}

/// The absorption identity: `k * C(n, k) == n * C(n - 1, k - 1)`.
pub proof fn lemma_binomial_absorb(n: nat, k: nat)
    requires
        n >= 1,
        k >= 1,
    ensures
        k * binomial(n, k) == n * binomial((n - 1) as nat, (k - 1) as nat),
    decreases n,
{
    let b_up = binomial((n - 1) as nat, (k - 1) as nat);
    let b_same = binomial((n - 1) as nat, k);
    assert(binomial(n, k) == b_up + b_same);
    if n == 1 {
        lemma_binomial_beyond(0, k);
        if k > 1 {
            lemma_binomial_beyond(0, (k - 1) as nat);
        }
        assert(k * binomial(n, k) == n * b_up) by (nonlinear_arith)
            requires
                binomial(n, k) == b_up,
                n == 1,
                k == 1 || b_up == 0,
        ;
    } else {
        let m = (n - 1) as nat;
        let c_up = binomial((m - 1) as nat, (k - 1) as nat);
        lemma_binomial_absorb(m, k);
        assert(k * b_same == m * c_up);
        if k == 1 {
            assert(b_up == 1);
            assert(c_up == 1);
            assert(k * binomial(n, k) == n * b_up) by (nonlinear_arith)
                requires
                    binomial(n, k) == b_up + b_same,
                    k * b_same == m * c_up,
                    k == 1,
                    b_up == 1,
                    c_up == 1,
                    n == m + 1,
            ;
        } else {
            let c_upup = binomial((m - 1) as nat, (k - 2) as nat);
            lemma_binomial_absorb(m, (k - 1) as nat);
            assert((k - 1) * b_up == m * c_upup);
            assert(b_up == c_upup + c_up);
            assert(k * binomial(n, k) == n * b_up) by (nonlinear_arith)
                requires
                    binomial(n, k) == b_up + b_same,
                    k * b_same == m * c_up,
                    (k - 1) * b_up == m * c_upup,
                    b_up == c_upup + c_up,
                    n == m + 1,
            ;
        }
    }
}

/// A prime divides each of its binomial coefficients but the two at the
/// ends.
pub proof fn lemma_prime_divides_binomial(p: nat, k: nat)
    requires
        is_prime(p),
        0 < k < p,
    ensures
        divides(p, binomial(p, k)),
{
    let b = binomial(p, k);
    let c = binomial((p - 1) as nat, (k - 1) as nat);
    lemma_binomial_absorb(p, k);
    lemma_mod_multiples_basic(c as int, p as int);
    assert(c * p == p * c) by (nonlinear_arith);
    lemma_euclid(p, k, b);
    if divides(p, k) {
        lemma_small_mod(k, p);
    }
}

/// The sum of `C(n, k) * a^k` for `k` from 0 to `m`.
pub open spec fn binomial_sum(n: nat, a: int, m: nat) -> int
    decreases m,
{
    if m == 0 {
        1
    } else {
        binomial_sum(n, a, (m - 1) as nat) + binomial(n, m) * pow(a, m)
    }
}

/// Pascal's rule over the sums: the sum for `n + 1` is the sum for `n`
/// plus `a` times the sum for `n` that stops one term earlier.
pub proof fn lemma_binomial_sum_step(n: nat, a: int, m: nat)
    requires
        m >= 1,
    ensures
        binomial_sum(n + 1, a, m) == binomial_sum(n, a, m) + a * binomial_sum(
            n,
            a,
            (m - 1) as nat,
        ),
    decreases m,
{
    let prev = (m - 1) as nat;
    let b_up = binomial(n, prev);
    let b_same = binomial(n, m);
    assert(binomial(n + 1, m) == b_up + b_same);
    lemma_pow_adds(a, prev, 1);
    lemma_pow1(a);
    let low = pow(a, prev);
    assert(pow(a, m) == low * a);
    if m == 1 {
        lemma_pow0(a);
        assert(binomial_sum(n + 1, a, 0) == 1);
        assert(binomial_sum(n, a, 0) == 1);
        assert(b_up == 1);
        assert(1 + (b_up + b_same) * (low * a) == (1 + b_same * (low * a)) + a * 1)
            by (nonlinear_arith)
            requires
                b_up == 1,
                low == 1,
        ;
    } else {
        lemma_binomial_sum_step(n, a, prev);
        let s1 = binomial_sum(n, a, prev);
        let s2 = binomial_sum(n, a, (prev - 1) as nat);
        assert(binomial_sum(n, a, m) == s1 + b_same * (low * a));
        assert(s1 == s2 + b_up * low);
        assert((s1 + a * s2) + (b_up + b_same) * (low * a) == (s1 + b_same * (low * a)) + a * (s2
            + b_up * low)) by (nonlinear_arith);
    }
}

/// The binomial theorem for `(a + 1)^n`.
pub proof fn lemma_binomial_theorem(a: int, n: nat)
    ensures
        pow(a + 1, n) == binomial_sum(n, a, n),
    decreases n,
{
    if n == 0 {
        lemma_pow0(a + 1);
    } else {
        let m = (n - 1) as nat;
        lemma_binomial_theorem(a, m);
        lemma_pow_adds(a + 1, m, 1);
        lemma_pow1(a + 1);
        lemma_binomial_sum_step(m, a, n);
        lemma_binomial_beyond(m, n);
        let s = binomial_sum(m, a, m);
        assert(binomial_sum(m, a, n) == s + binomial(m, n) * pow(a, n));
        assert(binomial(m, n) * pow(a, n) == 0) by (nonlinear_arith)
            requires
                binomial(m, n) == 0,
        ;
        assert(s * (a + 1) == s + a * s) by (nonlinear_arith);
    }
}

/// Modulo a prime, the binomial sum that stops short of the last term is 1:
/// every middle term is a multiple of the prime.
pub proof fn lemma_binomial_sum_mod(p: nat, a: int, m: nat)
    requires
        is_prime(p),
        m < p,
    ensures
        binomial_sum(p, a, m) % (p as int) == 1,
    decreases m,
{
    if m == 0 {
        lemma_small_mod(1, p);
    } else {
        lemma_binomial_sum_mod(p, a, (m - 1) as nat);
        lemma_prime_divides_binomial(p, m);
        let b = binomial(p, m);
        let c = b / p;
        lemma_fundamental_div_mod(b as int, p as int);
        let term = b * pow(a, m);
        assert(term == (c * pow(a, m)) * p) by (nonlinear_arith)
            requires
                term == b * pow(a, m),
                b == p * c,
        ;
        lemma_mod_multiples_basic(c * pow(a, m), p as int);
        lemma_add_mod_noop(binomial_sum(p, a, (m - 1) as nat), term, p as int);
        lemma_small_mod(1, p);
    }
}

/// Modulo a prime `p`, raising to the power `p` commutes with adding 1.
pub proof fn lemma_power_of_successor(p: nat, a: int)
    requires
        is_prime(p),
    ensures
        pow(a + 1, p) % (p as int) == (pow(a, p) + 1) % (p as int),
{
    let m = (p - 1) as nat;
    lemma_binomial_theorem(a, p);
    lemma_binomial_sum_mod(p, a, m);
    lemma_binomial_full(p);
    let s = binomial_sum(p, a, m);
    assert(binomial_sum(p, a, p) == s + binomial(p, p) * pow(a, p));
    assert(binomial(p, p) * pow(a, p) == pow(a, p)) by (nonlinear_arith)
        requires
            binomial(p, p) == 1,
    ;
    lemma_add_mod_noop(s, pow(a, p), p as int);
    lemma_add_mod_noop(1, pow(a, p), p as int);
    lemma_small_mod(1, p);
}

/// Fermat's little theorem, first form: `a^p` is congruent to `a` modulo
/// a prime `p`.
pub proof fn lemma_fermat_power(p: nat, a: nat)
    requires
        is_prime(p),
    ensures
        pow(a as int, p) % (p as int) == (a as int) % (p as int),
    decreases a,
{
    if a == 0 {
        lemma0_pow(p);
    } else {
        let b = (a - 1) as int;
        lemma_fermat_power(p, (a - 1) as nat);
        lemma_power_of_successor(p, b);
        lemma_add_mod_noop(pow(b, p), 1, p as int);
        lemma_add_mod_noop(b, 1, p as int);
    }
}

/// Fermat's little theorem: `a^(p-1)` is congruent to 1 modulo a prime `p`
/// that does not divide `a`.
pub proof fn lemma_fermat(p: nat, a: nat)
    requires
        is_prime(p),
        a % p != 0,
    ensures
        pow(a as int, (p - 1) as nat) % (p as int) == 1,
{
    let m = (p - 1) as nat;
    let w = pow(a as int, m);
    lemma_fermat_power(p, a);
    lemma_pow_adds(a as int, m, 1);
    lemma_pow1(a as int);
    assert(pow(a as int, p) == w * a);
    if a == 0 {
        lemma_small_mod(0, p);
    }
    lemma_pow_positive(a as int, m);
    let v = (w - 1) as nat;
    let diff = w * a - a;
    assert(diff == a * v) by (nonlinear_arith)
        requires
            diff == w * a - a,
            v == w - 1,
    ;
    assert(diff % (p as int) == 0) by {
        let x = w * a;
        assert(x % (p as int) == (a as int) % (p as int));
        lemma_sub_mod_noop(x, a as int, p as int);
        lemma_small_mod(0, p);
        assert(x % (p as int) - (a as int) % (p as int) == 0);
    }
    lemma_euclid(p, a, v);
    lemma_fundamental_div_mod(v as int, p as int);
    lemma_mod_multiples_vanish(v as int / p as int, 1, p as int);
    lemma_small_mod(1, p);
    assert(w == p * (v as int / p as int) + 1);
}

/// Modulo a prime, only 1 and `n - 1` square to 1.
pub proof fn lemma_square_root_of_one(n: nat, x: nat)
    requires
        is_prime(n),
        x < n,
        (x * x) % n == 1,
    ensures
        x == 1 || x == n - 1,
{
    let c = (x * x) / n;
    lemma_fundamental_div_mod((x * x) as int, n as int);
    if x == 0 {
        assert(x * x == 0) by (nonlinear_arith)
            requires
                x == 0,
        ;
        lemma_small_mod(0, n);
    }
    let below = (x - 1) as nat;
    assert(below * (x + 1) == c * n) by (nonlinear_arith)
        requires
            x * x == n * c + 1,
            below == x - 1,
    ;
    lemma_mod_multiples_basic(c as int, n as int);
    lemma_euclid(n, below, x + 1);
    if divides(n, below) {
        lemma_small_mod(below, n);
    } else if x + 1 < n {
        lemma_small_mod(x + 1, n);
    }
}

} // verus!
