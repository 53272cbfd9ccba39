use num_bigint::BigUint;
use vanity_primes::fastmod::precompute_bignum_u32;
use vanity_primes::natural::Natural;
use vanity_primes::primality::{
    count_twos, first_pass_primality_check, miller_rabin, miller_rabin_with_bases, WitnessTest,
    RANDOM_BASES,
};
use vanity_primes::sieve::{build_prime_tables, sieve_odd_primes};

fn natural(n: u64) -> Natural {
    Natural::from_words(vec![n as u32, (n >> 32) as u32])
}

fn from_decimal(digits: &str) -> Natural {
    Natural::from_words(BigUint::parse_bytes(digits.as_bytes(), 10).unwrap().to_u32_digits())
}

fn is_prime_by_division(n: u64) -> bool {
    if n < 2 {
        return false;
    }
    let mut d = 2u64;
    while d * d <= n {
        if n % d == 0 {
            return false;
        }
        d += 1;
    }
    true
}

fn power_mod(base: u64, mut exp: u64, modulus: u64) -> u64 {
    let m = u128::from(modulus);
    let mut result = 1u128 % m;
    let mut b = u128::from(base) % m;
    while exp > 0 {
        if exp & 1 == 1 {
            result = result * b % m;
        }
        b = b * b % m;
        exp >>= 1;
    }
    result as u64
}

fn passes_base_by_reference(n: u64, a: u64) -> bool {
    let twos = (n - 1).trailing_zeros();
    let odd = (n - 1) >> twos;
    let mut x = power_mod(a, odd, n);
    if x == 1 || x == n - 1 {
        return true;
    }
    for _ in 0..twos {
        x = (u128::from(x) * u128::from(x) % u128::from(n)) as u64;
        if x == n - 1 {
            return true;
        }
    }
    false
}

fn small_primes(bound: u32, limit: usize) -> Vec<(u32, Vec<u32>)> {
    build_prime_tables(&sieve_odd_primes(bound), limit)
}

#[test]
fn forty_eight_random_bases() {
    assert_eq!(RANDOM_BASES, 48);
}

#[test]
fn count_twos_exact_values() {
    assert_eq!(count_twos(&natural(1)), 0);
    assert_eq!(count_twos(&natural(12)), 2);
    assert_eq!(count_twos(&natural(1 << 31)), 31);
    assert_eq!(count_twos(&natural(1 << 32)), 32);
    assert_eq!(count_twos(&natural(3 << 40)), 40);
    assert_eq!(count_twos(&Natural::from_words(vec![0, 0, 0, 8])), 99);
}

#[test]
fn witness_test_factors_n_minus_one() {
    let n = natural(13);
    let test = WitnessTest::new(&n);
    assert_eq!(test.minus_one().words(), &vec![12u32]);
    assert_eq!(test.odd().words(), &vec![3u32]);
    assert_eq!(test.twos(), 2);
    assert_eq!(test.table().len(), 1);
    assert_eq!(test.table()[0].words(), &vec![1u32]);
}

#[test]
fn witness_test_counts_across_zero_words() {
    let n = Natural::from_words(vec![1, 0, 1]);
    let test = WitnessTest::new(&n);
    assert_eq!(test.minus_one().words(), &vec![0u32, 0, 1]);
    assert_eq!(test.odd().words(), &vec![1u32]);
    assert_eq!(test.twos(), 64);
    assert_eq!(test.table().len(), 65 / 16 + 1);
}

#[test]
fn witness_test_splits_a_large_number() {
    let n = from_decimal("170141183460469231731687303715884105727");
    let test = WitnessTest::new(&n);
    assert_eq!(test.twos(), 1);
    let odd = BigUint::from_slice(test.odd().words());
    let expected = BigUint::parse_bytes(b"85070591730234615865843651857942052863", 10).unwrap();
    assert_eq!(odd, expected);
    assert_eq!(test.table().len(), 127 / 16 + 1);
}

#[test]
fn is_witness_exact_cases() {
    let seven = natural(7);
    let test = WitnessTest::new(&seven);
    assert!(!test.is_witness(2));
    assert!(!test.is_witness(3));
    assert!(test.is_witness(7));
    assert!(test.is_witness(14));
    let nine = natural(9);
    let test = WitnessTest::new(&nine);
    assert!(test.is_witness(2));
    assert!(!test.is_witness(8));
    assert!(!test.is_witness(1));
}

#[test]
fn is_witness_matches_reference() {
    let bases: [u32; 8] = [2, 3, 6, 7, 10, 11, 65535, 0xffff_ffff];
    let mut n = 5u64;
    while n < 2500 {
        let candidate = natural(n);
        let test = WitnessTest::new(&candidate);
        for a in bases {
            assert_eq!(
                test.is_witness(a),
                !passes_base_by_reference(n, u64::from(a)),
                "n = {}, a = {}",
                n,
                a
            );
        }
        n += 2;
    }
}

#[test]
fn is_witness_matches_reference_on_two_words() {
    let bases: [u32; 4] = [2, 3, 7, 65535];
    for n in [
        (1u64 << 32) + 1,
        (1u64 << 32) + 15,
        (1u64 << 61) - 1,
        (1u64 << 62) + 1,
        4611686018427388039,
        3215031751,
        0xffff_ffff_ffff_ffc5,
    ] {
        let candidate = natural(n);
        let test = WitnessTest::new(&candidate);
        for a in bases {
            assert_eq!(
                test.is_witness(a),
                !passes_base_by_reference(n, u64::from(a)),
                "n = {}, a = {}",
                n,
                a
            );
        }
    }
}

#[test]
fn known_small_primes_are_accepted() {
    for p in [5u64, 7, 11, 13, 101, 7919] {
        assert!(miller_rabin_with_bases(&natural(p), &vec![]), "{}", p);
    }
}

#[test]
fn known_small_primes_pass_further_bases() {
    let draws: Vec<u16> = vec![4, 8, 21, 1000, 30000, 65534];
    for p in [11u64, 13, 101, 7919] {
        assert!(draws.iter().all(|d| u64::from(d | 2) % p != 0));
        assert!(miller_rabin_with_bases(&natural(p), &draws), "{}", p);
    }
}

#[test]
fn primes_below_3000_pass_the_fixed_bases() {
    let mut n = 5u64;
    while n < 3000 {
        if is_prime_by_division(n) {
            assert!(miller_rabin_with_bases(&natural(n), &vec![]), "{}", n);
        }
        n += 2;
    }
}

#[test]
fn a_base_that_is_a_multiple_of_a_prime_rejects_it() {
    assert!(!miller_rabin_with_bases(&natural(5), &vec![10]));
    assert!(!miller_rabin_with_bases(&natural(7), &vec![4, 5]));
}

#[test]
fn draws_stand_for_bases_with_bit_one_set() {
    let n = natural(1373653);
    assert!(miller_rabin_with_bases(&n, &vec![]));
    assert!(miller_rabin_with_bases(&n, &vec![4]));
    assert!(miller_rabin_with_bases(&n, &vec![6]));
    assert!(!miller_rabin_with_bases(&n, &vec![5]));
    assert!(!miller_rabin_with_bases(&n, &vec![7]));
    assert!(!miller_rabin_with_bases(&n, &vec![4, 6, 8]));
}

#[test]
fn fermat_pseudoprime_341_is_rejected() {
    assert!(!miller_rabin_with_bases(&natural(341), &vec![]));
    assert!(!miller_rabin(&natural(341)));
}

#[test]
fn strong_pseudoprime_to_base_two_falls_to_base_three() {
    let n = natural(2047);
    let test = WitnessTest::new(&n);
    assert!(!test.is_witness(2));
    assert!(test.is_witness(3));
    assert!(!miller_rabin_with_bases(&n, &vec![]));
    assert!(!miller_rabin(&n));
}

#[test]
fn strong_pseudoprime_to_two_and_three_falls_to_a_later_base() {
    let n = natural(25326001);
    let test = WitnessTest::new(&n);
    assert!(!test.is_witness(2));
    assert!(!test.is_witness(3));
    assert!(miller_rabin_with_bases(&n, &vec![]));
    assert!(!miller_rabin_with_bases(&n, &vec![4, 7]));
    assert!(!miller_rabin(&n));
}

#[test]
fn composites_below_3000_match_reference() {
    let draws: Vec<u16> = vec![4, 5, 8];
    let mut n = 9u64;
    while n < 3000 {
        if !is_prime_by_division(n) {
            let expected = [2u64, 3, 6, 7, 10].iter().all(|a| passes_base_by_reference(n, *a));
            assert_eq!(miller_rabin_with_bases(&natural(n), &draws), expected, "{}", n);
            assert!(!expected, "{}", n);
        }
        n += 2;
    }
}

#[test]
fn random_bases_accept_primes_beyond_their_range() {
    for p in [65537u64, 104729, 2147483647, 4294967311, 2305843009213693951] {
        assert!(miller_rabin(&natural(p)), "{}", p);
    }
    assert!(miller_rabin(&from_decimal("170141183460469231731687303715884105727")));
    assert!(miller_rabin(&from_decimal(
        "6864797660130609714981900799081393217269435300143305409394463459185543183397656052122559640661454554977296311391480858037121987999716643812574028291115057151"
    )));
}

#[test]
fn random_bases_reject_composites() {
    for n in [9u64, 15, 65537 * 65539, 1373653, 3215031751, 4294967297] {
        assert!(!miller_rabin(&natural(n)), "{}", n);
    }
    assert!(!miller_rabin(&from_decimal("170141183460469231731687303715884105729")));
}

#[test]
fn filter_rejects_multiples_of_sieved_primes() {
    let list = small_primes(100, 3);
    for p in [3u64, 5, 7, 97] {
        for factor in [1u64, 2, 101, 1 << 33, 0xffff_ffff_ffff] {
            let n = natural(p * factor);
            assert!(!first_pass_primality_check(&n, &list), "{} * {}", p, factor);
        }
    }
}

#[test]
fn filter_accepts_what_no_sieved_prime_divides() {
    let list = small_primes(100, 3);
    for n in [1u64, 2, 4, 101, 103, 101 * 103, 1 << 40, 2305843009213693951] {
        assert!(first_pass_primality_check(&natural(n), &list), "{}", n);
    }
}

#[test]
fn filter_matches_reference_modulo() {
    let list = small_primes(300, 2);
    let mut n = 2105377u64;
    while n < 2105377 + 2000 {
        let expected = list.iter().all(|(p, _)| n % u64::from(*p) != 0);
        assert_eq!(first_pass_primality_check(&natural(n), &list), expected, "{}", n);
        n += 1;
    }
}

#[test]
fn filter_with_an_empty_list_accepts() {
    assert!(first_pass_primality_check(&natural(9), &vec![]));
}

#[test]
fn filter_goes_by_the_tables_it_is_given() {
    let ten = natural(10);
    let eleven = natural(11);
    assert!(!first_pass_primality_check(&ten, &vec![(5, precompute_bignum_u32(1, 5))]));
    assert!(first_pass_primality_check(&eleven, &vec![(5, precompute_bignum_u32(1, 5))]));
    assert!(!first_pass_primality_check(&eleven, &vec![(5, vec![5, 0])]));
    assert!(first_pass_primality_check(&ten, &vec![(7, vec![3, 0])]));
    assert!(!first_pass_primality_check(&ten, &vec![(7, vec![7, 0])]));
}
