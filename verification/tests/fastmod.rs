use num_bigint::BigUint;
use vanity_primes::fastmod::{
    fastmod_bignum_bignum, fastmod_bignum_u32, precompute_bignum_bignum, precompute_bignum_u32,
};
use vanity_primes::natural::Natural;

fn big(n: &Natural) -> BigUint {
    BigUint::from_slice(n.words())
}

fn natural(n: &BigUint) -> Natural {
    Natural::from_words(n.to_u32_digits())
}

fn sample_numbers() -> Vec<Vec<u32>> {
    vec![
        vec![],
        vec![1],
        vec![2],
        vec![0xffff_ffff],
        vec![0, 1],
        vec![0xffff_ffff, 0xffff_ffff],
        vec![0x1234_5678, 0x9abc_def0, 0x0fed_cba9],
        vec![0xffff_ffff, 0xffff_ffff, 0xffff_ffff, 0xffff_ffff],
        vec![13, 0, 1],
        vec![0, 0, 0, 7],
    ]
}

#[test]
fn word_table_starts_at_one() {
    for k in [1u32, 2, 3, 7, 104729, 0xffff_ffff] {
        let table = precompute_bignum_u32(3, k);
        assert_eq!(table[0], 1);
        assert_eq!(u64::from(table[0]) % u64::from(k), 1 % u64::from(k));
    }
}

#[test]
fn word_table_has_limit_plus_one_entries() {
    assert_eq!(precompute_bignum_u32(0, 5).len(), 1);
    assert_eq!(precompute_bignum_u32(1, 5).len(), 2);
    assert_eq!(precompute_bignum_u32(9, 5).len(), 10);
}

#[test]
fn word_table_exact_entries() {
    assert_eq!(precompute_bignum_u32(3, 3), vec![1, 1, 1, 1]);
    assert_eq!(precompute_bignum_u32(3, 7), vec![1, 4, 2, 1]);
    assert_eq!(precompute_bignum_u32(3, 104729), vec![1, 31006, 64545, 15809]);
    assert_eq!(precompute_bignum_u32(2, 0xffff_ffff), vec![1, 1, 1]);
    assert_eq!(precompute_bignum_u32(2, 1), vec![1, 0, 0]);
    assert_eq!(precompute_bignum_u32(2, 2), vec![1, 0, 0]);
}

#[test]
fn word_table_entries_are_radix_powers() {
    for k in [3u32, 5, 97, 65537, 104729, 0x8000_0001, 0xffff_fffe] {
        let table = precompute_bignum_u32(6, k);
        let radix = BigUint::from(1u64 << 32);
        let mut power = BigUint::from(1u32);
        for entry in table.iter() {
            assert_eq!(BigUint::from(*entry), &power % k);
            power = &power * &radix;
        }
    }
}

#[test]
fn big_table_starts_at_one() {
    for words in [vec![1u32], vec![3], vec![0, 1], vec![13, 0, 1]] {
        let k = Natural::from_words(words);
        let table = precompute_bignum_bignum(2, &k);
        assert_eq!(table[0].words(), &vec![1u32]);
    }
}

#[test]
fn big_table_exact_entries() {
    let k = Natural::from_words(vec![13, 0, 1]);
    let table = precompute_bignum_bignum(3, &k);
    assert_eq!(table.len(), 4);
    assert_eq!(table[0].words(), &vec![1u32]);
    assert_eq!(table[1].words(), &vec![0u32, 1]);
    assert_eq!(big(&table[2]), BigUint::from(18446744073709551616u128));
    assert_eq!(big(&table[3]), BigUint::from(18446744017874976781u128));
}

#[test]
fn big_table_entries_are_radix_powers() {
    for words in sample_numbers() {
        let k = Natural::from_words(words);
        if k.is_zero() {
            continue;
        }
        let table = precompute_bignum_bignum(5, &k);
        assert_eq!(table.len(), 6);
        let radix = BigUint::from(1u64 << 32);
        let mut power = BigUint::from(1u32);
        for (i, entry) in table.iter().enumerate() {
            if i == 0 {
                assert_eq!(big(entry), BigUint::from(1u32));
            } else {
                assert_eq!(big(entry), &power % big(&k));
            }
            power = &power * &radix;
        }
    }
}

#[test]
fn word_reduction_matches_reference_modulo() {
    for k in [2u32, 3, 5, 7, 97, 104729, 65537, 0x8000_0001, 0xffff_ffff] {
        let table = precompute_bignum_u32(4, k);
        for words in sample_numbers() {
            let n = Natural::from_words(words);
            let expected = big(&n) % k;
            assert_eq!(BigUint::from(fastmod_bignum_u32(&n, k, &table)), expected);
        }
    }
}

#[test]
fn word_reduction_exact_values() {
    let n = Natural::from_words(vec![13, 0, 1]);
    assert_eq!(fastmod_bignum_u32(&n, 7, &precompute_bignum_u32(3, 7)), 1);
    assert_eq!(fastmod_bignum_u32(&n, 3, &precompute_bignum_u32(3, 3)), 2);
    assert_eq!(fastmod_bignum_u32(&n, 104729, &precompute_bignum_u32(3, 104729)), 64558);
}

#[test]
fn word_reduction_survives_the_largest_terms() {
    let k = 0xffff_ffffu32;
    let table = vec![0xffff_ffffu32; 64];
    let n = Natural::from_words(vec![0xffff_ffffu32; 64]);
    let term = u128::from(0xffff_ffffu32) * u128::from(0xffff_ffffu32);
    let expected = (term * 64) % u128::from(k);
    assert_eq!(u128::from(fastmod_bignum_u32(&n, k, &table)), expected);
}

#[test]
fn word_reduction_weights_each_word() {
    let n = Natural::from_words(vec![2, 3, 5]);
    let table = vec![10u32, 100, 1000];
    assert_eq!(fastmod_bignum_u32(&n, 11, &table), 7);
    assert_eq!(fastmod_bignum_u32(&n, 7, &table), 0);
}

#[test]
fn word_reduction_of_zero_is_zero() {
    let table = precompute_bignum_u32(0, 5);
    assert_eq!(fastmod_bignum_u32(&Natural::zero(), 5, &table), 0);
}

#[test]
fn big_reduction_matches_reference_modulo() {
    for modulus in sample_numbers() {
        let k = Natural::from_words(modulus);
        if k.is_zero() {
            continue;
        }
        let table = precompute_bignum_bignum(4, &k);
        for words in sample_numbers() {
            let n = Natural::from_words(words);
            let expected = big(&n) % big(&k);
            assert_eq!(big(&fastmod_bignum_bignum(&n, &k, &table)), expected);
        }
    }
}

#[test]
fn big_reduction_weights_each_word() {
    let n = Natural::from_words(vec![2, 3, 5]);
    let table = vec![Natural::from_u32(10), Natural::from_u32(100), Natural::from_u32(1000)];
    let r = fastmod_bignum_bignum(&n, &Natural::from_u32(11), &table);
    assert_eq!(r.words(), &vec![7u32]);
    let r = fastmod_bignum_bignum(&n, &Natural::from_u32(7), &table);
    assert!(r.is_zero());
}

#[test]
fn big_reduction_of_a_square() {
    let n = BigUint::parse_bytes(b"170141183460469231731687303715884105727", 10).unwrap();
    let c = BigUint::parse_bytes(b"123456789012345678901234567890123456789", 10).unwrap();
    let k = natural(&n);
    let table = precompute_bignum_bignum(k.bits() / 16, &k);
    let square = natural(&(&c * &c));
    assert_eq!(big(&fastmod_bignum_bignum(&square, &k, &table)), (&c * &c) % &n);
}

#[test]
fn tiny_modulus_one_word_candidate() {
    let table = precompute_bignum_u32(1, 3);
    assert_eq!(table, vec![1, 1]);
    assert_eq!(fastmod_bignum_u32(&Natural::from_u32(10), 3, &table), 1);
    assert_eq!(fastmod_bignum_u32(&Natural::from_u32(9), 3, &table), 0);
    assert_eq!(fastmod_bignum_u32(&Natural::from_u32(0xffff_ffff), 3, &table), 0);
    let k = Natural::from_u32(3);
    let big_table = precompute_bignum_bignum(1, &k);
    let r = fastmod_bignum_bignum(&Natural::from_u32(11), &k, &big_table);
    assert_eq!(r.words(), &vec![2u32]);
}
