use num_bigint::BigUint;
use vanity_primes::natural::Natural;

fn reference(n: &Natural) -> BigUint {
    BigUint::from_slice(n.words())
}

#[test]
fn zero_has_no_words() {
    let z = Natural::zero();
    assert!(z.words().is_empty());
    assert!(z.is_zero());
    assert!(!z.is_odd());
    assert_eq!(z.bits(), 0);
}

#[test]
fn from_u32_keeps_the_word() {
    let n = Natural::from_u32(1125);
    assert_eq!(n.words(), &vec![1125u32]);
    assert!(!n.is_zero());
    assert!(n.is_odd());
    assert_eq!(n.bits(), 11);
}

#[test]
fn from_u32_of_zero_is_zero() {
    let n = Natural::from_u32(0);
    assert!(n.is_zero());
    assert_eq!(n, Natural::zero());
}

#[test]
fn from_words_drops_leading_zero_words() {
    let n = Natural::from_words(vec![7, 0, 9, 0, 0]);
    assert_eq!(n.words(), &vec![7u32, 0, 9]);
    let z = Natural::from_words(vec![0, 0, 0]);
    assert!(z.is_zero());
    assert!(z.words().is_empty());
}

#[test]
fn from_words_keeps_canonical_words() {
    let n = Natural::from_words(vec![830850304, 26]);
    assert_eq!(n.words(), &vec![830850304u32, 26]);
    assert_eq!(reference(&n), BigUint::from(112500000000u64));
}

#[test]
fn is_equal_compares_values() {
    let a = Natural::from_words(vec![1, 2, 3]);
    let b = Natural::from_words(vec![1, 2, 3, 0]);
    let c = Natural::from_words(vec![1, 2, 4]);
    let d = Natural::from_words(vec![1, 2]);
    assert!(a.is_equal(&b));
    assert!(b.is_equal(&a));
    assert!(!a.is_equal(&c));
    assert!(!a.is_equal(&d));
    assert!(!d.is_equal(&a));
    assert!(Natural::zero().is_equal(&Natural::from_u32(0)));
}

#[test]
fn is_odd_reads_the_low_bit() {
    assert!(Natural::from_words(vec![1, 2]).is_odd());
    assert!(!Natural::from_words(vec![2, 1]).is_odd());
    assert!(Natural::from_words(vec![0xffff_ffff]).is_odd());
    assert!(!Natural::from_words(vec![0, 1]).is_odd());
}

#[test]
fn bits_counts_like_the_reference() {
    let cases: Vec<Vec<u32>> = vec![
        vec![1],
        vec![2],
        vec![3],
        vec![0x8000_0000],
        vec![0xffff_ffff],
        vec![0, 1],
        vec![0xffff_ffff, 0x7fff_ffff],
        vec![5, 0, 0, 0x10],
    ];
    for words in cases {
        let n = Natural::from_words(words);
        assert_eq!(n.bits(), reference(&n).bits());
    }
}

#[test]
fn bits_exact_values() {
    assert_eq!(Natural::from_u32(1).bits(), 1);
    assert_eq!(Natural::from_u32(255).bits(), 8);
    assert_eq!(Natural::from_u32(256).bits(), 9);
    assert_eq!(Natural::from_words(vec![0, 1]).bits(), 33);
    assert_eq!(Natural::from_words(vec![0, 0, 0x8000_0000]).bits(), 96);
}

#[test]
fn clone_keeps_the_value() {
    let n = Natural::from_words(vec![5, 6, 7]);
    let m = n.clone();
    assert_eq!(m, n);
    assert_eq!(m.words(), &vec![5u32, 6, 7]);
}
