use num_bigint::BigUint;
use vanity_primes::candidate::candidate_bytes;
use vanity_primes::natural::Natural;
use vanity_primes::search::{search_step, ConfigError, SearchContext, Worker};
use vanity_primes::sieve::DEFAULT_SIEVE_BOUND;

fn to_u64(n: &Natural) -> u64 {
    let words = n.words();
    assert!(words.len() <= 2);
    let low = words.first().copied().unwrap_or(0);
    let high = words.get(1).copied().unwrap_or(0);
    (u64::from(high) << 32) | u64::from(low)
}

fn is_prime_by_division(n: u64) -> bool {
    if n < 2 {
        return false;
    }
    if n % 2 == 0 {
        return n == 2;
    }
    let mut d = 3u64;
    while d * d <= n {
        if n % d == 0 {
            return false;
        }
        d += 2;
    }
    true
}

fn find(ctx: &SearchContext, worker: &mut Worker) -> Natural {
    loop {
        assert!(worker.attempts < 1_000_000);
        if let Some(found) = worker.attempt(ctx) {
            return found;
        }
    }
}

#[test]
fn empty_prefix_is_refused() {
    assert_eq!(SearchContext::new(b"", 100).err(), Some(ConfigError::EmptyPrefix));
}

#[test]
fn unprintable_prefix_is_refused() {
    assert_eq!(SearchContext::new(b"A\x01", 100).err(), Some(ConfigError::UnprintablePrefix));
    assert_eq!(SearchContext::new(b"\x7f", 100).err(), Some(ConfigError::UnprintablePrefix));
    assert_eq!(SearchContext::new(b"AB\x80", 100).err(), Some(ConfigError::UnprintablePrefix));
    assert_eq!(SearchContext::new(b"\x00AB", 100).err(), Some(ConfigError::UnprintablePrefix));
    assert_eq!(SearchContext::new(b"\x1fAB", 100).err(), Some(ConfigError::UnprintablePrefix));
}

#[test]
fn context_holds_the_shifted_prefix() {
    let ctx = SearchContext::new(b"AB", 100).unwrap();
    assert_eq!(ctx.text(), &b"AB".to_vec());
    assert_eq!(ctx.prefix().words(), &vec![0x4200_0000u32, 0x41]);
    assert_eq!(ctx.prefix().bits(), 39);
    let expected = BigUint::from_bytes_be(b"AB") << 24usize;
    assert_eq!(BigUint::from_slice(ctx.prefix().words()), expected);
}

#[test]
fn context_holds_a_long_prefix() {
    let text = b"Hello world! This is a long prefix";
    let ctx = SearchContext::new(text, 50).unwrap();
    let expected = BigUint::from_bytes_be(text) << 24usize;
    assert_eq!(BigUint::from_slice(ctx.prefix().words()), expected);
    assert_eq!(ctx.prefix().bits(), expected.bits());
}

#[test]
fn context_tables_cover_the_candidates() {
    let ctx = SearchContext::new(b"AB", 100).unwrap();
    assert_eq!(ctx.sieve_bound(), 100);
    assert_eq!(ctx.small_primes().len(), 24);
    assert_eq!(ctx.small_primes()[0].0, 3);
    assert_eq!(ctx.small_primes()[23].0, 97);
    for (p, table) in ctx.small_primes().iter() {
        assert_eq!(table.len(), 39 / 32 + 2);
        assert_eq!(table[0], 1);
        assert_eq!(u64::from(table[1]), (1u64 << 32) % u64::from(*p));
    }
}

#[test]
fn context_accepts_the_edges_of_the_printable_range() {
    assert!(SearchContext::new(b" ", 10).is_ok());
    assert!(SearchContext::new(b"~", 10).is_ok());
    assert!(SearchContext::new(b" ~ ~", 10).is_ok());
}

#[test]
fn text_of_a_candidate_starts_with_the_prefix() {
    let ctx = SearchContext::new(b"AB", 100).unwrap();
    let c = ctx.candidate([7, 0x00, 0x7f, 0x10]);
    assert_eq!(ctx.text_of(&c), b"AB }1".to_vec());
}

#[test]
fn candidate_of_context_appends_the_suffix() {
    let ctx = SearchContext::new(b"AB", 100).unwrap();
    let c = ctx.candidate([0x99, 0x41, 0x42, 0x43]);
    assert_eq!(candidate_bytes(&c), b"ABABC".to_vec());
    let c = ctx.candidate([0, 0, 0xff, 0x80]);
    assert_eq!(candidate_bytes(&c), b"AB }!".to_vec());
}

#[test]
fn every_candidate_is_printable_and_odd() {
    let ctx = SearchContext::new(b"prime", 10).unwrap();
    for a in (0u8..=255).step_by(5) {
        for b in (0u8..=255).step_by(3) {
            let c = ctx.candidate([b, a, b.wrapping_add(a), a ^ b]);
            let bytes = candidate_bytes(&c);
            assert_eq!(bytes.len(), 8);
            assert_eq!(&bytes[..5], b"prime");
            assert!(bytes.iter().all(|x| (0x20..=0x7e).contains(x)));
            assert!(c.is_odd());
        }
    }
}

#[test]
fn step_rejects_a_candidate_with_a_sieved_divisor() {
    let ctx = SearchContext::new(b"AB", 100).unwrap();
    let random = [0u8, 0x41, 0x42, 0x47];
    let c = to_u64(&ctx.candidate(random));
    assert_eq!(c, 0x41_4241_4247);
    assert_eq!(c % 7, 0);
    assert!(search_step(&ctx, random).is_none());
    let random = [0u8, 0x30, 0x30, 0x35];
    assert_eq!(to_u64(&ctx.candidate(random)) % 5, 0);
    assert!(search_step(&ctx, random).is_none());
}

#[test]
fn step_agrees_with_trial_division() {
    let ctx = SearchContext::new(b"AB", 1000).unwrap();
    let mut found = 0;
    for a in 0x20u8..0x7f {
        for b in [0x21u8, 0x43, 0x65, 0x7d] {
            let random = [0, a, 0x55, b];
            let c = to_u64(&ctx.candidate(random));
            let result = search_step(&ctx, random);
            assert_eq!(result.is_some(), is_prime_by_division(c), "{}", c);
            if let Some(n) = result {
                assert_eq!(to_u64(&n), c);
                found += 1;
            }
        }
    }
    assert!(found > 0);
}

#[test]
fn worker_counts_its_attempts() {
    let ctx = SearchContext::new(b"AB", 100).unwrap();
    let mut worker = Worker::new();
    assert_eq!(worker.attempts, 0);
    for expected in 1..=20u64 {
        let _ = worker.attempt(&ctx);
        assert_eq!(worker.attempts, expected);
    }
}

#[test]
fn search_with_prefix_ab_finds_a_printable_prime() {
    let ctx = SearchContext::new(b"AB", DEFAULT_SIEVE_BOUND).unwrap();
    let mut worker = Worker::new();
    let found = find(&ctx, &mut worker);
    assert!(worker.attempts >= 1);
    let bytes = candidate_bytes(&found);
    assert_eq!(bytes.len(), 5);
    assert_eq!(&bytes[..2], b"AB");
    assert!(bytes.iter().all(|b| (0x20..=0x7e).contains(b)));
    assert!(std::str::from_utf8(&bytes).is_ok());
    assert!(found.is_odd());
    assert!(is_prime_by_division(to_u64(&found)));
}

#[test]
fn repeated_searches_find_different_candidates() {
    let ctx = SearchContext::new(b"AB", 1000).unwrap();
    let mut worker = Worker::new();
    let mut finds: Vec<u64> = Vec::new();
    for _ in 0..6 {
        finds.push(to_u64(&find(&ctx, &mut worker)));
    }
    assert!(finds.iter().any(|f| *f != finds[0]));
}
