use dh_exchange::bignum::BigNat;
use dh_exchange::crypto::{
    compute_public_key, compute_shared_secret, generate_dh_params, generate_random_prime, generate_secret_key,
    is_probable_prime, is_probable_prime_with, is_valid_generator, mod_pow, prime_candidate, GroupParameters,
};

fn n(v: u64) -> BigNat {
    BigNat::from_u64(v)
}

fn naive(base: u64, exp: u64, modulus: u64) -> u64 {
    let mut acc: u64 = 1;
    for _ in 0..exp {
        acc = (acc * base) % modulus;
    }
    acc
}

fn sieve(limit: usize) -> Vec<bool> {
    let mut prime = vec![true; limit];
    prime[0] = false;
    prime[1] = false;
    let mut i = 2;
    while i * i < limit {
        if prime[i] {
            let mut j = i * i;
            while j < limit {
                prime[j] = false;
                j += i;
            }
        }
        i += 1;
    }
    prime
}

#[test]
fn mod_pow_known_value() {
    assert_eq!(mod_pow(&n(4), &n(13), &n(497)), n(445));
    assert_eq!(mod_pow(&n(2), &n(10), &n(1000)), n(24));
}

#[test]
fn mod_pow_zero_exponent_is_one() {
    for m in 1..20u64 {
        for b in 0..20u64 {
            assert_eq!(mod_pow(&n(b), &n(0), &n(m)), n(1));
        }
    }
}

#[test]
fn mod_pow_matches_repeated_multiplication() {
    for m in 1..16u64 {
        for b in 0..16u64 {
            for e in 0..16u64 {
                assert_eq!(mod_pow(&n(b), &n(e), &n(m)), n(naive(b, e, m)), "{} {} {}", b, e, m);
            }
        }
    }
}

#[test]
fn mod_pow_multi_byte_operands() {
    // 2^64 mod (2^61 - 1) == 8
    let m = n((1u64 << 61) - 1);
    assert_eq!(mod_pow(&n(2), &n(64), &m), n(8));
    let big = BigNat::from_bytes_be(&[1, 0, 0, 0, 0, 0, 0, 0, 0]);
    assert_eq!(mod_pow(&big, &n(1), &n(1_000_000_007)), n(582_344_008));
}

#[test]
fn primality_small_edge_cases() {
    assert!(!is_probable_prime(&n(0), 8));
    assert!(!is_probable_prime(&n(1), 8));
    assert!(is_probable_prime(&n(2), 8));
    assert!(is_probable_prime(&n(3), 8));
    assert!(!is_probable_prime(&n(4), 8));
    assert!(is_probable_prime(&n(5), 8));
    assert!(!is_probable_prime(&n(9), 8));
}

#[test]
fn primality_true_for_primes_below_ten_thousand() {
    let prime = sieve(10_000);
    for v in 0..10_000u64 {
        if prime[v as usize] {
            assert!(is_probable_prime(&n(v), 1), "{} is prime", v);
        }
    }
}

#[test]
fn primality_false_for_composites_below_ten_thousand() {
    let prime = sieve(10_000);
    for v in 0..10_000u64 {
        if !prime[v as usize] {
            assert!(!is_probable_prime(&n(v), 20), "{} is composite", v);
        }
    }
}

#[test]
fn primality_large_known_values() {
    assert!(is_probable_prime(&n((1u64 << 61) - 1), 32));
    assert!(!is_probable_prime(&n(((1u64 << 31) - 1) * 65537), 32));
}

#[test]
fn primality_with_given_witnesses() {
    // 2047 = 23 * 89 passes the round for witness 2 but not for witness 3.
    assert!(is_probable_prime_with(&n(2047), &vec![n(2)]));
    assert!(!is_probable_prime_with(&n(2047), &vec![n(3)]));
    assert!(!is_probable_prime_with(&n(2047), &vec![n(2), n(3)]));
    assert!(is_probable_prime_with(&n(2047), &vec![]));
    assert!(is_probable_prime_with(&n(97), &vec![n(2), n(5), n(95)]));
    assert!(!is_probable_prime_with(&n(100), &vec![]));
}

#[test]
fn prime_candidate_sets_low_and_top_bits() {
    assert_eq!(prime_candidate(&n(0), 8), n(129));
    assert_eq!(prime_candidate(&n(160), 8), n(161));
    assert_eq!(prime_candidate(&n(255), 8), n(255));
    assert_eq!(prime_candidate(&n(2), 3), n(7));
}

#[test]
fn random_prime_has_requested_bits() {
    let p = generate_random_prime(32).unwrap();
    let v = u64::from_str_radix(&hex(&p.to_bytes_be()), 16).unwrap();
    assert!(v >= 1u64 << 31 && v < 1u64 << 32);
    assert_eq!(v % 2, 1);
    assert!(is_probable_prime(&p, 32));
}

fn hex(bytes: &[u8]) -> String {
    bytes.iter().map(|b| format!("{:02x}", b)).collect()
}

#[test]
fn generator_check_known_values() {
    // 2^11 mod 23 == 1, 5^11 mod 23 == 22
    assert!(!is_valid_generator(&n(2), &n(23)));
    assert!(is_valid_generator(&n(5), &n(23)));
}

#[test]
fn group_parameters_validation() {
    assert!(GroupParameters::new(n(23), n(5)).is_some());
    assert!(GroupParameters::new(n(23), n(2)).is_none());
    assert!(GroupParameters::new(n(23), n(1)).is_none());
    assert!(GroupParameters::new(n(23), n(22)).is_none());
    assert!(GroupParameters::new(n(4), n(2)).is_none());
    assert!(GroupParameters::new(n(24), n(5)).is_none());
    let params = GroupParameters::new(n(23), n(5)).unwrap();
    assert_eq!(params.p(), &n(23));
    assert_eq!(params.g(), &n(5));
}

#[test]
fn generated_parameters_are_valid() {
    let params = generate_dh_params(64).unwrap();
    let p = params.p();
    let g = params.g();
    let pv = u64::from_str_radix(&hex(&p.to_bytes_be()), 16).unwrap();
    let gv = u64::from_str_radix(&hex(&g.to_bytes_be()), 16).unwrap();
    assert!(pv >= 1u64 << 63);
    assert_eq!(pv % 2, 1);
    assert!(gv >= 2 && gv <= pv - 2);
    assert!(is_valid_generator(g, p));
    assert!(is_probable_prime(p, 32));
}

#[test]
fn secret_key_in_range() {
    for _ in 0..200 {
        let s = generate_secret_key(&n(23));
        let v = s.to_bytes_be();
        assert_eq!(v.len(), 1);
        assert!(v[0] >= 2 && v[0] <= 21);
    }
}

#[test]
fn public_and_shared_values_known() {
    // p = 23, g = 5, secrets 4 and 3
    let a = compute_public_key(&n(4), &n(5), &n(23));
    let b = compute_public_key(&n(3), &n(5), &n(23));
    assert_eq!(a, n(4));
    assert_eq!(b, n(10));
    assert_eq!(compute_shared_secret(&b, &n(4), &n(23)), n(18));
    assert_eq!(compute_shared_secret(&a, &n(3), &n(23)), n(18));
}

#[test]
fn shared_secret_agreement_on_generated_parameters() {
    let params = generate_dh_params(64).unwrap();
    let p = params.p();
    let g = params.g();
    for _ in 0..5 {
        let x = generate_secret_key(p);
        let y = generate_secret_key(p);
        let big_x = compute_public_key(&x, g, p);
        let big_y = compute_public_key(&y, g, p);
        assert_eq!(compute_shared_secret(&big_y, &x, p), compute_shared_secret(&big_x, &y, p));
    }
}

#[test]
fn primes_pass_every_witness() {
    for &p in &[5u64, 7, 97, 257, 7919] {
        let all: Vec<BigNat> = (1..p).map(n).collect();
        assert!(is_probable_prime_with(&n(p), &all), "{}", p);
    }
}
