use eratosthenes::{find_primes, prime_serch, sieve};

const PRIMES_TO_100: [usize; 25] = [
    2, 3, 5, 7, 11, 13, 17, 19, 23, 29, 31, 37, 41, 43, 47, 53, 59, 61, 67, 71, 73, 79, 83, 89,
    97,
];

fn is_prime_by_trial(m: usize) -> bool {
    m >= 2 && (2..m).all(|d| m % d != 0)
}

#[test]
fn test_sieve() {
    let mut candidate: Vec<usize> = vec![2, 3, 4, 5, 6, 7, 8, 9, 10];

    sieve(2, &mut candidate);

    assert_eq!(candidate, vec![0, 3, 0, 5, 0, 7, 0, 9, 0])
}

#[test]
fn test_prime_serch() {
    let primes: Vec<usize> = vec![
        2, 3, 5, 7, 11, 13, 17, 19, 23, 29, 31, 37, 41, 43, 47, 53, 59, 61, 67, 71, 73, 79, 83,
        89, 97,
    ];

    assert_eq!(prime_serch(100), primes);
}

#[test]
fn test_generic() {
    let primes: Vec<usize> = vec![
        2, 3, 5, 7, 11, 13, 17, 19, 23, 29, 31, 37, 41, 43, 47, 53, 59, 61, 67, 71, 73, 79, 83,
        89, 97,
    ];

    assert_eq!(prime_serch(100_u8), primes);
    assert_eq!(prime_serch(100_u16), primes);
    assert_eq!(prime_serch(100_u32), primes);
    assert_eq!(prime_serch(100_u64), primes);
    assert_eq!(prime_serch(100_u128), primes);
    assert_eq!(prime_serch(100_i8), primes);
    assert_eq!(prime_serch(100_i16), primes);
    assert_eq!(prime_serch(100_i32), primes);
    assert_eq!(prime_serch(100_i64), primes);
    assert_eq!(prime_serch(100_i128), primes);
}

#[test]
fn sieve_again_with_three() {
    let mut candidate: Vec<usize> = vec![0, 3, 0, 5, 0, 7, 0, 9, 0];

    sieve(3, &mut candidate);

    assert_eq!(candidate, vec![0, 0, 0, 5, 0, 7, 0, 0, 0])
}

#[test]
fn sieve_on_empty_buffer() {
    let mut candidate: Vec<usize> = Vec::new();
    sieve(5, &mut candidate);
    assert!(candidate.is_empty());
}

#[test]
fn no_primes_below_two() {
    assert_eq!(find_primes(0), Vec::<usize>::new());
    assert_eq!(find_primes(1), Vec::<usize>::new());
}

#[test]
fn two_is_the_only_prime_up_to_two() {
    assert_eq!(find_primes(2), vec![2]);
}

#[test]
fn small_bounds() {
    assert_eq!(find_primes(3), vec![2, 3]);
    assert_eq!(find_primes(4), vec![2, 3]);
    assert_eq!(find_primes(5), vec![2, 3, 5]);
    assert_eq!(find_primes(9), vec![2, 3, 5, 7]);
}

#[test]
fn primes_up_to_twenty() {
    assert_eq!(find_primes(20), vec![2, 3, 5, 7, 11, 13, 17, 19]);
}

#[test]
fn primes_up_to_one_hundred() {
    let primes = find_primes(100);
    assert_eq!(primes.len(), 25);
    assert_eq!(primes, PRIMES_TO_100.to_vec());
}

#[test]
fn bounds_at_prime_squares() {
    assert_eq!(find_primes(25), vec![2, 3, 5, 7, 11, 13, 17, 19, 23]);
    assert_eq!(find_primes(49), PRIMES_TO_100[..15].to_vec());
    assert_eq!(find_primes(48), PRIMES_TO_100[..15].to_vec());
    assert_eq!(find_primes(121).len(), 30);
}

#[test]
fn primes_up_to_one_thousand_count() {
    let primes = find_primes(1000);
    assert_eq!(primes.len(), 168);
    assert_eq!(primes[primes.len() - 1], 997);
}

#[test]
fn results_are_prime_ascending_and_complete() {
    for n in 0..300usize {
        let primes = find_primes(n);
        for w in primes.windows(2) {
            assert!(w[0] < w[1]);
        }
        for &p in &primes {
            assert!(p <= n && is_prime_by_trial(p));
        }
        for m in 2..=n {
            if !primes.contains(&m) {
                assert!(primes.iter().any(|&p| p * p <= n && m % p == 0));
            }
        }
    }
}

#[test]
fn repeated_calls_agree() {
    for n in [0usize, 1, 2, 30, 97, 500] {
        assert_eq!(find_primes(n), find_primes(n));
    }
}

#[test]
fn normalised_bounds_agree_with_usize() {
    assert_eq!(prime_serch(127_i8), find_primes(127));
    assert_eq!(prime_serch(255_u8), find_primes(255));
    assert_eq!(prime_serch(0_i64), find_primes(0));
    assert_eq!(prime_serch(1_u128), find_primes(1));
    assert_eq!(prime_serch(1000_i32), find_primes(1000));
    assert_eq!(prime_serch(1000_u16), find_primes(1000));
}
