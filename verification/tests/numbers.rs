use active_recall::cpu_work::{
    computation_range, computation_step, expensive_computation, fibonacci, fibonacci_iterative,
    fill_and_sum, hash_operations, wrapping_square_sum,
};
use active_recall::primes::{
    integer_sqrt, is_prime, odd_trial_division, prime_check, prime_check_optimized,
    prime_search_ranges, primes_in_range,
};
use active_recall::str_map::StrMap;

fn naive_prime(n: u64) -> bool {
    n >= 2 && (2..n).all(|d| n % d != 0)
}

fn isqrt(n: usize) -> usize {
    let mut r = 0;
    while (r + 1) * (r + 1) <= n {
        r += 1;
    }
    r
}

#[test]
fn is_prime_matches_definition() {
    for n in -5..200 {
        assert_eq!(is_prime(n), n >= 0 && naive_prime(n as u64), "n = {}", n);
    }
    assert!(is_prime(2147483647));
    assert!(!is_prime(i32::MIN));
}

#[test]
fn prime_checks_agree_at_integer_square_root() {
    for n in 0..2000usize {
        let expected = if naive_prime(n as u64) { 1 } else { 0 };
        assert_eq!(prime_check(n), expected, "n = {}", n);
        assert_eq!(prime_check_optimized(n), expected, "n = {}", n);
        assert_eq!(odd_trial_division(n, isqrt(n)), expected, "n = {}", n);
    }
}

#[test]
fn optimized_check_with_short_limit_accepts_odd_composites() {
    // With no divisor tried, 9 passes; with the square root it does not.
    assert_eq!(odd_trial_division(9, 2), 1);
    assert_eq!(odd_trial_division(9, 3), 0);
    assert_eq!(odd_trial_division(2, 0), 1);
    assert_eq!(odd_trial_division(4, 2), 0);
}

#[test]
fn search_ranges_cover_the_numbers() {
    assert_eq!(prime_search_ranges(1000, 4), vec![(1, 251), (251, 501), (501, 751), (751, 1001)]);
    assert_eq!(prime_search_ranges(10, 3), vec![(1, 4), (4, 7), (7, 10)]);
    assert_eq!(primes_in_range(1, 30), vec![2, 3, 5, 7, 11, 13, 17, 19, 23, 29]);
    assert_eq!(primes_in_range(10, 10), Vec::<i32>::new());
    let all: Vec<i32> = prime_search_ranges(1000, 4)
        .into_iter()
        .flat_map(|(lo, hi)| primes_in_range(lo, hi))
        .collect();
    assert_eq!(all.len(), 168);
}

#[test]
fn fibonacci_versions_agree() {
    let expected: [u64; 11] = [0, 1, 1, 2, 3, 5, 8, 13, 21, 34, 55];
    for (n, e) in expected.iter().enumerate() {
        assert_eq!(fibonacci(n), *e);
        assert_eq!(fibonacci_iterative(n), *e);
    }
    assert_eq!(fibonacci(29), 514229);
    assert_eq!(fibonacci_iterative(29), 514229);
    assert_eq!(fibonacci_iterative(93), 12200160415121876738);
}

#[test]
fn hash_sum_is_n_times_n_minus_one() {
    assert_eq!(hash_operations(0), 0);
    assert_eq!(hash_operations(1), 0);
    assert_eq!(hash_operations(49), 49 * 48);
    let mut map = StrMap::new();
    map.insert("stale".to_string(), 1);
    assert_eq!(fill_and_sum(&mut map, 5), 20);
    assert_eq!(map.len(), 5);
    assert_eq!(map.get("key_4"), Some(&8));
    assert_eq!(map.get("key_0"), Some(&0));
    assert_eq!(map.get("stale"), None);
    let mut big = StrMap::new();
    assert_eq!(fill_and_sum(&mut big, 12), 132);
    assert_eq!(big.get("key_11"), Some(&22));
    assert_eq!(big.get("key_1"), Some(&2));
}

#[test]
fn workload_sums_its_steps() {
    let step = |i: usize| -> u64 {
        let fib = fibonacci_iterative(i % 30);
        let prime = if naive_prime((i % 1000 + 2) as u64) { 1 } else { 0 };
        let m = (i % 50) as u64;
        fib + prime + m * m.saturating_sub(1)
    };
    for i in [0usize, 1, 2, 31, 49, 50, 997] {
        assert_eq!(computation_step(i), step(i));
    }
    let total: u64 = (0..20).map(step).sum();
    assert_eq!(expensive_computation(20), total);
    assert_eq!(computation_range(5, 20), (5..20).map(step).sum::<u64>());
    assert_eq!(computation_range(7, 7), 0);
}

#[test]
fn square_sum_wraps() {
    assert_eq!(wrapping_square_sum(0), 0);
    assert_eq!(wrapping_square_sum(4), 0 + 1 + 4 + 9);
    let mut expected: u64 = 0;
    for i in 0..3_000_000u64 {
        expected = expected.wrapping_add(i * i);
    }
    assert_eq!(wrapping_square_sum(3_000_000), expected);
}

#[test]
fn search_ranges_at_the_edges() {
    assert_eq!(prime_search_ranges(10, 0), vec![]);
    assert_eq!(prime_search_ranges(10, -2), vec![]);
    assert_eq!(prime_search_ranges(-10, 3), vec![(1, -2), (-2, -5), (-5, -8)]);
    assert_eq!(
        prime_search_ranges(i32::MAX, 2),
        vec![(1, 1_073_741_824), (1_073_741_824, i32::MAX)]
    );
}

#[test]
fn integer_square_roots() {
    assert_eq!(integer_sqrt(0), 0);
    assert_eq!(integer_sqrt(1), 1);
    assert_eq!(integer_sqrt(8), 2);
    assert_eq!(integer_sqrt(9), 3);
    assert_eq!(integer_sqrt(1_000_001), 1000);
    assert_eq!(integer_sqrt(usize::MAX >> 34), ((usize::MAX >> 34) as f64).sqrt() as usize);
    assert_eq!(prime_check_optimized(1_000_003), 1);
    assert_eq!(prime_check_optimized(1_000_001), 0);
}
