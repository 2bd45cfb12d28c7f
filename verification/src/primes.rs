//! Primality tests: the thread-split prime search, a naive trial division
//! and an odd-only trial division bounded by a square root.
use vstd::prelude::*;
use vstd::arithmetic::div_mod::{lemma_fundamental_div_mod, lemma_mod_multiples_basic};
use vstd::arithmetic::mul::lemma_mul_inequality;
use crate::random_work::div_toward_zero;

verus! {

/// No integer in `[lo, hi)` divides `n`.
pub open spec fn no_divisor_in(n: int, lo: int, hi: int) -> bool {
    forall|d: int| lo <= d < hi ==> #[trigger] (n % d) != 0
}

/// `n` is a prime number: greater than one and divisible by no integer in `[2, n)`.
pub open spec fn is_prime_number(n: int) -> bool {
    n > 1 && no_divisor_in(n, 2, n)
}

/// A divisor `d` of `n` strictly between 1 and `n` has a cofactor `n / d`,
/// itself strictly between 1 and `n`, that divides `n` as well.
proof fn lemma_cofactor(n: int, d: int)
    requires
        1 < d < n,
        n % d == 0,
    ensures
        n == d * (n / d),
        2 <= n / d < n,
        n % (n / d) == 0,
{
    lemma_fundamental_div_mod(n, d);
    let q = n / d;
    assert(n == d * q);
    assert(q >= 2) by (nonlinear_arith)
        requires
            n == d * q,
            1 < d < n,
    ;
    assert(q < n) by (nonlinear_arith)
        requires
            n == d * q,
            1 < d,
            q >= 2,
    ;
    lemma_mod_multiples_basic(d, q);
    assert(d * q == q * d) by (nonlinear_arith);
}

/// A proper divisor of `n` is at most `n / 2`.
proof fn lemma_divisor_at_most_half(n: int, d: int)
    requires
        1 < d < n,
        n % d == 0,
    ensures
        d <= n / 2,
{
    lemma_cofactor(n, d);
    let q = n / d;
    lemma_mul_inequality(2, q, d);
    assert(2 * d <= q * d);
    assert(q * d == d * q) by (nonlinear_arith);
}

/// Looking for divisors up to `n / 2` decides primality.
proof fn lemma_half_suffices(n: int)
    requires
        n >= 2,
        no_divisor_in(n, 2, n / 2 + 1),
    ensures
        is_prime_number(n),
{
    assert forall|d: int| 2 <= d < n implies #[trigger] (n % d) != 0 by {
        if n % d == 0 {
            lemma_divisor_at_most_half(n, d);
            assert(n % d != 0);
        }
    }
}

/// An even divisor makes `n` even.
proof fn lemma_even_divisor(n: int, e: int)
    requires
        e > 0,
        e % 2 == 0,
        n % e == 0,
    ensures
        n % 2 == 0,
{
    lemma_fundamental_div_mod(n, e);
    lemma_fundamental_div_mod(e, 2);
    let k = (e / 2) * (n / e);
    assert(n == k * 2) by (nonlinear_arith)
        requires
            n == e * (n / e),
            e == 2 * (e / 2),
            k == (e / 2) * (n / e),
    ;
    lemma_mod_multiples_basic(k, 2);
}

/// `num` is prime: no number from 2 up to `num / 2` divides it, and it exceeds 1.
pub fn is_prime(num: i32) -> (prime: bool)
    ensures
        prime == is_prime_number(num as int),
{
    if num <= 1 {
        return false;
    }
    let half = num / 2;
    let mut i: i32 = 2;
    while i <= half
        invariant
            num > 1,
            half == num / 2,
            2 <= i <= half + 1,
            no_divisor_in(num as int, 2, i as int),
        decreases half + 1 - i,
    {
        if num % i == 0 {
            assert(!no_divisor_in(num as int, 2, num as int));
            return false;
        }
        i += 1;
    }
    proof {
        lemma_half_suffices(num as int);
    }
    true
}

/// The range of numbers searched by worker `k` (counting from 0) when `total`
/// numbers are shared among `threads` workers: `q * k + 1` up to, not
/// including, `q * k + 1 + q`, where `q` is `total / threads` rounded toward zero.
pub open spec fn search_range(total: int, threads: int, k: int) -> (int, int) {
    let q = div_toward_zero(total, threads);
    (q * k + 1, q * k + 1 + q)
}

/// The bounds of the search ranges stay within `i32`: `q * j + 1` fits for
/// every `j` from 0 to `threads`.
proof fn lemma_search_bounds(total: int, threads: int, j: int)
    requires
        0 < threads,
        0 <= j <= threads,
        i32::MIN <= total <= i32::MAX,
        !(total == i32::MAX && total % threads == 0),
    ensures
        i32::MIN <= div_toward_zero(total, threads) * j + 1 <= i32::MAX,
{
    let q = div_toward_zero(total, threads);
    if total >= 0 {
        lemma_fundamental_div_mod(total, threads);
        assert(q * threads <= total);
        if total == i32::MAX {
            assert(q * threads < total);
        }
        assert(0 <= q * j <= q * threads) by (nonlinear_arith)
            requires
                q >= 0,
                0 <= j <= threads,
        ;
    } else {
        let p = (-total) / threads;
        lemma_fundamental_div_mod(-total, threads);
        assert(p * threads <= -total);
        assert(0 <= p * j <= p * threads) by (nonlinear_arith)
            requires
                p >= 0,
                0 <= j <= threads,
        ;
        assert(q * j == -(p * j)) by (nonlinear_arith)
            requires
                q == -p,
        ;
    }
}

/// The ranges of numbers that `threads` workers search for primes among the
/// numbers from 1 to `total`, one range per worker (none when `threads` is
/// not positive).
pub fn prime_search_ranges(total: i32, threads: i32) -> (ranges: Vec<(i32, i32)>)
    requires
        threads < i32::MAX,
        !(threads > 0 && total == i32::MAX && total % threads == 0),
    ensures
        ranges@.len() == (if threads > 0 { threads as int } else { 0 }),
        forall|k: int|
            0 <= k < ranges@.len() ==> #[trigger] ranges@[k] == ((search_range(
                total as int,
                threads as int,
                k,
            ).0) as i32, (search_range(total as int, threads as int, k).1) as i32),
{
    let mut ranges: Vec<(i32, i32)> = Vec::new();
    if threads <= 0 {
        return ranges;
    }
    let q = total / threads;
    let mut min: i32 = 1;
    let mut k: i32 = 0;
    while k < threads
        invariant
            0 <= k <= threads,
            q == div_toward_zero(total as int, threads as int),
            threads > 0,
            !(total == i32::MAX && total % threads == 0),
            ranges@.len() == k,
            min == q * k + 1,
            forall|j: int|
                0 <= j < k ==> #[trigger] ranges@[j] == ((search_range(
                    total as int,
                    threads as int,
                    j,
                ).0) as i32, (search_range(total as int, threads as int, j).1) as i32),
        decreases threads - k,
    {
        proof {
            lemma_search_bounds(total as int, threads as int, k + 1);
        }
        assert(q * k + 1 + q == q * (k + 1) + 1) by (nonlinear_arith);
        let max = min + q;
        ranges.push((min, max));
        min = max;
        k += 1;
    }
    ranges
}

/// The primes from `lo` up to, not including, `hi`, in increasing order.
pub open spec fn primes_between(lo: int, hi: int) -> Seq<int>
    decreases hi - lo,
{
    if hi <= lo {
        Seq::empty()
    } else if is_prime_number(hi - 1) {
        primes_between(lo, hi - 1).push(hi - 1)
    } else {
        primes_between(lo, hi - 1)
    }
}

/// The primes from `min` up to, not including, `max`, in increasing order:
/// what one worker of the prime search finds.
pub fn primes_in_range(min: i32, max: i32) -> (primes: Vec<i32>)
    ensures
        primes@.map_values(|p: i32| p as int) == primes_between(min as int, max as int),
{
    let mut primes: Vec<i32> = Vec::new();
    if max <= min {
        assert(primes@.map_values(|p: i32| p as int) =~= Seq::<int>::empty());
        return primes;
    }
    let mut num = min;
    assert(primes@.map_values(|p: i32| p as int) =~= primes_between(min as int, min as int));
    while num < max
        invariant
            min <= num <= max,
            primes@.map_values(|p: i32| p as int) == primes_between(min as int, num as int),
        decreases max - num,
    {
        let ghost before = primes@;
        if is_prime(num) {
            primes.push(num);
            assert(primes@.map_values(|p: i32| p as int) =~= before.map_values(|p: i32| p as int).push(
                num as int,
            ));
        }
        num += 1;
    }
    primes
}

/// Trial division by every number from 2 to `n - 1`: 1 when `n` is prime, else 0.
pub fn prime_check(n: usize) -> (r: u64)
    ensures
        r == (if is_prime_number(n as int) { 1u64 } else { 0u64 }),
{
    if n < 2 {
        return 0;
    }
    let mut i: usize = 2;
    while i < n
        invariant
            2 <= i <= n,
            no_divisor_in(n as int, 2, i as int),
        decreases n - i,
    {
        if n % i == 0 {
            assert(!no_divisor_in(n as int, 2, n as int));
            return 0;
        }
        i += 1;
    }
    1
}

/// No odd number in `[3, limit]` divides `n`.
pub open spec fn no_odd_divisor_up_to(n: int, limit: int) -> bool {
    forall|i: int| 3 <= i <= limit && i % 2 == 1 ==> #[trigger] (n % i) != 0
}

/// What the odd-only trial division accepts: 2, and every odd `n >= 3` that
/// no odd number from 3 to `limit` divides.
pub open spec fn passes_odd_trial(n: int, limit: int) -> bool {
    n >= 2 && (n == 2 || (n % 2 != 0 && no_odd_divisor_up_to(n, limit)))
}

/// `r` can bound a trial division of `n`: it is at least the square root of
/// `n` rounded down, and below `n` unless `n` is below 2. The square root
/// rounded down is such a bound, and so is one more where that stays below `n`.
pub open spec fn is_trial_limit(n: int, r: int) -> bool {
    0 <= r && n < (r + 1) * (r + 1) && (r < n || n < 2)
}

/// Odd-only trial division of `n` by the odd numbers from 3 up to `sqrt_n`:
/// 1 when `n` passes, else 0.
pub fn odd_trial_division(n: usize, sqrt_n: usize) -> (r: u64)
    ensures
        r == (if passes_odd_trial(n as int, sqrt_n as int) { 1u64 } else { 0u64 }),
{
    if n < 2 {
        return 0;
    }
    if n == 2 {
        return 1;
    }
    if n % 2 == 0 {
        return 0;
    }
    if sqrt_n >= 3 {
        let mut i: usize = 3;
        loop
            invariant_except_break
                3 <= i <= sqrt_n,
                i % 2 == 1,
                n % 2 != 0,
                no_odd_divisor_up_to(n as int, i - 1),
            ensures
                no_odd_divisor_up_to(n as int, sqrt_n as int),
            decreases sqrt_n - i,
        {
            if n % i == 0 {
                assert(!no_odd_divisor_up_to(n as int, sqrt_n as int));
                return 0;
            }
            if sqrt_n - i < 2 {
                break;
            }
            i += 2;
        }
    }
    1
}

/// The square root of `n`, rounded down.
pub fn integer_sqrt(n: usize) -> (r: usize)
    ensures
        r * r <= n < (r + 1) * (r + 1),
{
    let mut r: usize = 0;
    loop
        invariant
            r * r <= n,
        decreases n - r,
    {
        assert(r < usize::MAX) by (nonlinear_arith)
            requires
                r * r <= n,
                n <= usize::MAX,
                usize::MAX >= 2,
        ;
        let q = n / (r + 1);
        if r + 1 > q {
            assert(n < (r + 1) * (r + 1)) by (nonlinear_arith)
                requires
                    r + 1 > q,
                    q == n as int / (r + 1),
                    r >= 0,
            ;
            return r;
        }
        assert((r + 1) * (r + 1) <= n) by (nonlinear_arith)
            requires
                r + 1 <= q,
                q == n as int / (r + 1),
                r >= 0,
        ;
        assert(r + 1 <= n) by (nonlinear_arith)
            requires
                (r + 1) * (r + 1) <= n,
        ;
        r += 1;
    }
}

/// Trial division by 2 and then by the odd numbers up to the square root of
/// `n`: 1 when `n` is prime, else 0, as `prime_check` answers.
pub fn prime_check_optimized(n: usize) -> (r: u64)
    ensures
        r == (if is_prime_number(n as int) { 1u64 } else { 0u64 }),
{
    let sqrt_n = integer_sqrt(n);
    proof {
        if n >= 2 {
            assert(sqrt_n < n) by (nonlinear_arith)
                requires
                    sqrt_n * sqrt_n <= n,
                    n >= 2,
            ;
        }
        lemma_odd_trial_to_sqrt_decides_primality(n as int, sqrt_n as int);
    }
    odd_trial_division(n, sqrt_n)
}

/// Odd-only trial division up to the square root (rounded down, or any larger
/// bound below `n`) decides primality: it accepts exactly the prime numbers.
pub proof fn lemma_odd_trial_to_sqrt_decides_primality(n: int, r: int)
    requires
        is_trial_limit(n, r),
    ensures
        passes_odd_trial(n, r) == is_prime_number(n),
{
    if is_prime_number(n) {
        if n != 2 {
            assert(n % 2 != 0);
            assert forall|i: int| 3 <= i <= r && i % 2 == 1 implies #[trigger] (n % i) != 0 by {
                assert(i < n);
            }
        }
    }
    if passes_odd_trial(n, r) && n != 2 {
        assert forall|d: int| 2 <= d < n implies #[trigger] (n % d) != 0 by {
            if n % d == 0 {
                lemma_cofactor(n, d);
                let q = n / d;
                let e = if d <= r { d } else { q };
                if d > r && q > r {
                    assert(d * q >= (r + 1) * (r + 1)) by (nonlinear_arith)
                        requires
                            d >= r + 1,
                            q >= r + 1,
                            r >= 0,
                    ;
                }
                assert(2 <= e <= r && n % e == 0);
                if e % 2 == 0 {
                    lemma_even_divisor(n, e);
                } else {
                    assert(n % e != 0);
                }
            }
        }
    }
}

} // verus!
