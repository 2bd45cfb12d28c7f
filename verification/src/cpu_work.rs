//! CPU-bound work: Fibonacci numbers computed recursively and iteratively,
//! a map of labels filled with doubled indices, the workload that combines them with
//! trial division, and a wrapping sum of squares.
use vstd::prelude::*;
use vstd::arithmetic::power2::{pow2, lemma_pow2_unfold, lemma2_to64};
use vstd::arithmetic::div_mod::lemma_add_mod_noop;
use crate::primes::{is_prime_number, prime_check};
use crate::memory::{key_of, lemma_key_of_injective, numbered};
use crate::str_map::StrMap;

verus! {

/// The Fibonacci numbers: 0, 1, 1, 2, 3, 5, ...
pub open spec fn fib(n: nat) -> nat
    decreases n,
{
    if n <= 1 {
        n
    } else {
        fib((n - 1) as nat) + fib((n - 2) as nat)
    }
}

/// The Fibonacci numbers never decrease.
pub proof fn lemma_fib_monotone(i: nat, j: nat)
    requires
        i <= j,
    ensures
        fib(i) <= fib(j),
    decreases j,
{
    if i < j {
        lemma_fib_monotone(i, (j - 1) as nat);
    }
}

/// The `n`-th Fibonacci number is at most `2^n`.
proof fn lemma_fib_below_pow2(n: nat)
    ensures
        fib(n) <= pow2(n),
    decreases n,
{
    if n >= 2 {
        lemma_fib_below_pow2((n - 1) as nat);
        lemma_fib_below_pow2((n - 2) as nat);
        lemma_pow2_unfold(n);
        lemma_pow2_unfold((n - 1) as nat);
    } else {
        lemma2_to64();
    }
}

/// The `n`-th Fibonacci number, by the two-term recursion.
pub fn fibonacci(n: usize) -> (r: u64)
    requires
        fib(n as nat) <= u64::MAX,
    ensures
        r == fib(n as nat),
    decreases n,
{
    if n <= 1 {
        n as u64
    } else {
        fibonacci(n - 1) + fibonacci(n - 2)
    }
}

/// The `n`-th Fibonacci number, by a loop over the last two numbers.
pub fn fibonacci_iterative(n: usize) -> (r: u64)
    requires
        fib(n as nat) <= u64::MAX,
    ensures
        r == fib(n as nat),
{
    if n <= 1 {
        return n as u64;
    }
    let mut a: u64 = 0;
    let mut b: u64 = 1;
    let mut k: usize = 1;
    while k < n
        invariant
            1 <= k <= n,
            a == fib((k - 1) as nat),
            b == fib(k as nat),
            fib(n as nat) <= u64::MAX,
        decreases n - k,
    {
        proof {
            lemma_fib_monotone((k + 1) as nat, n as nat);
        }
        let temp = a + b;
        a = b;
        b = temp;
        k += 1;
    }
    b
}

/// Each label `key_<i>` for `i` below `n` mapped to twice `i`.
pub open spec fn doubled_labels(n: nat) -> Map<Seq<char>, usize>
    decreases n,
{
    if n == 0 {
        Map::empty()
    } else {
        doubled_labels((n - 1) as nat).insert(key_of((n - 1) as nat), (2 * (n - 1)) as usize)
    }
}

/// The labels of `doubled_labels(n)` are those of the numbers below `n`.
proof fn lemma_doubled_labels_keys(n: nat)
    ensures
        forall|k: Seq<char>|
            #[trigger] doubled_labels(n).contains_key(k) <==> exists|i: nat|
                i < n && k == key_of(i),
    decreases n,
{
    if n > 0 {
        lemma_doubled_labels_keys((n - 1) as nat);
        assert forall|k: Seq<char>|
            #[trigger] doubled_labels(n).contains_key(k) implies exists|i: nat|
                i < n && k == key_of(i) by {
            if k != key_of((n - 1) as nat) {
                assert(doubled_labels((n - 1) as nat).contains_key(k));
                let i = choose|i: nat| i < n - 1 && k == key_of(i);
                assert(i < n && k == key_of(i));
            } else {
                let m = (n - 1) as nat;
                assert(m < n && k == key_of(m));
            }
        }
        assert forall|k: Seq<char>|
            (exists|i: nat| i < n && k == key_of(i)) implies #[trigger] doubled_labels(
            n,
        ).contains_key(k) by {
            let i = choose|i: nat| i < n && k == key_of(i);
            if i < n - 1 {
                assert(doubled_labels((n - 1) as nat).contains_key(k));
            }
        }
    }
}

/// The label of `n` is not among those of the numbers below it.
proof fn lemma_new_label(n: nat)
    ensures
        !doubled_labels(n).contains_key(key_of(n)),
{
    lemma_doubled_labels_keys(n);
    if doubled_labels(n).contains_key(key_of(n)) {
        let i = choose|i: nat| i < n && key_of(n) == key_of(i);
        lemma_key_of_injective(n, i);
    }
}

/// Refills `map` with each label `key_<i>` for `i` below `n` mapped to twice
/// `i`, and returns the sum of its values, `n * (n - 1)`.
pub fn fill_and_sum(map: &mut StrMap<usize>, n: usize) -> (sum: usize)
    requires
        n * (n - 1) <= usize::MAX,
    ensures
        final(map).wf(),
        final(map)@ == doubled_labels(n as nat),
        sum == n * (n - 1),
{
    map.clear();
    proof {
        map.lemma_entries();
    }
    let mut i: usize = 0;
    while i < n
        invariant
            i <= n,
            n * (n - 1) <= usize::MAX,
            map.wf(),
            map@ == doubled_labels(i as nat),
            map.keys().len() == i,
            map.value_seq().len() == i,
            forall|j: int| 0 <= j < i ==> #[trigger] map.value_seq()[j] == 2 * j,
        decreases n - i,
    {
        assert(2 * i <= n * (n - 1)) by (nonlinear_arith)
            requires
                i < n,
        ;
        let key = numbered("key_", i);
        proof {
            map.lemma_entries();
            lemma_new_label(i as nat);
            assert(!map.keys().contains(key@));
        }
        map.insert(key, i * 2);
        proof {
            map.lemma_entries();
        }
        assert(map@ =~= doubled_labels((i + 1) as nat));
        i += 1;
    }
    let mut sum: usize = 0;
    let mut j: usize = 0;
    while j < n
        invariant
            j <= n,
            n * (n - 1) <= usize::MAX,
            map.keys().len() == n,
            map.value_seq().len() == n,
            forall|t: int| 0 <= t < n ==> #[trigger] map.value_seq()[t] == 2 * t,
            sum == j * (j - 1),
        decreases n - j,
    {
        let v = *map.value_at(j);
        assert(v == 2 * j);
        assert(j * (j - 1) + 2 * j == (j + 1) * j) by (nonlinear_arith);
        assert((j + 1) * j <= n * (n - 1)) by (nonlinear_arith)
            requires
                j < n,
        ;
        sum = sum + v;
        j += 1;
    }
    sum
}

/// Fills a new map with each label `key_<i>` for `i` below `n` mapped to
/// twice `i`, and sums its values.
pub fn hash_operations(n: usize) -> (r: u64)
    requires
        n * (n - 1) <= usize::MAX,
    ensures
        r == n * (n - 1),
{
    let mut map: StrMap<usize> = StrMap::new();
    fill_and_sum(&mut map, n) as u64
}

/// The work of iteration `i`: a Fibonacci number, a primality test and a map sum.
pub open spec fn step_value(i: int) -> int {
    fib((i % 30) as nat) + (if is_prime_number(i % 1000 + 2) { 1int } else { 0int }) + (i % 50) * (
    i % 50 - 1)
}

/// The work of iterations `from` up to, not including, `to`.
pub open spec fn range_total(from: int, to: int) -> int
    decreases to - from,
{
    if to <= from {
        0
    } else {
        range_total(from, to - 1) + step_value(to - 1)
    }
}

/// The work of an iteration is never negative.
proof fn lemma_step_value_nonnegative(i: int)
    requires
        i >= 0,
    ensures
        step_value(i) >= 0,
{
    assert((i % 50) * (i % 50 - 1) >= 0) by (nonlinear_arith)
        requires
            0 <= i % 50 < 50,
    ;
}

/// The total work grows with the end of the range.
proof fn lemma_range_total_monotone(from: int, mid: int, to: int)
    requires
        0 <= from <= mid <= to,
    ensures
        range_total(from, mid) <= range_total(from, to),
    decreases to - mid,
{
    if mid < to {
        lemma_range_total_monotone(from, mid, to - 1);
        lemma_step_value_nonnegative(to - 1);
    }
}

/// The work of iteration `i`: `fib(i % 30) + prime_check(i % 1000 + 2) + hash_operations(i % 50)`.
pub fn computation_step(i: usize) -> (r: u64)
    ensures
        r == step_value(i as int),
{
    proof {
        lemma_fib_below_pow2((i % 30) as nat);
        lemma_fib_monotone((i % 30) as nat, 29);
        lemma_fib_below_pow2(29);
        lemma2_to64();
    }
    let m = i % 50;
    assert(m * (m - 1) <= 49 * 48) by (nonlinear_arith)
        requires
            m < 50,
    ;
    fibonacci(i % 30) + prime_check(i % 1000 + 2) + hash_operations(m)
}

/// The work of iterations `from` up to, not including, `to`.
pub fn computation_range(from: usize, to: usize) -> (r: u64)
    requires
        from <= to,
        range_total(from as int, to as int) <= u64::MAX,
    ensures
        r == range_total(from as int, to as int),
{
    let mut result: u64 = 0;
    let mut i = from;
    while i < to
        invariant
            from <= i <= to,
            range_total(from as int, to as int) <= u64::MAX,
            result == range_total(from as int, i as int),
        decreases to - i,
    {
        proof {
            lemma_range_total_monotone(from as int, i + 1, to as int);
        }
        result = result + computation_step(i);
        i += 1;
    }
    result
}

/// The whole workload of `n` iterations.
pub fn expensive_computation(n: usize) -> (r: u64)
    requires
        range_total(0, n as int) <= u64::MAX,
    ensures
        r == range_total(0, n as int),
{
    computation_range(0, n)
}

/// The sum of the squares of the numbers below `n`.
pub open spec fn sum_of_squares(n: nat) -> nat
    decreases n,
{
    if n == 0 {
        0
    } else {
        sum_of_squares((n - 1) as nat) + ((n - 1) * (n - 1)) as nat
    }
}

/// The sum of the squares of the numbers below `iterations`, wrapping at `2^64`.
pub fn wrapping_square_sum(iterations: u64) -> (sum: u64)
    requires
        iterations <= 0x1_0000_0000,
    ensures
        sum == sum_of_squares(iterations as nat) % 0x1_0000_0000_0000_0000,
{
    let mut sum: u64 = 0;
    let mut i: u64 = 0;
    while i < iterations
        invariant
            i <= iterations <= 0x1_0000_0000,
            sum == sum_of_squares(i as nat) % 0x1_0000_0000_0000_0000,
        decreases iterations - i,
    {
        assert(i * i <= 0xffff_fffe_0000_0001) by (nonlinear_arith)
            requires
                i < 0x1_0000_0000,
        ;
        let sq = i * i;
        proof {
            lemma_add_mod_noop(
                sum_of_squares(i as nat) as int,
                sq as int,
                0x1_0000_0000_0000_0000,
            );
            assert((sq as int) % 0x1_0000_0000_0000_0000 == sq);
            assert((sum as int + sq as int) % 0x1_0000_0000_0000_0000 == sum_of_squares((i + 1) as nat)
                % 0x1_0000_0000_0000_0000);
            if sum as int + sq as int >= 0x1_0000_0000_0000_0000 {
                assert((sum as int + sq as int) % 0x1_0000_0000_0000_0000 == sum as int + sq as int
                    - 0x1_0000_0000_0000_0000);
            }
        }
        sum = sum.wrapping_add(sq);
        i += 1;
    }
    sum
}

} // verus!
