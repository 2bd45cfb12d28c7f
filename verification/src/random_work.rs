//! Work driven by random numbers: an army worn down by random casualties over
//! many waves, and a number churned by random wrapping arithmetic.
use vstd::prelude::*;
use rand::Rng;
use rand::rngs::ThreadRng;

verus! {

/// `rand::rngs::ThreadRng`, the handle to a thread's random generator.
#[verifier::external_type_specification]
#[verifier::external_body]
pub struct ExThreadRng(ThreadRng);

/// Calls `rand::rng()`: the calling thread's random generator. Nothing is
/// claimed of its state.
#[verifier::external_body]
fn thread_rng() -> ThreadRng {
    rand::rng()
}

/// Calls `Rng::random_range(rng, low..high)`, which panics on an empty range
/// (so `low < high` is required) and otherwise returns some value of the
/// range: the contract claims `low <= r < high` and nothing about which.
#[verifier::external_body]
fn random_in_range(rng: &mut ThreadRng, low: i64, high: i64) -> (r: i64)
    requires
        low < high,
    ensures
        low <= r < high,
{
    rng.random_range(low..high)
}

/// The number of waves of a battle.
pub const WAVES: usize = 99_999;

/// The sum of the first `n` casualty counts.
pub open spec fn total_casualties(casualties: Seq<i32>, n: int) -> int
    decreases n,
{
    if n <= 0 {
        0
    } else {
        total_casualties(casualties, n - 1) + casualties[n - 1]
    }
}

/// Every casualty count lies in `[1, 15)`.
pub open spec fn valid_casualties(casualties: Seq<i32>) -> bool {
    forall|i: int| 0 <= i < casualties.len() ==> 1 <= #[trigger] casualties[i] < 15
}

/// The total of valid casualty counts grows with the number of waves.
proof fn lemma_total_monotone(casualties: Seq<i32>, m: int, n: int)
    requires
        valid_casualties(casualties),
        0 <= m <= n <= casualties.len(),
    ensures
        total_casualties(casualties, m) <= total_casualties(casualties, n),
    decreases n - m,
{
    if m < n {
        lemma_total_monotone(casualties, m, n - 1);
    }
}

/// What is left of `army` after losing each wave's casualties in turn.
pub fn fight_waves(army: i32, casualties: &Vec<i32>) -> (left: i32)
    requires
        valid_casualties(casualties@),
        army - total_casualties(casualties@, casualties@.len() as int) >= i32::MIN,
    ensures
        left == army - total_casualties(casualties@, casualties@.len() as int),
{
    let mut left = army;
    let mut i: usize = 0;
    while i < casualties.len()
        invariant
            i <= casualties@.len(),
            valid_casualties(casualties@),
            army - total_casualties(casualties@, casualties@.len() as int) >= i32::MIN,
            left == army - total_casualties(casualties@, i as int),
        decreases casualties@.len() - i,
    {
        proof {
            lemma_total_monotone(casualties@, i as int + 1, casualties@.len() as int);
        }
        left = left - casualties[i];
        i += 1;
    }
    left
}

/// A battle of `WAVES` waves, each costing the army a random number of
/// casualties from 1 to 14: the army's size before and after, or `None` when
/// the losses would take the army below `i32::MIN`.
pub fn combat(army: i32) -> (result: Option<(i32, i32)>)
    ensures
        exists|c: Seq<i32>|
            c.len() == WAVES && valid_casualties(c) && match result {
                Some(r) => army - #[trigger] total_casualties(c, WAVES as int) >= i32::MIN
                    && r == (army, (army - total_casualties(c, WAVES as int)) as i32),
                None => army - total_casualties(c, WAVES as int) < i32::MIN,
            },
        army - 14 * WAVES >= i32::MIN ==> result is Some,
        army - WAVES < i32::MIN ==> result is None,
        result matches Some(r) ==> r.0 == army && army - 14 * WAVES <= r.1 <= army - WAVES,
{
    let mut rng = thread_rng();
    let mut casualties: Vec<i32> = Vec::new();
    let mut total: i64 = 0;
    let mut wave: usize = 0;
    while wave < WAVES
        invariant
            wave <= WAVES,
            casualties@.len() == wave,
            valid_casualties(casualties@),
            total == total_casualties(casualties@, wave as int),
            wave <= total <= 14 * wave,
        decreases WAVES - wave,
    {
        let c = random_in_range(&mut rng, 1, 15) as i32;
        let ghost before = casualties@;
        casualties.push(c);
        proof {
            assert(casualties@.take(wave as int) =~= before);
            lemma_total_prefix(casualties@, before, wave as int);
        }
        total = total + c as i64;
        wave += 1;
    }
    let ghost c = casualties@;
    assert(total_casualties(c, WAVES as int) == total);
    if (army as i64) - total < i32::MIN as i64 {
        return None;
    }
    Some((army, fight_waves(army, &casualties)))
}

/// The total of the first `n` counts depends only on those counts.
proof fn lemma_total_prefix(longer: Seq<i32>, shorter: Seq<i32>, n: int)
    requires
        0 <= n <= shorter.len() <= longer.len(),
        forall|i: int| 0 <= i < shorter.len() ==> longer[i] == shorter[i],
    ensures
        total_casualties(longer, n) == total_casualties(shorter, n),
    decreases n,
{
    if n > 0 {
        lemma_total_prefix(longer, shorter, n - 1);
    }
}

/// Integer division rounding toward zero, as Rust's `/` does.
pub open spec fn div_toward_zero(x: int, d: int) -> int {
    if x >= 0 {
        x / d
    } else {
        -((-x) / d)
    }
}

/// One round of churn: add `a`, multiply by `m` (both wrapping), divide by `d`.
pub fn calculator_step(n: i64, a: i64, m: i64, d: i64) -> (r: i64)
    requires
        d >= 1,
    ensures
        r == div_toward_zero(n.wrapping_add(a).wrapping_mul(m) as int, d as int),
{
    let x = n.wrapping_add(a).wrapping_mul(m);
    x / d
}

/// The number of churn rounds.
pub const ROUNDS: usize = 999_999;

/// One round of churn with the operands `(a, m, d)`.
pub open spec fn churn_step(n: i64, op: (i64, i64, i64)) -> i64 {
    div_toward_zero(n.wrapping_add(op.0).wrapping_mul(op.1) as int, op.2 as int) as i64
}

/// The rounds of churn with the operands `ops`, in order, starting from `n`.
pub open spec fn churn(n: i64, ops: Seq<(i64, i64, i64)>) -> i64
    decreases ops.len(),
{
    if ops.len() == 0 {
        n
    } else {
        churn_step(churn(n, ops.drop_last()), ops.last())
    }
}

/// Each round's operands are drawn from the calculator's ranges: added from
/// `[0, 100)`, multiplied by and divided by values from `[1, 100)`.
pub open spec fn valid_operands(ops: Seq<(i64, i64, i64)>) -> bool {
    forall|i: int|
        0 <= i < ops.len() ==> 0 <= #[trigger] ops[i].0 < 100 && 1 <= ops[i].1 < 100 && 1
            <= ops[i].2 < 100
}

/// `ROUNDS` rounds of churn on `n` with random operands: added from `[0, 100)`,
/// multiplied by and divided by values from `[1, 100)`. Which operands came up
/// is not known, so the result is the churn of `n` by some such operands.
pub fn calculator(n: i64, rng: &mut ThreadRng) -> (r: i64)
    ensures
        exists|ops: Seq<(i64, i64, i64)>|
            ops.len() == ROUNDS && valid_operands(ops) && r == #[trigger] churn(n, ops),
{
    let ghost start = n;
    let ghost mut ops: Seq<(i64, i64, i64)> = Seq::empty();
    let mut n = n;
    let mut round: usize = 0;
    while round < ROUNDS
        invariant
            round <= ROUNDS,
            ops.len() == round,
            valid_operands(ops),
            n == churn(start, ops),
        decreases ROUNDS - round,
    {
        let a = random_in_range(rng, 0, 100);
        let m = random_in_range(rng, 1, 100);
        let d = random_in_range(rng, 1, 100);
        let ghost prev = ops;
        n = calculator_step(n, a, m, d);
        proof {
            ops = ops.push((a, m, d));
            assert(ops.drop_last() =~= prev);
        }
        round += 1;
    }
    n
}

} // verus!
