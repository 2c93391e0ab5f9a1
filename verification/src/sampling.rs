//! Independent draws from a parameter's distribution, the baseline every
//! sampler falls back to. Integer and categorical draws are made here from a
//! seeded `rand` generator; a continuous draw is owed to the caller's
//! floating-point sampler.
use rand::rngs::StdRng;
use rand::RngExt;
use vstd::prelude::*;

use crate::float::{lt_spec, FloatBits};
use crate::value::{has_label, Distribution, Value};

verus! {

/// The generator type of `rand` (`rand::rngs::StdRng`); its state is opaque.
#[verifier::external_type_specification]
#[verifier::external_body]
pub struct ExStdRng(StdRng);

/// `rng.random_range(low..=high)` from `rand::RngExt`: an integer of the
/// inclusive range. The range is non-empty, so the call does not panic.
#[verifier::external_body]
fn draw_int(rng: &mut StdRng, low: i64, high: i64) -> (r: i64)
    requires
        low <= high,
    ensures
        low <= r <= high,
{
    rng.random_range(low..=high)
}

/// `rng.random_range(0..n)` from `rand::RngExt`: an index below `n`. The
/// range is non-empty, so the call does not panic.
#[verifier::external_body]
fn draw_index(rng: &mut StdRng, n: usize) -> (r: usize)
    requires
        0 < n,
    ensures
        r < n,
{
    rng.random_range(0..n)
}

/// `rng.random_range(low..high)` from `rand::RngExt`: an index of the
/// half-open range. The range is non-empty, so the call does not panic.
#[verifier::external_body]
fn draw_between(rng: &mut StdRng, low: usize, high: usize) -> (r: usize)
    requires
        low < high,
    ensures
        low <= r < high,
{
    rng.random_range(low..high)
}

/// `0.0` as a pattern.
pub open spec fn zero() -> FloatBits {
    FloatBits { bits: 0 }
}

/// A continuous draw is owed for `distribution`: a `Uniform` range with
/// `low < high`, or a `LogUniform` one with `0 < low < high`.
pub open spec fn draws_continuous(distribution: Distribution) -> bool {
    match distribution {
        Distribution::Uniform { low, high } => lt_spec(low, high),
        Distribution::LogUniform { low, high } => lt_spec(zero(), low) && lt_spec(low, high),
        _ => false,
    }
}

/// One independent draw from `distribution`. `None` exactly when a
/// continuous draw is owed (see [`draws_continuous`]), which the caller makes
/// with its floating-point generator. Otherwise: an empty continuous range
/// gives its `low`; an integer range gives a value inside it, an empty one
/// its `low`; a categorical gives one of its labels, or "" when it has none.
/// The generator is drawn from only for a non-empty integer range or label
/// list.
pub fn sample_value(rng: &mut StdRng, distribution: &Distribution) -> (r: Option<Value>)
    ensures
        r is None <==> draws_continuous(*distribution),
        (match *distribution {
            Distribution::IntUniform { low, high } => high < low,
            Distribution::Categorical { choices } => choices.len() == 0,
            _ => true,
        }) ==> *final(rng) == *old(rng),
        match *distribution {
            Distribution::Uniform { low, .. } => r is Some ==> r == Some(Value::Float(low)),
            Distribution::LogUniform { low, .. } => r is Some ==> r == Some(Value::Float(low)),
            Distribution::IntUniform { low, high } => if low <= high {
                r matches Some(Value::Int(x)) && low <= x <= high
            } else {
                r == Some(Value::Int(low))
            },
            Distribution::Categorical { choices } => r matches Some(Value::Categorical(s)) && (
            if choices.len() == 0 {
                s@ == Seq::<char>::empty()
            } else {
                has_label(choices@, s@)
            }),
        },
{
    match distribution {
        Distribution::Uniform { low, high } => {
            if low.lt(*high) {
                None
            } else {
                Some(Value::Float(*low))
            }
        },
        Distribution::LogUniform { low, high } => {
            if FloatBits::from_bits(0).lt(*low) && low.lt(*high) {
                None
            } else {
                Some(Value::Float(*low))
            }
        },
        Distribution::IntUniform { low, high } => {
            if *low <= *high {
                Some(Value::Int(draw_int(rng, *low, *high)))
            } else {
                Some(Value::Int(*low))
            }
        },
        Distribution::Categorical { choices } => {
            if choices.len() == 0 {
                Some(Value::Categorical(String::new()))
            } else {
                let i = draw_index(rng, choices.len());
                let label = choices[i].clone();
                proof {
                    assert(choices@[i as int]@ == label@);
                }
                Some(Value::Categorical(label))
            }
        },
    }
}

/// How many of `d` features a split considers: `max_features` (all of them
/// when `None`), kept within `1..=d`.
pub open spec fn feature_count(d: usize, max_features: Option<usize>) -> int {
    let k = match max_features {
        Some(m) => m as int,
        None => d as int,
    };
    if k < 1 {
        1
    } else if k > d {
        d as int
    } else {
        k
    }
}

/// The candidate features of one split: all `d` of them in order when the
/// count covers them, otherwise a random subset of distinct features of
/// that size (a partial Fisher-Yates shuffle).
pub fn choose_features(d: usize, max_features: Option<usize>, rng: &mut StdRng) -> (r: Vec<usize>)
    requires
        1 <= d,
    ensures
        r@.len() == feature_count(d, max_features),
        forall|i: int| 0 <= i < r@.len() ==> #[trigger] r@[i] < d,
        forall|i: int, j: int| 0 <= i < j < r@.len() ==> r@[i] != r@[j],
        feature_count(d, max_features) == d ==> forall|i: int| 0 <= i < d ==> #[trigger] r@[i] == i,
{
    let wanted = match max_features {
        Some(m) => m,
        None => d,
    };
    let k = if wanted < 1 {
        1
    } else if wanted > d {
        d
    } else {
        wanted
    };
    let mut pool: Vec<usize> = Vec::new();
    let mut i: usize = 0;
    while i < d
        invariant
            i <= d,
            pool@.len() == i,
            forall|j: int| 0 <= j < i ==> #[trigger] pool@[j] == j,
        decreases d - i,
    {
        pool.push(i);
        i = i + 1;
    }
    if k >= d {
        return pool;
    }
    let mut i: usize = 0;
    while i < k
        invariant
            i <= k < d,
            pool@.len() == d,
            forall|j: int| 0 <= j < d ==> #[trigger] pool@[j] < d,
            forall|a: int, b: int| 0 <= a < b < d ==> pool@[a] != pool@[b],
        decreases k - i,
    {
        let j = draw_between(rng, i, d);
        let a = pool[i];
        let b = pool[j];
        let ghost before = pool@;
        pool.set(i, b);
        pool.set(j, a);
        proof {
            assert forall|x: int, y: int| 0 <= x < y < d implies pool@[x] != pool@[y] by {
                let px = if x == j { i as int } else if x == i { j as int } else { x };
                let py = if y == j { i as int } else if y == i { j as int } else { y };
                assert(pool@[x] == before[px]);
                assert(pool@[y] == before[py]);
            }
            assert forall|x: int| 0 <= x < d implies #[trigger] pool@[x] < d by {
                let px = if x == j { i as int } else if x == i { j as int } else { x };
                assert(pool@[x] == before[px]);
            }
        }
        i = i + 1;
    }
    pool.truncate(k);
    pool
}

} // verus!
