//! The data of the optimization-history plot: the best value seen so far,
//! trial by trial. Drawing it is left to the plotting backend.
use vstd::prelude::*;

use crate::float::FloatBits;
use crate::study_state::is_completed;
use crate::trial::Trial;
use crate::value::{better_spec, Direction};

verus! {

/// `s` with `x` inserted after every element numbered at most `x.0`, the
/// elements numbered above it moving one place on.
pub open spec fn insert_by_number(s: Seq<(usize, FloatBits)>, x: (usize, FloatBits)) -> Seq<
    (usize, FloatBits),
>
    decreases s.len(),
{
    if s.len() == 0 {
        seq![x]
    } else if s.last().0 <= x.0 {
        s.push(x)
    } else {
        insert_by_number(s.drop_last(), x).push(s.last())
    }
}

/// The `(number, value)` of every completed trial, ordered by number; trials
/// of equal number keep their order (a stable sort).
pub open spec fn ordered_completed(trials: Seq<Trial>) -> Seq<(usize, FloatBits)>
    decreases trials.len(),
{
    if trials.len() == 0 {
        Seq::empty()
    } else if is_completed(trials.last()) {
        insert_by_number(
            ordered_completed(trials.drop_last()),
            (trials.last().number, trials.last().value.unwrap()),
        )
    } else {
        ordered_completed(trials.drop_last())
    }
}

/// For each entry, its number and the best value up to and including it: a
/// value replaces the best so far only when strictly better.
pub open spec fn running_best(pairs: Seq<(usize, FloatBits)>, direction: Direction) -> Seq<
    (usize, FloatBits),
>
    decreases pairs.len(),
{
    if pairs.len() == 0 {
        Seq::empty()
    } else {
        let prev = running_best(pairs.drop_last(), direction);
        let v = pairs.last().1;
        let b = if prev.len() == 0 {
            v
        } else if better_spec(direction, v, prev.last().1) {
            v
        } else {
            prev.last().1
        };
        prev.push((pairs.last().0, b))
    }
}

/// Inserting at `p`, past which every element is numbered above `x.0` and
/// before which the last one is not, is [`insert_by_number`].
proof fn lemma_insert_at(s: Seq<(usize, FloatBits)>, x: (usize, FloatBits), p: int)
    requires
        0 <= p <= s.len(),
        forall|k: int| p <= k < s.len() ==> #[trigger] s[k].0 > x.0,
        p > 0 ==> s[p - 1].0 <= x.0,
    ensures
        insert_by_number(s, x) == s.insert(p, x),
    decreases s.len(),
{
    if s.len() == 0 {
        assert(s.insert(p, x) =~= seq![x]);
    } else if s.last().0 <= x.0 {
        assert(p == s.len());
        assert(s.insert(p, x) =~= s.push(x));
    } else {
        lemma_insert_at(s.drop_last(), x, p);
        assert(s.drop_last().insert(p, x).push(s.last()) =~= s.insert(p, x));
    }
}

/// Length of a running-best series.
proof fn lemma_running_best_len(pairs: Seq<(usize, FloatBits)>, direction: Direction)
    ensures
        running_best(pairs, direction).len() == pairs.len(),
    decreases pairs.len(),
{
    if pairs.len() > 0 {
        lemma_running_best_len(pairs.drop_last(), direction);
    }
}

/// The best-value-so-far series: for each completed trial, in number order,
/// its number and the best objective seen up to and including it under
/// `direction`.
pub fn best_so_far(trials: &[Trial], direction: Direction) -> (r: Vec<(usize, FloatBits)>)
    ensures
        r@ == running_best(ordered_completed(trials@), direction),
{
    let mut ordered: Vec<(usize, FloatBits)> = Vec::new();
    let mut i: usize = 0;
    while i < trials.len()
        invariant
            i <= trials@.len(),
            ordered@ == ordered_completed(trials@.take(i as int)),
        decreases trials@.len() - i,
    {
        proof {
            assert(trials@.take(i + 1).drop_last() =~= trials@.take(i as int));
        }
        let t = &trials[i];
        if t.state == crate::trial::TrialState::Complete && t.value.is_some() {
            let v = match t.value {
                Some(v) => v,
                None => FloatBits::from_bits(0),
            };
            let x = (t.number, v);
            let mut p: usize = ordered.len();
            while p > 0 && ordered[p - 1].0 > x.0
                invariant
                    p <= ordered@.len(),
                    forall|k: int| p <= k < ordered@.len() ==> #[trigger] ordered@[k].0 > x.0,
                decreases p,
            {
                p = p - 1;
            }
            proof {
                lemma_insert_at(ordered@, x, p as int);
            }
            ordered.insert(p, x);
        }
        i = i + 1;
    }
    proof {
        assert(trials@.take(trials@.len() as int) =~= trials@);
    }
    let mut series: Vec<(usize, FloatBits)> = Vec::new();
    let mut k: usize = 0;
    while k < ordered.len()
        invariant
            k <= ordered@.len(),
            series@ == running_best(ordered@.take(k as int), direction),
        decreases ordered@.len() - k,
    {
        proof {
            assert(ordered@.take(k + 1).drop_last() =~= ordered@.take(k as int));
            lemma_running_best_len(ordered@.take(k as int), direction);
        }
        let (n, v) = ordered[k];
        let b = if series.len() == 0 {
            v
        } else {
            let prev = series[series.len() - 1].1;
            if direction.is_better(v, prev) {
                v
            } else {
                prev
            }
        };
        series.push((n, b));
        k = k + 1;
    }
    proof {
        assert(ordered@.take(ordered@.len() as int) =~= ordered@);
    }
    series
}

} // verus!
