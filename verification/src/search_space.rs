//! The numeric search space CMA-ES works in: the numeric parameters that
//! every completed trial carries, each with the distribution it was first
//! recorded under, in name order.
use vstd::prelude::*;
use vstd::utf8::encode_utf8;

use crate::study_state::{completed_count, is_completed, StudyState};
use crate::trial::{first_param, has_param, ParamRecord, Trial, TrialState};
use crate::value::{Distribution, Value};

verus! {

/// `a` sorts strictly before `b` in byte order (the order of `str::cmp`).
pub open spec fn bytes_before(a: Seq<u8>, b: Seq<u8>) -> bool
    decreases a.len(),
{
    if b.len() == 0 {
        false
    } else if a.len() == 0 {
        true
    } else if a[0] < b[0] {
        true
    } else if a[0] > b[0] {
        false
    } else {
        bytes_before(a.drop_first(), b.drop_first())
    }
}

/// The UTF-8 bytes of a name.
pub open spec fn name_bytes(name: Seq<char>) -> Seq<u8> {
    encode_utf8(name)
}

/// `a` sorts strictly before `b` by name.
pub open spec fn name_before(a: Seq<char>, b: Seq<char>) -> bool {
    bytes_before(name_bytes(a), name_bytes(b))
}

/// Byte order is a strict total order.
pub proof fn lemma_bytes_before_order(a: Seq<u8>, b: Seq<u8>, c: Seq<u8>)
    ensures
        !bytes_before(a, a),
        bytes_before(a, b) ==> !bytes_before(b, a),
        a != b ==> bytes_before(a, b) || bytes_before(b, a),
        bytes_before(a, b) && bytes_before(b, c) ==> bytes_before(a, c),
    decreases a.len(),
{
    if a.len() > 0 && b.len() > 0 && c.len() > 0 {
        lemma_bytes_before_order(a.drop_first(), b.drop_first(), c.drop_first());
    } else if a.len() > 0 && b.len() > 0 {
        lemma_bytes_before_order(a.drop_first(), b.drop_first(), b.drop_first());
    } else if a.len() > 0 {
        lemma_bytes_before_order(a.drop_first(), a.drop_first(), a.drop_first());
    }
    if a.len() > 0 && b.len() > 0 && a != b && a[0] == b[0] {
        assert(a.drop_first() != b.drop_first()) by {
            if a.drop_first() == b.drop_first() {
                assert(a =~= seq![a[0]] + a.drop_first());
                assert(b =~= seq![b[0]] + b.drop_first());
            }
        }
    }
    if a.len() == 0 && b.len() == 0 {
        assert(a =~= b);
    }
}

/// Name order is a strict total order on names.
pub proof fn lemma_name_before_order(a: Seq<char>, b: Seq<char>, c: Seq<char>)
    ensures
        !name_before(a, a),
        name_before(a, b) ==> !name_before(b, a),
        a != b ==> name_before(a, b) || name_before(b, a),
        name_before(a, b) && name_before(b, c) ==> name_before(a, c),
{
    lemma_bytes_before_order(name_bytes(a), name_bytes(b), name_bytes(c));
    if a != b {
        vstd::utf8::encode_utf8_decode_utf8(a);
        vstd::utf8::encode_utf8_decode_utf8(b);
    }
}

/// Whether `a` sorts strictly before `b` in byte order.
pub fn str_before(a: &str, b: &str) -> (r: bool)
    ensures
        r == name_before(a@, b@),
{
    let x = a.as_bytes();
    let y = b.as_bytes();
    let mut i: usize = 0;
    assert(x@.skip(0) =~= x@);
    assert(y@.skip(0) =~= y@);
    while i < x.len() && i < y.len()
        invariant
            i <= x@.len(),
            i <= y@.len(),
            x@ == name_bytes(a@),
            y@ == name_bytes(b@),
            bytes_before(x@, y@) == bytes_before(x@.skip(i as int), y@.skip(i as int)),
        decreases x@.len() - i,
    {
        assert(x@.skip(i as int)[0] == x@[i as int]);
        assert(y@.skip(i as int)[0] == y@[i as int]);
        assert(x@.skip(i as int).len() > 0 && y@.skip(i as int).len() > 0);
        if x[i] < y[i] {
            assert(bytes_before(x@.skip(i as int), y@.skip(i as int)));
            return true;
        }
        if x[i] > y[i] {
            assert(!bytes_before(x@.skip(i as int), y@.skip(i as int)));
            return false;
        }
        assert(x@.skip(i as int).drop_first() =~= x@.skip(i + 1));
        assert(y@.skip(i as int).drop_first() =~= y@.skip(i + 1));
        i = i + 1;
    }
    assert(x@.skip(i as int).len() == x@.len() - i);
    assert(y@.skip(i as int).len() == y@.len() - i);
    i < y.len()
}

/// A numeric distribution: anything but a categorical.
pub open spec fn is_numeric(d: Distribution) -> bool {
    !(d is Categorical)
}

/// Whether `d` is numeric.
pub fn is_numeric_distribution(d: &Distribution) -> (r: bool)
    ensures
        r == is_numeric(*d),
{
    match d {
        Distribution::Categorical { .. } => false,
        _ => true,
    }
}

/// `value` is of the numeric kind `dist` asks for: a float for a continuous
/// distribution, an integer for an integer one.
pub open spec fn numeric_variant_matches(dist: Distribution, value: Value) -> bool {
    match dist {
        Distribution::Uniform { .. } => value is Float,
        Distribution::LogUniform { .. } => value is Float,
        Distribution::IntUniform { .. } => value is Int,
        Distribution::Categorical { .. } => false,
    }
}

/// Whether `value` is of the numeric kind `dist` asks for.
pub fn variant_matches(dist: &Distribution, value: &Value) -> (r: bool)
    ensures
        r == numeric_variant_matches(*dist, *value),
{
    match (dist, value) {
        (Distribution::Uniform { .. }, Value::Float(_)) => true,
        (Distribution::LogUniform { .. }, Value::Float(_)) => true,
        (Distribution::IntUniform { .. }, Value::Int(_)) => true,
        _ => false,
    }
}

/// The numeric records of `params`, in order.
pub open spec fn numeric_of(params: Seq<ParamRecord>) -> Seq<ParamRecord> {
    params.filter(|p: ParamRecord| is_numeric(p.distribution))
}

/// The numeric records of the completed trials, trial by trial, in order.
pub open spec fn numeric_records(trials: Seq<Trial>) -> Seq<ParamRecord>
    decreases trials.len(),
{
    if trials.len() == 0 {
        Seq::empty()
    } else if is_completed(trials.last()) {
        numeric_records(trials.drop_last()) + numeric_of(trials.last().params@)
    } else {
        numeric_records(trials.drop_last())
    }
}

/// How many of `recs` are named `name`.
pub open spec fn count_named(recs: Seq<ParamRecord>, name: Seq<char>) -> nat
    decreases recs.len(),
{
    if recs.len() == 0 {
        0
    } else {
        count_named(recs.drop_last(), name) + if recs.last().name@ == name {
            1nat
        } else {
            0nat
        }
    }
}

/// Two distributions are the same (labels compared by content).
pub open spec fn same_distribution(a: Distribution, b: Distribution) -> bool {
    match (a, b) {
        (Distribution::Categorical { choices: x }, Distribution::Categorical { choices: y }) => x@
            == y@,
        _ => a == b,
    }
}

/// `name` belongs to the numeric search space of `trials`: it was recorded
/// numerically, as many times as trials completed.
pub open spec fn in_space(trials: Seq<Trial>, name: Seq<char>) -> bool {
    &&& has_param(numeric_records(trials), name)
    &&& count_named(numeric_records(trials), name) == completed_count(trials)
}

pub proof fn lemma_count_named_bound(recs: Seq<ParamRecord>, name: Seq<char>)
    ensures
        count_named(recs, name) <= recs.len(),
        count_named(recs, name) > 0 <==> has_param(recs, name),
    decreases recs.len(),
{
    if recs.len() > 0 {
        lemma_count_named_bound(recs.drop_last(), name);
        if has_param(recs, name) && recs.last().name@ != name {
            let k = choose|k: int| 0 <= k < recs.len() && #[trigger] recs[k].name@ == name;
            assert(recs.drop_last()[k].name@ == name);
        }
        if has_param(recs.drop_last(), name) {
            let k = choose|k: int|
                0 <= k < recs.drop_last().len() && #[trigger] recs.drop_last()[k].name@ == name;
            assert(recs[k].name@ == name);
        }
        if recs.last().name@ == name {
            assert(recs[recs.len() - 1].name@ == name);
        }
    }
}

proof fn lemma_count_named_push(recs: Seq<ParamRecord>, p: ParamRecord, name: Seq<char>)
    ensures
        count_named(recs.push(p), name) == count_named(recs, name) + if p.name@ == name {
            1int
        } else {
            0int
        },
{
    assert(recs.push(p).drop_last() =~= recs);
}

/// A copy of a distribution, labels included.
pub fn copy_distribution(d: &Distribution) -> (r: Distribution)
    ensures
        same_distribution(r, *d),
        r is Categorical <==> d is Categorical,
{
    match d {
        Distribution::Uniform { low, high } => Distribution::Uniform { low: *low, high: *high },
        Distribution::LogUniform { low, high } => Distribution::LogUniform {
            low: *low,
            high: *high,
        },
        Distribution::IntUniform { low, high } => Distribution::IntUniform {
            low: *low,
            high: *high,
        },
        Distribution::Categorical { choices } => {
            let mut labels: Vec<String> = Vec::new();
            let mut i: usize = 0;
            while i < choices.len()
                invariant
                    i <= choices@.len(),
                    labels@.len() == i,
                    forall|j: int| 0 <= j < i ==> #[trigger] labels@[j] == choices@[j],
                decreases choices@.len() - i,
            {
                labels.push(choices[i].clone());
                i = i + 1;
            }
            assert(labels@ =~= choices@);
            Distribution::Categorical { choices: labels }
        },
    }
}

/// Position of `name` among `names`, if it is there.
fn position_of(names: &Vec<String>, name: &String) -> (r: Option<usize>)
    ensures
        r is None ==> forall|e: int| 0 <= e < names@.len() ==> #[trigger] names@[e]@ != name@,
        r matches Some(e) ==> e < names@.len() && names@[e as int]@ == name@,
{
    let mut e: usize = 0;
    while e < names.len()
        invariant
            e <= names@.len(),
            forall|k: int| 0 <= k < e ==> #[trigger] names@[k]@ != name@,
        decreases names@.len() - e,
    {
        if names[e] == *name {
            return Some(e);
        }
        e = e + 1;
    }
    None
}

/// What the scan has gathered from the records `seen`: each numeric name
/// once, in first-seen order, with its first distribution and its count.
#[verifier::opaque]
spec fn gathered(
    seen: Seq<ParamRecord>,
    names: Seq<String>,
    dists: Seq<Distribution>,
    counts: Seq<u128>,
) -> bool {
    &&& names.len() == dists.len()
    &&& names.len() == counts.len()
    &&& forall|a: int, b: int| 0 <= a < b < names.len() ==> names[a]@ != names[b]@
    &&& forall|e: int|
        0 <= e < names.len() ==> {
            &&& has_param(seen, #[trigger] names[e]@)
            &&& counts[e] == count_named(seen, names[e]@)
            &&& forall|k: int|
                first_param(seen, names[e]@, k) ==> same_distribution(dists[e], seen[k].distribution)
        }
    &&& forall|name: Seq<char>|
        has_param(seen, name) ==> exists|e: int| 0 <= e < names.len() && #[trigger] names[e]@ == name
}

/// The first record of `recs` named `name` stays first as records are
/// appended.
proof fn lemma_first_param_push(recs: Seq<ParamRecord>, p: ParamRecord, name: Seq<char>, k: int)
    requires
        has_param(recs, name),
    ensures
        first_param(recs.push(p), name, k) == first_param(recs, name, k),
{
    let next = recs.push(p);
    if first_param(recs, name, k) {
        assert(next[k] == recs[k]);
        assert forall|j: int| 0 <= j < k implies #[trigger] next[j].name@ != name by {
            assert(next[j] == recs[j]);
        }
    }
    if first_param(next, name, k) {
        let m = choose|m: int| 0 <= m < recs.len() && #[trigger] recs[m].name@ == name;
        assert(next[m] == recs[m]);
        assert(k <= m);
        assert(next[k] == recs[k]);
        assert forall|j: int| 0 <= j < k implies #[trigger] recs[j].name@ != name by {
            assert(next[j] == recs[j]);
        }
    }
}

/// Records the numeric record `p` into what was gathered from `seen`.
fn gather_one(
    names: &mut Vec<String>,
    dists: &mut Vec<Distribution>,
    counts: &mut Vec<u128>,
    Ghost(seen): Ghost<Seq<ParamRecord>>,
    p: &ParamRecord,
)
    requires
        gathered(seen, old(names)@, old(dists)@, old(counts)@),
        seen.len() < u128::MAX,
    ensures
        gathered(seen.push(*p), final(names)@, final(dists)@, final(counts)@),
{
    let ghost next = seen.push(*p);
    proof {
        reveal(gathered);
        lemma_count_named_bound(seen, p.name@);
    }
    match position_of(names, &p.name) {
        Some(e) => {
            let c = counts[e];
            counts.set(e, c + 1);
            proof {
                assert forall|f: int| 0 <= f < names@.len() implies {
                    &&& has_param(next, #[trigger] names@[f]@)
                    &&& counts@[f] == count_named(next, names@[f]@)
                    &&& forall|k: int|
                        first_param(next, names@[f]@, k) ==> same_distribution(
                            dists@[f],
                            next[k].distribution,
                        )
                } by {
                    lemma_count_named_push(seen, *p, names@[f]@);
                    let m = choose|m: int| 0 <= m < seen.len() && #[trigger] seen[m].name@ == names@[f]@;
                    assert(next[m] == seen[m]);
                    assert forall|k: int| first_param(next, names@[f]@, k) implies same_distribution(
                        dists@[f],
                        next[k].distribution,
                    ) by {
                        lemma_first_param_push(seen, *p, names@[f]@, k);
                        assert(next[k] == seen[k]);
                    }
                }
                assert forall|name: Seq<char>| has_param(next, name) implies exists|f: int|
                    0 <= f < names@.len() && #[trigger] names@[f]@ == name by {
                    let m = choose|m: int| 0 <= m < next.len() && #[trigger] next[m].name@ == name;
                    if m < seen.len() {
                        assert(next[m] == seen[m]);
                        assert(has_param(seen, name));
                    } else {
                        assert(names@[e as int]@ == name);
                    }
                }
            }
        },
        None => {
            let nm = p.name.clone();
            let d = copy_distribution(&p.distribution);
            names.push(nm);
            dists.push(d);
            counts.push(1);
            proof {
                let last = names@.len() - 1;
                assert(!has_param(seen, p.name@));
                assert forall|f: int| 0 <= f < names@.len() implies {
                    &&& has_param(next, #[trigger] names@[f]@)
                    &&& counts@[f] == count_named(next, names@[f]@)
                    &&& forall|k: int|
                        first_param(next, names@[f]@, k) ==> same_distribution(
                            dists@[f],
                            next[k].distribution,
                        )
                } by {
                    lemma_count_named_push(seen, *p, names@[f]@);
                    if f < last {
                        let m = choose|m: int| 0 <= m < seen.len() && #[trigger] seen[m].name@ == names@[f]@;
                        assert(next[m] == seen[m]);
                        assert forall|k: int| first_param(next, names@[f]@, k) implies same_distribution(
                            dists@[f],
                            next[k].distribution,
                        ) by {
                            lemma_first_param_push(seen, *p, names@[f]@, k);
                            assert(next[k] == seen[k]);
                        }
                    } else {
                        assert(next[seen.len() as int] == *p);
                        assert forall|k: int| first_param(next, names@[f]@, k) implies same_distribution(
                            dists@[f],
                            next[k].distribution,
                        ) by {
                            if k < seen.len() {
                                assert(next[k] == seen[k]);
                                assert(has_param(seen, p.name@));
                            }
                        }
                    }
                }
                assert forall|name: Seq<char>| has_param(next, name) implies exists|f: int|
                    0 <= f < names@.len() && #[trigger] names@[f]@ == name by {
                    let m = choose|m: int| 0 <= m < next.len() && #[trigger] next[m].name@ == name;
                    if m < seen.len() {
                        assert(next[m] == seen[m]);
                        assert(has_param(seen, name));
                        let f = choose|f: int|
                            0 <= f < old(names)@.len() && #[trigger] old(names)@[f]@ == name;
                        assert(names@[f] == old(names)@[f]);
                    } else {
                        assert(next[m] == *p);
                        assert(names@[last] == p.name);
                        assert(names@[last]@ == name);
                    }
                }
            }
        },
    }
}

/// Gathers the numeric records of the completed `trials`: each name once,
/// in first-seen order, with its first distribution and its count, and the
/// number of completed trials.
fn gather(trials: &[Trial]) -> (r: (Vec<String>, Vec<Distribution>, Vec<u128>, usize))
    ensures
        gathered(numeric_records(trials@), r.0@, r.1@, r.2@),
        r.3 == completed_count(trials@),
{
    let ghost all = trials@;
    let mut names: Vec<String> = Vec::new();
    let mut dists: Vec<Distribution> = Vec::new();
    let mut counts: Vec<u128> = Vec::new();
    let mut n_completed: usize = 0;
    let mut i: usize = 0;
    let n_trials = trials.len();
    proof {
        reveal(gathered);
        assert(all.len() == n_trials);
    }
    while i < trials.len()
        invariant
            all == trials@,
            i <= all.len(),
            all.len() <= usize::MAX,
            numeric_records(all.take(i as int)).len() <= i * (usize::MAX as int),
            n_completed == completed_count(all.take(i as int)),
            n_completed <= i,
            gathered(numeric_records(all.take(i as int)), names@, dists@, counts@),
        decreases all.len() - i,
    {
        proof {
            assert(all.take(i + 1).drop_last() =~= all.take(i as int));
        }
        let t = &trials[i];
        if t.state == TrialState::Complete && t.value.is_some() {
            n_completed = n_completed + 1;
            let ghost base = numeric_records(all.take(i as int));
            proof {
                assert(numeric_records(all.take(i + 1)) == base + numeric_of(t.params@));
            }
            let mut j: usize = 0;
            let n_params = t.params.len();
            proof {
                assert(t.params@.len() == n_params);
            }
            while j < t.params.len()
                invariant
                    j <= t.params@.len(),
                    t.params@.len() <= usize::MAX,
                    base.len() <= i * (usize::MAX as int),
                    i < usize::MAX,
                    numeric_of(t.params@.take(j as int)).len() <= j,
                    gathered(base + numeric_of(t.params@.take(j as int)), names@, dists@, counts@),
                decreases t.params@.len() - j,
            {
                let ghost seen = base + numeric_of(t.params@.take(j as int));
                let p = &t.params[j];
                proof {
                    reveal_with_fuel(Seq::<_>::filter, 1);
                    assert(t.params@.take(j + 1).drop_last() =~= t.params@.take(j as int));
                    assert(t.params@.take(j + 1).last() == *p);
                    Seq::filter_distributes_over_add(
                        t.params@.take(j + 1),
                        t.params@.skip(j + 1),
                        |q: ParamRecord| is_numeric(q.distribution),
                    );
                    assert(t.params@.take(j + 1) + t.params@.skip(j + 1) =~= t.params@);
                }
                if is_numeric_distribution(&p.distribution) {
                    proof {
                        assert(base + numeric_of(t.params@.take(j + 1)) =~= seen.push(*p));
                        assert(seen.len() < u128::MAX) by (nonlinear_arith)
                            requires
                                seen.len() <= base.len() + j,
                                base.len() <= i * (usize::MAX as int),
                                i < usize::MAX,
                                j < usize::MAX,
                        ;
                    }
                    gather_one(&mut names, &mut dists, &mut counts, Ghost(seen), p);
                } else {
                    proof {
                        assert(base + numeric_of(t.params@.take(j + 1)) =~= seen);
                    }
                }
                j = j + 1;
            }
            proof {
                assert(t.params@.take(j as int) =~= t.params@);
                assert(numeric_records(all.take(i + 1)).len() <= (i + 1) * (usize::MAX as int))
                    by (nonlinear_arith)
                    requires
                        numeric_records(all.take(i + 1)).len() == base.len() + numeric_of(
                            t.params@,
                        ).len(),
                        numeric_of(t.params@).len() <= t.params@.len(),
                        t.params@.len() <= usize::MAX,
                        base.len() <= i * (usize::MAX as int),
                ;
            }
        } else {
            proof {
                assert(numeric_records(all.take(i + 1)) == numeric_records(all.take(i as int)));
                assert(i * (usize::MAX as int) <= (i + 1) * (usize::MAX as int)) by (nonlinear_arith);
            }
        }
        i = i + 1;
    }
    proof {
        assert(all.take(i as int) =~= all);
    }
    (names, dists, counts, n_completed)
}

/// Inserts `x` into `out`, kept strictly sorted by name; `x`'s name is new.
fn insert_by_name(out: &mut Vec<(String, Distribution)>, x: (String, Distribution))
    requires
        forall|a: int, b: int|
            0 <= a < b < old(out)@.len() ==> name_before(old(out)@[a].0@, old(out)@[b].0@),
        forall|a: int| 0 <= a < old(out)@.len() ==> #[trigger] old(out)@[a].0@ != x.0@,
    ensures
        forall|a: int, b: int|
            0 <= a < b < final(out)@.len() ==> name_before(final(out)@[a].0@, final(out)@[b].0@),
        exists|p: int| 0 <= p <= old(out)@.len() && final(out)@ == old(out)@.insert(p, x),
{
    let mut p: usize = out.len();
    while p > 0 && str_before(x.0.as_str(), out[p - 1].0.as_str())
        invariant
            p <= out@.len(),
            forall|k: int| p <= k < out@.len() ==> name_before(x.0@, #[trigger] out@[k].0@),
        decreases p,
    {
        p = p - 1;
    }
    proof {
        if p > 0 {
            lemma_name_before_order(out@[p - 1].0@, x.0@, x.0@);
        }
        assert forall|a: int| 0 <= a < p implies name_before(#[trigger] out@[a].0@, x.0@) by {
            if a < p - 1 {
                lemma_name_before_order(out@[a].0@, out@[p - 1].0@, x.0@);
            }
        }
    }
    let ghost before = out@;
    out.insert(p, x);
    proof {
        assert forall|a: int, b: int| 0 <= a < b < out@.len() implies name_before(
            out@[a].0@,
            out@[b].0@,
        ) by {
            if b < p {
                assert(out@[a] == before[a] && out@[b] == before[b]);
            } else if b == p {
                assert(out@[a] == before[a]);
            } else if a < p {
                assert(out@[a] == before[a] && out@[b] == before[b - 1]);
                lemma_name_before_order(before[a].0@, x.0@, before[b - 1].0@);
            } else if a == p {
                assert(out@[b] == before[b - 1]);
            } else {
                assert(out@[a] == before[a - 1] && out@[b] == before[b - 1]);
            }
        }
    }
}

/// The numeric parameters every completed trial carries: each name recorded
/// numerically exactly as many times as trials completed, with the
/// distribution it was first recorded under, sorted by name in byte order.
#[verifier::rlimit(40)]
pub fn search_space(study_state: &StudyState) -> (r: Vec<(String, Distribution)>)
    ensures
        forall|i: int, j: int| 0 <= i < j < r@.len() ==> name_before(r@[i].0@, r@[j].0@),
        forall|i: int|
            0 <= i < r@.len() ==> in_space(study_state.trials_spec(), #[trigger] r@[i].0@),
        forall|i: int, k: int|
            0 <= i < r@.len() && #[trigger] first_param(
                numeric_records(study_state.trials_spec()),
                r@[i].0@,
                k,
            ) ==> same_distribution(r@[i].1, numeric_records(study_state.trials_spec())[k].distribution),
        forall|name: Seq<char>|
            in_space(study_state.trials_spec(), name) ==> exists|i: int|
                0 <= i < r@.len() && #[trigger] r@[i].0@ == name,
{
    let (names, dists, counts, n_completed) = gather(study_state.trials());
    let ghost recs = numeric_records(study_state.trials_spec());
    proof {
        reveal(gathered);
    }
    let mut out: Vec<(String, Distribution)> = Vec::new();
    let ghost mut origin: Seq<int> = Seq::empty();
    let mut e: usize = 0;
    while e < names.len()
        invariant
            e <= names@.len(),
            gathered(recs, names@, dists@, counts@),
            names@.len() == counts@.len(),
            names@.len() == dists@.len(),
            forall|a: int, b: int| 0 <= a < b < names@.len() ==> names@[a]@ != names@[b]@,
            n_completed == completed_count(study_state.trials_spec()),
            recs == numeric_records(study_state.trials_spec()),
            forall|a: int, b: int| 0 <= a < b < out@.len() ==> name_before(out@[a].0@, out@[b].0@),
            origin.len() == out@.len(),
            forall|a: int|
                0 <= a < out@.len() ==> 0 <= #[trigger] origin[a] < e && names@[origin[a]]@
                    == out@[a].0@ && counts@[origin[a]] == n_completed && same_distribution(
                    out@[a].1,
                    dists@[origin[a]],
                ),
            forall|f: int|
                0 <= f < e && counts@[f] == n_completed ==> exists|a: int|
                    0 <= a < out@.len() && #[trigger] out@[a].0@ == names@[f]@,
        decreases names@.len() - e,
    {
        if counts[e] == n_completed as u128 {
            let x = (names[e].clone(), copy_distribution(&dists[e]));
            proof {
                assert forall|a: int| 0 <= a < out@.len() implies #[trigger] out@[a].0@ != x.0@ by {
                    let f = origin[a];
                    assert(names@[f]@ != names@[e as int]@);
                }
            }
            let ghost before = out@;
            insert_by_name(&mut out, x);
            proof {
                let p = choose|p: int| 0 <= p <= before.len() && out@ == before.insert(p, x);
                let old_origin = origin;
                origin = origin.insert(p, e as int);
                assert forall|a: int| 0 <= a < out@.len() implies 0 <= #[trigger] origin[a] < e + 1
                    && names@[origin[a]]@ == out@[a].0@ && counts@[origin[a]] == n_completed
                    && same_distribution(out@[a].1, dists@[origin[a]]) by {
                    if a < p {
                        assert(out@[a] == before[a] && origin[a] == old_origin[a]);
                    } else if a == p {
                        assert(out@[a] == x);
                    } else {
                        assert(out@[a] == before[a - 1] && origin[a] == old_origin[a - 1]);
                    }
                }
                assert forall|f: int| 0 <= f < e + 1 && counts@[f] == n_completed implies exists|a: int|
                    0 <= a < out@.len() && #[trigger] out@[a].0@ == names@[f]@ by {
                    if f == e {
                        assert(out@[p].0@ == names@[f]@);
                    } else {
                        let a = choose|a: int| 0 <= a < before.len() && #[trigger] before[a].0@ == names@[f]@;
                        if a < p {
                            assert(out@[a] == before[a]);
                        } else {
                            assert(out@[a + 1] == before[a]);
                        }
                    }
                }
            }
        }
        e = e + 1;
    }
    proof {
        reveal(gathered);
        assert forall|a: int| 0 <= a < out@.len() implies in_space(
            study_state.trials_spec(),
            #[trigger] out@[a].0@,
        ) by {
            let f = origin[a];
            assert(has_param(recs, names@[f]@));
        }
        assert forall|a: int, k: int|
            0 <= a < out@.len() && #[trigger] first_param(recs, out@[a].0@, k) implies same_distribution(
            out@[a].1,
            recs[k].distribution,
        ) by {
            let f = origin[a];
            assert(has_param(recs, names@[f]@));
        }
        assert forall|name: Seq<char>| in_space(study_state.trials_spec(), name) implies exists|a: int|
            0 <= a < out@.len() && #[trigger] out@[a].0@ == name by {
            let f = choose|f: int| 0 <= f < names@.len() && #[trigger] names@[f]@ == name;
            assert(counts@[f] == n_completed);
        }
    }
    out
}

/// Every record of the completed trials, trial by trial, in order.
pub open spec fn completed_records(trials: Seq<Trial>) -> Seq<ParamRecord>
    decreases trials.len(),
{
    if trials.len() == 0 {
        Seq::empty()
    } else if is_completed(trials.last()) {
        completed_records(trials.drop_last()) + trials.last().params@
    } else {
        completed_records(trials.drop_last())
    }
}

/// Position of the first record of `recs` named `name`.
pub open spec fn first_index(recs: Seq<ParamRecord>, name: Seq<char>) -> int {
    choose|k: int| first_param(recs, name, k)
}

/// A sequence with a record named `name` has a first one.
proof fn lemma_first_param_exists(recs: Seq<ParamRecord>, name: Seq<char>)
    requires
        has_param(recs, name),
    ensures
        first_param(recs, name, first_index(recs, name)),
        forall|k: int| first_param(recs, name, k) ==> k == first_index(recs, name),
{
    let m = choose|m: int| 0 <= m < recs.len() && #[trigger] recs[m].name@ == name;
    lemma_first_from(recs, name, m);
    let f = first_index(recs, name);
    assert forall|k: int| first_param(recs, name, k) implies k == f by {
        if k < f {
            assert(recs[k].name@ == name);
        } else if k > f {
            assert(recs[f].name@ == name);
        }
    }
}

proof fn lemma_first_from(recs: Seq<ParamRecord>, name: Seq<char>, m: int)
    requires
        0 <= m < recs.len(),
        recs[m].name@ == name,
    ensures
        exists|k: int| first_param(recs, name, k),
    decreases m,
{
    if forall|j: int| 0 <= j < m ==> #[trigger] recs[j].name@ != name {
        assert(first_param(recs, name, m));
    } else {
        let j = choose|j: int| 0 <= j < m && #[trigger] recs[j].name@ == name;
        lemma_first_from(recs, name, j);
    }
}

/// What a first-seen scan has collected from `seen`: each name once, ordered
/// by where it first appears, with the distribution it first appears under.
#[verifier::opaque]
spec fn collected(seen: Seq<ParamRecord>, names: Seq<String>, dists: Seq<Distribution>) -> bool {
    &&& names.len() == dists.len()
    &&& forall|e: int|
        0 <= e < names.len() ==> has_param(seen, #[trigger] names[e]@) && same_distribution(
            dists[e],
            seen[first_index(seen, names[e]@)].distribution,
        )
    &&& forall|a: int, b: int|
        0 <= a < b < names.len() ==> first_index(seen, names[a]@) < first_index(seen, names[b]@)
    &&& forall|name: Seq<char>|
        has_param(seen, name) ==> exists|e: int| 0 <= e < names.len() && #[trigger] names[e]@ == name
}

/// Adds the record `p` to what was collected from `seen`.
fn collect_one(
    names: &mut Vec<String>,
    dists: &mut Vec<Distribution>,
    Ghost(seen): Ghost<Seq<ParamRecord>>,
    p: &ParamRecord,
)
    requires
        collected(seen, old(names)@, old(dists)@),
    ensures
        collected(seen.push(*p), final(names)@, final(dists)@),
{
    let ghost next = seen.push(*p);
    proof {
        reveal(collected);
    }
    match position_of(names, &p.name) {
        Some(_) => {
            proof {
                assert forall|e: int| 0 <= e < names@.len() implies first_index(next, names@[e]@)
                    == first_index(seen, names@[e]@) && has_param(next, #[trigger] names@[e]@) by {
                    lemma_first_param_exists(seen, names@[e]@);
                    let f = first_index(seen, names@[e]@);
                    lemma_first_param_push(seen, *p, names@[e]@, f);
                    assert(next[f] == seen[f]);
                    lemma_first_param_exists(next, names@[e]@);
                }
                assert forall|e: int| 0 <= e < names@.len() implies same_distribution(
                    dists@[e],
                    next[first_index(next, names@[e]@)].distribution,
                ) by {
                    assert(first_index(next, names@[e]@) == first_index(seen, names@[e]@));
                    lemma_first_param_exists(seen, names@[e]@);
                    assert(next[first_index(seen, names@[e]@)] == seen[first_index(seen, names@[e]@)]);
                }
                assert forall|a: int, b: int| 0 <= a < b < names@.len() implies first_index(
                    next,
                    names@[a]@,
                ) < first_index(next, names@[b]@) by {
                    assert(first_index(next, names@[a]@) == first_index(seen, names@[a]@));
                    assert(first_index(next, names@[b]@) == first_index(seen, names@[b]@));
                }
                assert forall|name: Seq<char>| has_param(next, name) implies exists|e: int|
                    0 <= e < names@.len() && #[trigger] names@[e]@ == name by {
                    let m = choose|m: int| 0 <= m < next.len() && #[trigger] next[m].name@ == name;
                    if m < seen.len() {
                        assert(next[m] == seen[m]);
                        assert(has_param(seen, name));
                    } else {
                        assert(next[m] == *p);
                    }
                }
            }
        },
        None => {
            let ghost old_names = names@;
            names.push(p.name.clone());
            dists.push(copy_distribution(&p.distribution));
            proof {
                let last = names@.len() - 1;
                assert(names@[last] == p.name);
                assert(!has_param(seen, p.name@)) by {
                    if has_param(seen, p.name@) {
                        let e = choose|e: int| 0 <= e < old_names.len() && #[trigger] old_names[e]@ == p.name@;
                        assert(old_names[e]@ == p.name@);
                    }
                }
                assert(next[seen.len() as int] == *p);
                assert(first_param(next, p.name@, seen.len() as int)) by {
                    assert forall|j: int| 0 <= j < seen.len() implies #[trigger] next[j].name@ != p.name@ by {
                        assert(next[j] == seen[j]);
                        if next[j].name@ == p.name@ {
                            assert(seen[j].name@ == p.name@);
                        }
                    }
                }
                lemma_first_param_exists(next, p.name@);
                assert forall|e: int| 0 <= e < last implies first_index(next, names@[e]@)
                    == first_index(seen, names@[e]@) && has_param(next, #[trigger] names@[e]@)
                    && first_index(seen, names@[e]@) < seen.len() by {
                    assert(names@[e] == old_names[e]);
                    lemma_first_param_exists(seen, names@[e]@);
                    let f = first_index(seen, names@[e]@);
                    lemma_first_param_push(seen, *p, names@[e]@, f);
                    assert(next[f] == seen[f]);
                    lemma_first_param_exists(next, names@[e]@);
                }
                assert forall|e: int| 0 <= e < names@.len() implies has_param(next, #[trigger] names@[e]@)
                    && same_distribution(dists@[e], next[first_index(next, names@[e]@)].distribution) by {
                    if e < last {
                        assert(names@[e] == old_names[e]);
                        lemma_first_param_exists(seen, names@[e]@);
                        assert(next[first_index(seen, names@[e]@)] == seen[first_index(seen, names@[e]@)]);
                    }
                }
                assert forall|a: int, b: int| 0 <= a < b < names@.len() implies first_index(
                    next,
                    names@[a]@,
                ) < first_index(next, names@[b]@) by {
                    assert(names@[a] == old_names[a]);
                    if b < last {
                        assert(names@[b] == old_names[b]);
                    }
                }
                assert forall|name: Seq<char>| has_param(next, name) implies exists|e: int|
                    0 <= e < names@.len() && #[trigger] names@[e]@ == name by {
                    let m = choose|m: int| 0 <= m < next.len() && #[trigger] next[m].name@ == name;
                    if m < seen.len() {
                        assert(next[m] == seen[m]);
                        assert(has_param(seen, name));
                        let e = choose|e: int| 0 <= e < old_names.len() && #[trigger] old_names[e]@ == name;
                        assert(names@[e] == old_names[e]);
                    } else {
                        assert(next[m] == *p);
                    }
                }
            }
        },
    }
}

/// The parameters of the completed trials, each once, in the order they
/// were first recorded, with the distribution they were first recorded
/// under.
pub fn param_space(trials: &[Trial]) -> (r: (Vec<String>, Vec<Distribution>))
    ensures
        r.0@.len() == r.1@.len(),
        forall|e: int|
            0 <= e < r.0@.len() ==> has_param(completed_records(trials@), #[trigger] r.0@[e]@)
                && same_distribution(
                r.1@[e],
                completed_records(trials@)[first_index(completed_records(trials@), r.0@[e]@)].distribution,
            ),
        forall|a: int, b: int|
            0 <= a < b < r.0@.len() ==> first_index(completed_records(trials@), r.0@[a]@)
                < first_index(completed_records(trials@), r.0@[b]@),
        forall|name: Seq<char>|
            has_param(completed_records(trials@), name) ==> exists|e: int|
                0 <= e < r.0@.len() && #[trigger] r.0@[e]@ == name,
{
    let ghost all = trials@;
    let mut names: Vec<String> = Vec::new();
    let mut dists: Vec<Distribution> = Vec::new();
    proof {
        reveal(collected);
    }
    let mut i: usize = 0;
    while i < trials.len()
        invariant
            all == trials@,
            i <= all.len(),
            collected(completed_records(all.take(i as int)), names@, dists@),
        decreases all.len() - i,
    {
        proof {
            assert(all.take(i + 1).drop_last() =~= all.take(i as int));
        }
        let t = &trials[i];
        if t.state == TrialState::Complete && t.value.is_some() {
            let ghost base = completed_records(all.take(i as int));
            let mut j: usize = 0;
            while j < t.params.len()
                invariant
                    j <= t.params@.len(),
                    collected(base + t.params@.take(j as int), names@, dists@),
                decreases t.params@.len() - j,
            {
                let p = &t.params[j];
                proof {
                    assert(base + t.params@.take(j + 1) =~= (base + t.params@.take(j as int)).push(*p));
                }
                collect_one(&mut names, &mut dists, Ghost(base + t.params@.take(j as int)), p);
                j = j + 1;
            }
            proof {
                assert(t.params@.take(j as int) =~= t.params@);
            }
        }
        i = i + 1;
    }
    proof {
        assert(all.take(i as int) =~= all);
        reveal(collected);
    }
    (names, dists)
}

} // verus!
