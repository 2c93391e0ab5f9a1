//! Exhaustive search over a caller-provided discrete grid.
use vstd::prelude::*;

use crate::float::FloatBits;
use crate::value::{copy_value, Value};

verus! {

/// The radix of one grid axis: its number of values, at least 1.
pub open spec fn radix(values: Seq<Value>) -> int {
    if values.len() >= 1 {
        values.len() as int
    } else {
        1
    }
}

/// Product of the radices of the axes `k..` of `grids`.
pub open spec fn suffix_product(grids: Seq<(String, Vec<Value>)>, k: int) -> int
    decreases grids.len() - k,
{
    if k >= grids.len() || k < 0 {
        1
    } else {
        radix(grids[k].1@) * suffix_product(grids, k + 1)
    }
}

/// `k` is the first axis of `grids` named `name`.
pub open spec fn first_axis(grids: Seq<(String, Vec<Value>)>, name: Seq<char>, k: int) -> bool {
    &&& 0 <= k < grids.len()
    &&& grids[k].0@ == name
    &&& forall|j: int| 0 <= j < k ==> #[trigger] grids[j].0@ != name
}

/// `v` is the categorical value labelled `label`.
pub open spec fn is_label(v: Value, label: Seq<char>) -> bool {
    v matches Value::Categorical(s) && s@ == label
}

/// Some axis of `grids` is named `name`.
pub open spec fn has_axis(grids: Seq<(String, Vec<Value>)>, name: Seq<char>) -> bool {
    exists|k: int| 0 <= k < grids.len() && #[trigger] grids[k].0@ == name
}

/// Products of radices are at least 1.
pub proof fn lemma_suffix_product_positive(grids: Seq<(String, Vec<Value>)>, k: int)
    ensures
        suffix_product(grids, k) >= 1,
    decreases grids.len() - k,
{
    if 0 <= k < grids.len() {
        lemma_suffix_product_positive(grids, k + 1);
        assert(radix(grids[k].1@) * suffix_product(grids, k + 1) >= 1) by (nonlinear_arith)
            requires
                radix(grids[k].1@) >= 1,
                suffix_product(grids, k + 1) >= 1,
        ;
    }
}

/// Suffix products shrink as the suffix does.
pub proof fn lemma_suffix_product_monotone(grids: Seq<(String, Vec<Value>)>, j: int, k: int)
    requires
        0 <= j <= k,
    ensures
        suffix_product(grids, k) <= suffix_product(grids, j),
    decreases k - j,
{
    if j < k && j < grids.len() {
        lemma_suffix_product_monotone(grids, j + 1, k);
        lemma_suffix_product_positive(grids, j + 1);
        assert(radix(grids[j].1@) * suffix_product(grids, j + 1) >= suffix_product(grids, j + 1))
            by (nonlinear_arith)
            requires
                radix(grids[j].1@) >= 1,
                suffix_product(grids, j + 1) >= 1,
        ;
    }
}

/// Exhaustive search over a caller-provided discrete grid.
///
/// Each parameter's grid is registered up front; trials are enumerated as a
/// mixed-radix odometer over the registered grids, in the order they were
/// added: trial `n` maps to combination `n % grid_size()`. A trial may
/// request only some of the registered parameters (conditional spaces). A
/// parameter that was never registered has no grid value (see
/// [`GridSampler::suggest`]).
#[derive(Debug, Clone)]
pub struct GridSampler {
    grids: Vec<(String, Vec<Value>)>,
}

impl GridSampler {
    /// The registered axes, in registration order.
    pub closed spec fn grids_spec(&self) -> Seq<(String, Vec<Value>)> {
        self.grids@
    }

    /// Total number of grid points.
    pub open spec fn grid_size_spec(&self) -> int {
        suffix_product(self.grids_spec(), 0)
    }

    /// The index into `name`'s grid used by trial `number`.
    pub open spec fn index_spec(&self, name: Seq<char>, number: usize) -> Option<int> {
        if !has_axis(self.grids_spec(), name) {
            None
        } else {
            let k = choose|k: int| first_axis(self.grids_spec(), name, k);
            let len = self.grids_spec()[k].1@.len();
            if len == 0 {
                None
            } else {
                Some((number as int % self.grid_size_spec()) / suffix_product(
                    self.grids_spec(),
                    k + 1,
                ) % (len as int))
            }
        }
    }

    /// A grid sampler with no parameters registered yet.
    pub fn new() -> (r: GridSampler)
        ensures
            r.grids_spec() == Seq::<(String, Vec<Value>)>::empty(),
    {
        GridSampler { grids: Vec::new() }
    }

    /// Registers a parameter's grid of explicit values. Registration order
    /// defines the odometer axis order.
    pub fn add_grid(self, name: &str, values: Vec<Value>) -> (r: GridSampler)
        ensures
            r.grids_spec().len() == self.grids_spec().len() + 1,
            r.grids_spec().drop_last() == self.grids_spec(),
            r.grids_spec().last().0@ == name@,
            r.grids_spec().last().1 == values,
    {
        let mut grids = self.grids;
        grids.push((name.to_owned(), values));
        proof {
            assert(grids@.drop_last() =~= self.grids@);
        }
        GridSampler { grids }
    }

    /// Registers a float-valued grid.
    pub fn add_float_grid(self, name: &str, values: &[FloatBits]) -> (r: GridSampler)
        ensures
            r.grids_spec().len() == self.grids_spec().len() + 1,
            r.grids_spec().drop_last() == self.grids_spec(),
            r.grids_spec().last().0@ == name@,
            r.grids_spec().last().1@.len() == values@.len(),
            forall|i: int|
                0 <= i < values@.len() ==> r.grids_spec().last().1@[i] == Value::Float(
                    #[trigger] values@[i],
                ),
    {
        let mut out: Vec<Value> = Vec::new();
        let mut i: usize = 0;
        while i < values.len()
            invariant
                i <= values.len(),
                out@.len() == i,
                forall|j: int| 0 <= j < i ==> out@[j] == Value::Float(#[trigger] values@[j]),
            decreases values.len() - i,
        {
            out.push(Value::Float(values[i]));
            i = i + 1;
        }
        self.add_grid(name, out)
    }

    /// Registers an integer-valued grid.
    pub fn add_int_grid(self, name: &str, values: &[i64]) -> (r: GridSampler)
        ensures
            r.grids_spec().len() == self.grids_spec().len() + 1,
            r.grids_spec().drop_last() == self.grids_spec(),
            r.grids_spec().last().0@ == name@,
            r.grids_spec().last().1@.len() == values@.len(),
            forall|i: int|
                0 <= i < values@.len() ==> r.grids_spec().last().1@[i] == Value::Int(
                    #[trigger] values@[i],
                ),
    {
        let mut out: Vec<Value> = Vec::new();
        let mut i: usize = 0;
        while i < values.len()
            invariant
                i <= values.len(),
                out@.len() == i,
                forall|j: int| 0 <= j < i ==> out@[j] == Value::Int(#[trigger] values@[j]),
            decreases values.len() - i,
        {
            out.push(Value::Int(values[i]));
            i = i + 1;
        }
        self.add_grid(name, out)
    }

    /// Registers a categorical grid.
    pub fn add_categorical_grid(self, name: &str, values: &[&str]) -> (r: GridSampler)
        ensures
            r.grids_spec().len() == self.grids_spec().len() + 1,
            r.grids_spec().drop_last() == self.grids_spec(),
            r.grids_spec().last().0@ == name@,
            r.grids_spec().last().1@.len() == values@.len(),
            forall|i: int|
                0 <= i < values@.len() ==> is_label(
                    r.grids_spec().last().1@[i],
                    (#[trigger] values@[i])@,
                ),
    {
        let mut out: Vec<Value> = Vec::new();
        let mut i: usize = 0;
        while i < values.len()
            invariant
                i <= values.len(),
                out@.len() == i,
                forall|j: int| 0 <= j < i ==> is_label(#[trigger] out@[j], values@[j]@),
            decreases values.len() - i,
        {
            let label: &str = values[i];
            let owned = label.to_owned();
            assert(owned@ == values@[i as int]@);
            out.push(Value::Categorical(owned));
            assert(is_label(out@[i as int], values@[i as int]@));
            i = i + 1;
        }
        let r = self.add_grid(name, out);
        proof {
            assert forall|j: int| 0 <= j < values@.len() implies is_label(
                r.grids_spec().last().1@[j],
                (#[trigger] values@[j])@,
            ) by {
                assert(is_label(out@[j], values@[j]@));
            }
        }
        r
    }

    /// Total number of grid points: the product of all registered grid sizes
    /// (an empty grid counts as size 1). Running this many trials covers the
    /// whole grid exactly once.
    pub fn grid_size(&self) -> (r: usize)
        requires
            self.grid_size_spec() <= usize::MAX,
        ensures
            r == self.grid_size_spec(),
            r >= 1,
    {
        let mut product: usize = 1;
        let mut i: usize = self.grids.len();
        while i > 0
            invariant
                i <= self.grids.len(),
                product == suffix_product(self.grids@, i as int),
                suffix_product(self.grids@, 0) <= usize::MAX,
            decreases i,
        {
            i = i - 1;
            let len = self.grids[i].1.len();
            let radix = if len >= 1 {
                len
            } else {
                1
            };
            proof {
                lemma_suffix_product_monotone(self.grids@, 0, i as int);
                lemma_suffix_product_positive(self.grids@, i as int + 1);
            }
            product = radix * product;
        }
        proof {
            lemma_suffix_product_positive(self.grids@, 0);
        }
        product
    }

    /// The number of grid points, or `None` when it does not fit in a
    /// `usize` (the grid cannot then be enumerated).
    pub fn checked_grid_size(&self) -> (r: Option<usize>)
        ensures
            r matches Some(n) ==> n == self.grid_size_spec(),
            r is None ==> self.grid_size_spec() > usize::MAX,
    {
        let mut product: usize = 1;
        let mut i: usize = self.grids.len();
        while i > 0
            invariant
                i <= self.grids.len(),
                product == suffix_product(self.grids@, i as int),
            decreases i,
        {
            i = i - 1;
            let len = self.grids[i].1.len();
            let radix = if len >= 1 {
                len
            } else {
                1
            };
            match radix.checked_mul(product) {
                Some(p) => {
                    product = p;
                },
                None => {
                    proof {
                        lemma_suffix_product_monotone(self.grids@, 0, i as int);
                    }
                    return None;
                },
            }
        }
        Some(product)
    }

    /// The index into `name`'s grid for trial `trial_number`, via mixed-radix
    /// decomposition over the registered grids (the first axis registered
    /// under `name` counts). `None` if `name` is unregistered or its grid is
    /// empty.
    fn index_for(&self, name: &str, trial_number: usize) -> (r: Option<usize>)
        requires
            self.grid_size_spec() <= usize::MAX,
        ensures
            r == (match self.index_spec(name@, trial_number) {
                Some(i) => Some(i as usize),
                None => None,
            }),
            r matches Some(i) ==> exists|k: int|
                first_axis(self.grids_spec(), name@, k) && i < self.grids_spec()[k].1@.len(),
    {
        let key = name.to_owned();
        let mut suffix: usize = 1;
        let mut target: Option<usize> = None;
        let mut divisor: usize = 1;
        let mut i: usize = self.grids.len();
        while i > 0
            invariant
                i <= self.grids.len(),
                key@ == name@,
                suffix == suffix_product(self.grids@, i as int),
                suffix_product(self.grids@, 0) <= usize::MAX,
                target is None ==> forall|j: int|
                    i <= j < self.grids@.len() ==> #[trigger] self.grids@[j].0@ != name@,
                target matches Some(t) ==> {
                    &&& i <= t < self.grids@.len()
                    &&& self.grids@[t as int].0@ == name@
                    &&& forall|j: int| i <= j < t ==> #[trigger] self.grids@[j].0@ != name@
                    &&& divisor == suffix_product(self.grids@, t as int + 1)
                },
            decreases i,
        {
            i = i - 1;
            proof {
                lemma_suffix_product_monotone(self.grids@, 0, i as int);
                lemma_suffix_product_positive(self.grids@, i as int + 1);
            }
            let len = self.grids[i].1.len();
            let radix = if len >= 1 {
                len
            } else {
                1
            };
            if self.grids[i].0 == key {
                target = Some(i);
                divisor = suffix;
            }
            suffix = radix * suffix;
        }
        let t = match target {
            Some(t) => t,
            None => {
                return None;
            },
        };
        proof {
            assert(first_axis(self.grids@, name@, t as int));
            assert(has_axis(self.grids@, name@));
            let k = choose|k: int| first_axis(self.grids_spec(), name@, k);
            assert(k == t) by {
                if k < t {
                    assert(self.grids@[k].0@ != name@);
                } else if k > t {
                    assert(self.grids@[t as int].0@ != name@);
                }
            }
            lemma_suffix_product_positive(self.grids@, t as int + 1);
        }
        let len = self.grids[t].1.len();
        if len == 0 {
            return None;
        }
        let total = self.grid_size();
        let combo = trial_number % total;
        proof {
            assert(combo / divisor % len < len) by (nonlinear_arith)
                requires
                    len > 0,
            ;
        }
        Some((combo / divisor) % len)
    }

    /// The registered grid value of `param_name` for trial `trial_number`, or
    /// `None` if the parameter was never registered (or its grid is empty);
    /// for such a parameter a sampler falls back to a seeded random draw.
    pub fn suggest(&self, trial_number: usize, param_name: &str) -> (r: Option<Value>)
        requires
            self.grid_size_spec() <= usize::MAX,
        ensures
            r is None <==> self.index_spec(param_name@, trial_number) is None,
            r is Some ==> forall|k: int|
                first_axis(self.grids_spec(), param_name@, k) ==> r == Some(
                    self.grids_spec()[k].1@[self.index_spec(param_name@, trial_number).unwrap()],
                ),
    {
        let idx = match self.index_for(param_name, trial_number) {
            Some(i) => i,
            None => {
                return None;
            },
        };
        proof {
            let ix = self.index_spec(param_name@, trial_number).unwrap();
            let k = choose|k: int| first_axis(self.grids_spec(), param_name@, k);
            let len = self.grids_spec()[k].1@.len() as int;
            assert(len <= usize::MAX) by {
                assert(self.grids@[k].1@.len() == self.grids@[k].1.len());
            }
            assert(ix >= 0 && ix < len) by {
                lemma_suffix_product_positive(self.grids@, 0);
                lemma_suffix_product_positive(self.grids@, k + 1);
            }
            assert(ix == idx as int);
        }
        let key = param_name.to_owned();
        let mut i: usize = 0;
        while i < self.grids.len()
            invariant
                i <= self.grids.len(),
                key@ == param_name@,
                self.index_spec(param_name@, trial_number) == Some(idx as int),
                forall|j: int| 0 <= j < i ==> #[trigger] self.grids@[j].0@ != param_name@,
                exists|k: int|
                    first_axis(self.grids_spec(), param_name@, k) && idx < self.grids_spec()[k].1@.len(),
            decreases self.grids.len() - i,
        {
            if self.grids[i].0 == key {
                proof {
                    let k = choose|k: int|
                        first_axis(self.grids_spec(), param_name@, k) && idx
                            < self.grids_spec()[k].1@.len();
                    assert(k == i) by {
                        if k < i {
                        } else if k > i {
                            assert(self.grids@[i as int].0@ != param_name@);
                        }
                    }
                    assert forall|k2: int| first_axis(self.grids_spec(), param_name@, k2) implies k2
                        == i by {
                        if k2 < i {
                        } else if k2 > i {
                            assert(self.grids@[i as int].0@ != param_name@);
                        }
                    }
                }
                let v = copy_value(&self.grids[i].1[idx]);
                assert(v == self.grids_spec()[i as int].1@[self.index_spec(
                    param_name@,
                    trial_number,
                ).unwrap()]);
                return Some(v);
            }
            i = i + 1;
        }
        proof {
            let k = choose|k: int|
                first_axis(self.grids_spec(), param_name@, k) && idx < self.grids_spec()[k].1@.len();
            assert(self.grids@[k].0@ != param_name@);
        }
        None
    }
}

} // verus!
