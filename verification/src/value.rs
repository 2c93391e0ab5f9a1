//! Parameter values, the search-space shape each suggestion records, and the
//! optimization direction.
use vstd::prelude::*;

use crate::float::{le_spec, lt_spec, FloatBits};

verus! {

/// Optimization direction: whether the objective is minimized or maximized.
#[derive(Debug, Clone, Copy, PartialEq, Eq, Structural)]
pub enum Direction {
    Minimize,
    Maximize,
}

/// `a` is a better objective value than `b` under `direction` (IEEE-754
/// comparison, so nothing is better or worse than a NaN).
pub open spec fn better_spec(direction: Direction, a: FloatBits, b: FloatBits) -> bool {
    match direction {
        Direction::Minimize => lt_spec(a, b),
        Direction::Maximize => lt_spec(b, a),
    }
}

impl Direction {
    /// `true` if `a` is a better objective value than `b` under this direction.
    pub fn is_better(self, a: FloatBits, b: FloatBits) -> (r: bool)
        ensures
            r == better_spec(self, a, b),
    {
        match self {
            Direction::Minimize => a.lt(b),
            Direction::Maximize => a.gt(b),
        }
    }
}

/// A concrete hyperparameter value suggested for a trial.
#[derive(Debug, Clone, PartialEq)]
pub enum Value {
    /// A continuous value (from a `Uniform`/`LogUniform` distribution).
    Float(FloatBits),
    /// A discrete integer value (from an `IntUniform` distribution).
    Int(i64),
    /// A categorical choice, identified by its label.
    Categorical(String),
}

impl Value {
    /// The inner float if this is a [`Value::Float`].
    pub fn as_float(&self) -> (r: Option<FloatBits>)
        ensures
            r == (match *self {
                Value::Float(x) => Some(x),
                _ => None,
            }),
    {
        match self {
            Value::Float(x) => Some(*x),
            _ => None,
        }
    }

    /// The inner integer if this is a [`Value::Int`].
    pub fn as_int(&self) -> (r: Option<i64>)
        ensures
            r == (match *self {
                Value::Int(x) => Some(x),
                _ => None,
            }),
    {
        match self {
            Value::Int(x) => Some(*x),
            _ => None,
        }
    }

    /// The inner label if this is a [`Value::Categorical`].
    pub fn as_categorical(&self) -> (r: Option<&str>)
        ensures
            (self is Categorical) == (r is Some),
            self is Categorical ==> r.unwrap()@ == self->Categorical_0@,
    {
        match self {
            Value::Categorical(s) => Some(s.as_str()),
            _ => None,
        }
    }
}

/// A copy of a value (an exact duplicate, label included).
pub fn copy_value(v: &Value) -> (r: Value)
    ensures
        r == *v,
{
    match v {
        Value::Float(x) => Value::Float(*x),
        Value::Int(x) => Value::Int(*x),
        Value::Categorical(s) => Value::Categorical(s.clone()),
    }
}

/// The search-space shape recorded for a single suggested parameter.
#[derive(Debug, Clone, PartialEq)]
pub enum Distribution {
    /// Continuous uniform over `[low, high]`.
    Uniform { low: FloatBits, high: FloatBits },
    /// Log-uniform over `[low, high]` (both `> 0`).
    LogUniform { low: FloatBits, high: FloatBits },
    /// Integer uniform over the inclusive range `[low, high]`.
    IntUniform { low: i64, high: i64 },
    /// Categorical over a fixed set of string labels.
    Categorical { choices: Vec<String> },
}

/// `label` is one of `choices`.
pub open spec fn has_label(choices: Seq<String>, label: Seq<char>) -> bool {
    exists|i: int| 0 <= i < choices.len() && #[trigger] choices[i]@ == label
}

/// `value` lies inside the support of `distribution`, and its variant matches.
pub open spec fn contains_spec(distribution: Distribution, value: Value) -> bool {
    match distribution {
        Distribution::Uniform { low, high } => match value {
            Value::Float(x) => le_spec(low, x) && le_spec(x, high),
            _ => false,
        },
        Distribution::LogUniform { low, high } => match value {
            Value::Float(x) => le_spec(low, x) && le_spec(x, high),
            _ => false,
        },
        Distribution::IntUniform { low, high } => match value {
            Value::Int(x) => low <= x && x <= high,
            _ => false,
        },
        Distribution::Categorical { choices } => match value {
            Value::Categorical(s) => has_label(choices@, s@),
            _ => false,
        },
    }
}

/// Index of `label` in `choices`, if it is there.
pub fn position_of_label(choices: &Vec<String>, label: &String) -> (r: Option<usize>)
    ensures
        r is None <==> !has_label(choices@, label@),
        r matches Some(i) ==> i < choices.len() && choices@[i as int]@ == label@ && forall|j: int|
            0 <= j < i ==> #[trigger] choices@[j]@ != label@,
{
    let mut i: usize = 0;
    while i < choices.len()
        invariant
            i <= choices.len(),
            forall|j: int| 0 <= j < i ==> #[trigger] choices@[j]@ != label@,
        decreases choices.len() - i,
    {
        if choices[i] == *label {
            return Some(i);
        }
        i = i + 1;
    }
    None
}

impl Distribution {
    /// `true` if `value` lies inside this distribution's support.
    pub fn contains(&self, value: &Value) -> (r: bool)
        ensures
            r == contains_spec(*self, *value),
    {
        match (self, value) {
            (Distribution::Uniform { low, high }, Value::Float(x)) => low.le(*x) && x.le(*high),
            (Distribution::LogUniform { low, high }, Value::Float(x)) => low.le(*x) && x.le(
                *high,
            ),
            (Distribution::IntUniform { low, high }, Value::Int(x)) => *low <= *x && *x <= *high,
            (Distribution::Categorical { choices }, Value::Categorical(s)) => {
                position_of_label(choices, s).is_some()
            },
            _ => false,
        }
    }
}

} // verus!
