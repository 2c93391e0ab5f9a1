//! The decisions of distributed execution. A coordinator owns one
//! authoritative study and hands out trial numbers, suggestions and pruning
//! verdicts; workers run the objective and round-trip every call. The network
//! itself (framing, TCP, TLS) lives with the transport; this module decides
//! what each side sends and what it makes of each reply.
use vstd::prelude::*;

use crate::error::StudyMetadata;
use crate::float::FloatBits;
use crate::protocol::{study_of, Request};
use crate::study_state::{best_index, StudyState};
use crate::trial::{is_fresh, Trial};
use crate::value::Direction;

verus! {

/// Constant-time equality of two tokens: every byte pair is compared, so the
/// check does not leak the secret through timing.
pub fn constant_time_eq(a: &str, b: &str) -> (r: bool)
    ensures
        r == (a@ == b@),
{
    let x = a.as_bytes();
    let y = b.as_bytes();
    proof {
        vstd::utf8::encode_utf8_decode_utf8(a@);
        vstd::utf8::encode_utf8_decode_utf8(b@);
    }
    if x.len() != y.len() {
        return false;
    }
    let mut diff: u8 = 0;
    let mut i: usize = 0;
    while i < x.len()
        invariant
            i <= x.len(),
            x.len() == y.len(),
            diff == 0 <==> forall|j: int| 0 <= j < i ==> x@[j] == y@[j],
        decreases x.len() - i,
    {
        let p = x[i];
        let q = y[i];
        let d = diff;
        assert((d | (p ^ q)) == 0 <==> (d == 0 && p == q)) by (bit_vector);
        diff = d | (p ^ q);
        i = i + 1;
    }
    proof {
        if diff == 0 {
            assert(x@ =~= y@);
        }
    }
    diff == 0
}

/// Index of the last trial of `trials` numbered `number`.
pub open spec fn last_numbered(trials: Seq<Trial>, number: usize) -> Option<int>
    decreases trials.len(),
{
    if trials.len() == 0 {
        None
    } else if trials.last().number == number {
        Some(trials.len() - 1)
    } else {
        last_numbered(trials.drop_last(), number)
    }
}

/// Why a coordinator refuses a request without serving it.
#[derive(Debug, Clone, Copy, PartialEq, Eq, Structural)]
pub enum Refusal {
    /// An `Auth` request presented the wrong token.
    AuthenticationFailed,
    /// A request other than `Auth` arrived before authentication.
    AuthenticationRequired,
    /// The request names a study this coordinator does not serve.
    UnknownStudy,
}

impl Refusal {
    /// The words an error answer for this refusal starts with.
    pub fn message(&self) -> (r: &'static str)
        ensures
            r@ == (match *self {
                Refusal::AuthenticationFailed => "authentication failed"@,
                Refusal::AuthenticationRequired => "authentication required"@,
                Refusal::UnknownStudy => "unknown study"@,
            }),
    {
        match self {
            Refusal::AuthenticationFailed => "authentication failed",
            Refusal::AuthenticationRequired => "authentication required",
            Refusal::UnknownStudy => "unknown study",
        }
    }
}

/// What a coordinator does with one request.
#[derive(Debug, Clone, Copy, PartialEq, Eq, Structural)]
pub enum Routing {
    /// Acknowledge a successful `Auth`.
    Acknowledge,
    /// Answer with an error.
    Refuse(Refusal),
    /// Serve the request against the study.
    Serve,
}

/// The authoritative owner of a distributed study: its name and direction,
/// the trial-number counter, and the optional shared secret.
#[derive(Debug)]
pub struct Coordinator {
    name: String,
    direction: Direction,
    counter: usize,
    token: Option<String>,
}

impl Coordinator {
    /// The study's name.
    pub closed spec fn name_spec(&self) -> Seq<char> {
        self.name@
    }

    /// The study's direction.
    pub closed spec fn direction_spec(&self) -> Direction {
        self.direction
    }

    /// The number the next trial gets.
    pub closed spec fn counter_spec(&self) -> usize {
        self.counter
    }

    /// The required token, if any.
    pub closed spec fn token_spec(&self) -> Option<Seq<char>> {
        match self.token {
            Some(t) => Some(t@),
            None => None,
        }
    }

    /// A coordinator for study `name`, given what storage holds about it: an
    /// existing study's recorded direction is adopted and its metadata left
    /// as it is; otherwise `direction` is used, and the metadata to persist
    /// right away is returned alongside. Trial numbering continues past the
    /// `existing_trials` already stored.
    pub fn new(
        name: &str,
        direction: Direction,
        existing: &Option<StudyMetadata>,
        existing_trials: usize,
    ) -> (r: (Coordinator, Option<StudyMetadata>))
        ensures
            r.0.name_spec() == name@,
            r.0.direction_spec() == (match *existing {
                Some(meta) => meta.direction,
                None => direction,
            }),
            r.0.counter_spec() == existing_trials,
            r.0.token_spec() is None,
            match *existing {
                Some(_) => r.1 is None,
                None => r.1 matches Some(meta) && meta.study_name@ == name@ && meta.direction
                    == direction,
            },
    {
        match existing {
            Some(meta) => (
                Coordinator {
                    name: name.to_owned(),
                    direction: meta.direction,
                    counter: existing_trials,
                    token: None,
                },
                None,
            ),
            None => (
                Coordinator { name: name.to_owned(), direction, counter: existing_trials, token: None },
                Some(StudyMetadata { study_name: name.to_owned(), direction }),
            ),
        }
    }

    /// Requires workers to present `token` before any request is served.
    pub fn require_token(self, token: &str) -> (r: Coordinator)
        ensures
            r.name_spec() == self.name_spec(),
            r.direction_spec() == self.direction_spec(),
            r.counter_spec() == self.counter_spec(),
            r.token_spec() == Some(token@),
    {
        Coordinator { token: Some(token.to_owned()), ..self }
    }

    /// The study's name.
    pub fn name(&self) -> (r: &str)
        ensures
            r@ == self.name_spec(),
    {
        self.name.as_str()
    }

    /// The study's direction.
    pub fn direction(&self) -> (r: Direction)
        ensures
            r == self.direction_spec(),
    {
        self.direction
    }

    /// A connection starts authenticated exactly when no token is required.
    pub fn starts_authenticated(&self) -> (r: bool)
        ensures
            r == self.token_spec() is None,
    {
        self.token.is_none()
    }

    /// How `req` is routed on a connection authenticated or not (`authed`),
    /// and whether the connection is authenticated afterwards.
    pub open spec fn route_spec(&self, req: Request, authed: bool) -> (Routing, bool) {
        match req {
            Request::Auth { token } => match self.token_spec() {
                Some(expected) => if token@ == expected {
                    (Routing::Acknowledge, true)
                } else {
                    (Routing::Refuse(Refusal::AuthenticationFailed), authed)
                },
                None => (Routing::Acknowledge, true),
            },
            _ => if !authed {
                (Routing::Refuse(Refusal::AuthenticationRequired), authed)
            } else if study_of(req) != self.name_spec() {
                (Routing::Refuse(Refusal::UnknownStudy), authed)
            } else {
                (Routing::Serve, authed)
            },
        }
    }

    /// How a request is routed, and whether the connection is authenticated
    /// afterwards. `Auth` is answered here (a no-op success when no token is
    /// configured); every other request is refused until the connection is
    /// authenticated, then refused if it names another study, and otherwise
    /// served.
    pub fn handle_authed(&self, req: &Request, authed: bool) -> (r: (Routing, bool))
        ensures
            r == self.route_spec(*req, authed),
    {
        match req {
            Request::Auth { token } => {
                match &self.token {
                    Some(expected) => {
                        if constant_time_eq(token.as_str(), expected.as_str()) {
                            (Routing::Acknowledge, true)
                        } else {
                            (Routing::Refuse(Refusal::AuthenticationFailed), authed)
                        }
                    },
                    None => (Routing::Acknowledge, true),
                }
            },
            _ => {
                if !authed {
                    return (Routing::Refuse(Refusal::AuthenticationRequired), authed);
                }
                let requested = req.study_name();
                if !constant_time_eq(requested, self.name.as_str()) {
                    return (Routing::Refuse(Refusal::UnknownStudy), authed);
                }
                (Routing::Serve, authed)
            },
        }
    }

    /// Allocates the next trial number (the counter wraps like an atomic
    /// `fetch_add`) and returns the fresh `Running` trial to record.
    pub fn new_trial(&mut self) -> (r: Trial)
        ensures
            is_fresh(r, old(self).counter_spec()),
            final(self).counter_spec() == (if old(self).counter_spec() == usize::MAX {
                0
            } else {
                old(self).counter_spec() + 1
            }),
            final(self).name_spec() == old(self).name_spec(),
            final(self).direction_spec() == old(self).direction_spec(),
            final(self).token_spec() == old(self).token_spec(),
    {
        let number = self.counter;
        self.counter = if number == usize::MAX {
            0
        } else {
            number + 1
        };
        Trial::new(number)
    }

    /// The best objective value among the study's `trials`: that of its best
    /// completed trial, if any completed.
    pub fn best_value(&self, trials: Vec<Trial>) -> (r: Option<FloatBits>)
        ensures
            r == (match best_index(trials@, self.direction_spec()) {
                Some(i) => trials@[i].value,
                None => None,
            }),
    {
        let state = StudyState::new(self.direction, trials);
        match state.best_trial() {
            Some(t) => t.value,
            None => None,
        }
    }

    /// Splits the loaded study into the history the sampler and pruner see
    /// (every trial but `number`, in order) and the in-flight trial `number`
    /// (the last one stored under that number, or a fresh trial).
    pub fn partition(&self, all: Vec<Trial>, number: usize) -> (r: (StudyState, Trial))
        ensures
            r.0.direction_spec() == self.direction_spec(),
            r.0.trials_spec() == all@.filter(|t: Trial| t.number != number),
            match last_numbered(all@, number) {
                Some(i) => r.1 == all@[i],
                None => is_fresh(r.1, number),
            },
    {
        let ghost whole = all@;
        let mut current: Option<Trial> = None;
        let mut rest: Vec<Trial> = Vec::new();
        for t in it: all
            invariant
                it.seq() == whole,
                rest@ == whole.take(it.index() as int).filter(|t: Trial| t.number != number),
                current == (match last_numbered(whole.take(it.index() as int), number) {
                    Some(i) => Some(whole[i]),
                    None => None,
                }),
        {
            proof {
                reveal_with_fuel(Seq::<_>::filter, 1);
                assert(whole.take(it.index() + 1).drop_last() =~= whole.take(it.index() as int));
            }
            if t.number == number {
                current = Some(t);
            } else {
                rest.push(t);
            }
        }
        proof {
            assert(whole.take(whole.len() as int) =~= whole);
        }
        let current = match current {
            Some(t) => t,
            None => Trial::new(number),
        };
        (StudyState::new(self.direction, rest), current)
    }
}

} // verus!
