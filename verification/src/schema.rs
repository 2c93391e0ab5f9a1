//! The decisions of the on-disk study database: which schema version a file
//! must carry, and how a study's direction is written down.
use vstd::prelude::*;

use crate::distributed::constant_time_eq;
use crate::error::StorageError;
use crate::value::Direction;

verus! {

/// On-disk storage format version. Bumped only on a breaking change to the
/// schema; a file written by another version is refused rather than misread.
pub const SCHEMA_VERSION: i64 = 1;

/// What opening a database does about the version it records (`None` when
/// it records none yet): `Ok(true)` when the current version is to be
/// recorded, `Ok(false)` when it already is, and an error for any other one.
pub fn schema_check(existing: Option<i64>) -> (r: Result<bool, StorageError>)
    ensures
        match existing {
            None => r == Ok::<bool, StorageError>(true),
            Some(v) => if v == SCHEMA_VERSION {
                r == Ok::<bool, StorageError>(false)
            } else {
                r matches Err(StorageError::SchemaMismatch { found, expected }) && found == v
                    && expected == SCHEMA_VERSION
            },
        },
{
    match existing {
        None => Ok(true),
        Some(v) => {
            if v != SCHEMA_VERSION {
                Err(StorageError::SchemaMismatch { found: v, expected: SCHEMA_VERSION })
            } else {
                Ok(false)
            }
        },
    }
}

/// The word a direction is stored as.
pub open spec fn direction_word(d: Direction) -> Seq<char> {
    match d {
        Direction::Minimize => "minimize"@,
        Direction::Maximize => "maximize"@,
    }
}

/// The word `d` is stored as.
pub fn direction_to_str(d: Direction) -> (r: &'static str)
    ensures
        r@ == direction_word(d),
{
    match d {
        Direction::Minimize => "minimize",
        Direction::Maximize => "maximize",
    }
}

/// The direction stored as `s`, if `s` is one of the two words.
pub fn parse_direction(s: &str) -> (r: Option<Direction>)
    ensures
        match r {
            Some(d) => direction_word(d) == s@,
            None => s@ != direction_word(Direction::Minimize) && s@ != direction_word(
                Direction::Maximize,
            ),
        },
{
    if constant_time_eq(s, "minimize") {
        Some(Direction::Minimize)
    } else if constant_time_eq(s, "maximize") {
        Some(Direction::Maximize)
    } else {
        None
    }
}

/// Reading back the word a direction was written as gives that direction.
pub proof fn lemma_direction_word_round_trip(d: Direction, e: Direction)
    ensures
        direction_word(d) == direction_word(e) <==> d == e,
{
    reveal_strlit("minimize");
    reveal_strlit("maximize");
    if d != e {
        assert(direction_word(d)[0] != direction_word(e)[0] || direction_word(d)[1] != direction_word(e)[1]);
    }
}

} // verus!
