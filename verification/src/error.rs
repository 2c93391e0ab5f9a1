//! Error and metadata types shared by studies, storage backends and the
//! distributed protocol.
use vstd::prelude::*;

use crate::value::Direction;

verus! {

/// Signalled by a user objective to describe how a trial ended.
///
/// Returning `Ok(value)` completes the trial; returning one of these marks it
/// `Pruned` or `Failed` without aborting the whole study.
#[derive(Debug)]
pub enum ObjectiveError {
    /// The trial was stopped early by a pruner.
    Pruned,
    /// The objective failed, with a description of the failure.
    Failed(String),
}

impl ObjectiveError {
    /// Convenience constructor for the pruned case.
    pub fn pruned() -> (r: ObjectiveError)
        ensures
            r is Pruned,
    {
        ObjectiveError::Pruned
    }
}

/// Persisted study-level metadata (everything about a study except its trials).
#[derive(Debug, Clone, PartialEq)]
pub struct StudyMetadata {
    pub study_name: String,
    pub direction: Direction,
}

/// Errors a storage backend can raise.
#[derive(Debug)]
pub enum StorageError {
    /// A study with the requested name was not found.
    StudyNotFound(String),
    /// Serialization/deserialization of a trial failed.
    Serialization(String),
    /// The backing store is at an incompatible schema version.
    SchemaMismatch { found: i64, expected: i64 },
    /// Any backend-specific I/O or driver error.
    Backend(String),
}

/// Errors raised by study operations (currently all storage-backed).
#[derive(Debug)]
pub enum HyperoptError {
    Storage(StorageError),
}

impl From<StorageError> for HyperoptError {
    fn from(e: StorageError) -> (r: HyperoptError) {
        HyperoptError::Storage(e)
    }
}

impl vstd::std_specs::convert::FromSpecImpl<StorageError> for HyperoptError {
    open spec fn obeys_from_spec() -> bool {
        true
    }

    open spec fn from_spec(e: StorageError) -> HyperoptError {
        HyperoptError::Storage(e)
    }
}

/// The direction a study runs under: an existing study's recorded direction
/// is authoritative (a resumed study cannot silently flip direction);
/// otherwise the requested one is used and must be recorded.
pub fn adopt_direction(existing: &Option<StudyMetadata>, requested: Direction) -> (r: (
    Direction,
    bool,
))
    ensures
        r.0 == (match *existing {
            Some(meta) => meta.direction,
            None => requested,
        }),
        r.1 == existing is None,
{
    match existing {
        Some(meta) => (meta.direction, false),
        None => (requested, true),
    }
}

} // verus!
