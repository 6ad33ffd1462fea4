//! Declarative reconciliation of a machine's user and group databases.
//!
//! The crate models the records of the `passwd`, `group` and `shadow`
//! databases, a line codec for them, an identifier allocator, and the
//! reconciliation engine that converges the on-disk records towards a
//! declarative specification while preserving identifiers and entities
//! that the specification does not own.

use vstd::prelude::*;

pub mod codec;
pub mod engine;
pub mod idalloc;
pub mod laws;
pub mod listfmt;
pub mod records;
pub mod strfmt;

verus! {

/// Why a reconciliation pass failed. Every failure is fatal to the
/// whole pass: nothing is applied.
#[derive(Clone, Copy, Debug, PartialEq, Eq)]
pub enum EngineError {
    /// A database line could not be parsed; `line` is its index.
    MalformedRecord { line: usize },
    /// The specification violates its schema, for instance a group
    /// member that names no known user.
    MalformedSpecification,
    /// Two entities claim the same explicit identifier or name.
    DuplicateIdentifier,
    /// No free identifier is left in the allocator's range.
    ExhaustedRange,
}

} // verus!
