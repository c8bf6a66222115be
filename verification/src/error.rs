//! The ways a run can fail.

use vstd::prelude::*;

verus! {

/// Why a run was aborted. Every failure is fatal for the run.
#[derive(Clone, Copy, Debug, PartialEq, Eq, Structural)]
pub enum Error {
    /// The byte source failed.
    ReadError,
    /// A record has no delimiter, or its reading holds a byte that is
    /// neither a digit, `-` nor `.`.
    MalformedRecord,
    /// A full block holds no newline: a record is longer than the block.
    OversizedRecord,
    /// A reading, a sum or a count does not fit its machine integer.
    Overflow,
}

} // verus!
