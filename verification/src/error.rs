//! The errors of the engine.

use vstd::prelude::*;

verus! {

/// The ways in which the engine refuses to continue.
#[derive(Clone, Copy, Debug, PartialEq, Eq, Structural)]
pub enum DbError {
    /// The pager has no page left to hand out under its page limit.
    TableFull,
    /// The backing image is not a whole number of pages, or a page does not
    /// decode to a node.
    CorruptFile,
    /// Reading or writing the backing file failed.
    IoFailure,
    /// The pages reached do not form a tree of the expected shape.
    InvariantViolation,
}

} // verus!
