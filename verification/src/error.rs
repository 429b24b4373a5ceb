//! What can go wrong when a context is built or grown.

use vstd::prelude::*;

verus! {

/// The failures of building and growing a context. A name that is not found
/// is no failure: the queries answer it with `None`.
#[derive(Debug)]
pub enum ContextError {
    /// The source table cannot be read, or one of its rows is not as wide as
    /// its header. The text says which.
    MalformedInput(String),
    /// The incidence grid did not take a row.
    InternalInvariantViolation,
}

} // verus!
