//! Failures of a connection.

use vstd::prelude::*;

verus! {

/// What can end a chain of operations on a connection.
#[derive(Debug)]
pub enum ClusterError {
    /// The transport failed to read, write or flush. The text is the
    /// transport's own account of the failure.
    Io(String),
    /// A byte arrived where a flag was expected, and no flag has that code.
    UnknownFlag,
}

} // verus!
