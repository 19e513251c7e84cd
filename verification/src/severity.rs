//! How loud a report is.

use vstd::prelude::*;

verus! {

/// The severity at which a line of a report is to be emitted: routine
/// progress is `Info`, a benign conflict is a `Warning`, and what points to a
/// problem is an `Error`.
#[derive(Clone, Copy, Debug, PartialEq, Eq, Structural)]
pub enum Severity {
    Info,
    Warning,
    Error,
}

} // verus!
