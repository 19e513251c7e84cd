//! What the three operations are asked to do: the host label and the places on
//! disk. The library reads the label; the locations are carried through for
//! whoever opens them.

use std::path::PathBuf;
use vstd::prelude::*;

verus! {

/// `std::path::PathBuf`, as a value that is carried through: nothing is
/// claimed of it, and no verified function looks into it.
#[verifier::external_type_specification]
#[verifier::external_body]
pub struct ExPathBuf(PathBuf);

/// Build or extend the catalog at `db` for host `label` from the tree at `path`.
#[derive(Debug)]
pub struct IndexOptions {
    /// The host that the files are recorded for.
    pub label: String,
    /// Where the catalog is kept.
    pub db: PathBuf,
    /// The root of the tree to index.
    pub path: PathBuf,
}

/// Verify every file that the catalog at `db` records for host `label`.
#[derive(Debug)]
pub struct CheckIntegrityOptions {
    /// The host whose files are verified.
    pub label: String,
    /// Where the catalog is kept.
    pub db: PathBuf,
}

/// Check that every content identity of the catalog at `db1` is in the one at
/// `db2`.
#[derive(Debug)]
pub struct CompareOptions {
    /// The catalog whose identities are looked for.
    pub db1: PathBuf,
    /// The catalog in which they are looked for.
    pub db2: PathBuf,
}

/// One of the three operations, with its options.
#[derive(Debug)]
pub enum SubCommand {
    Index(IndexOptions),
    CheckIntegrity(CheckIntegrityOptions),
    Compare(CompareOptions),
}

/// A parsed command line.
#[derive(Debug)]
pub struct CLI {
    pub cmd: SubCommand,
}

} // verus!
