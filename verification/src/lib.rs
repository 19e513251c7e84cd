//! Per-host catalogs of file content: a CRC-32C content hasher, the catalog
//! data model, and the three operations built on them.
//!
//! The library works on plain values. Walking directories, reading files and
//! keeping a catalog on disk are the caller's part: the caller hands over
//! what it read, and writes down what the library decided.

pub mod catalog;
pub mod comparator;
pub mod engine;
pub mod hasher;
pub mod indexer;
pub mod integrity;
pub mod laws;
pub mod options;
pub mod severity;
pub mod walk;

pub use crate::comparator::compare;
pub use crate::hasher::hash;
pub use crate::indexer::index;
pub use crate::integrity::check_integrity;
pub use crate::options::{CheckIntegrityOptions, CompareOptions, IndexOptions, SubCommand, CLI};
