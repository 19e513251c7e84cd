//! What a storage engine says when it is asked to write a row, and what that
//! means for the operation that asked.
//!
//! The engine keeps the catalog on disk and enforces the primary keys of its
//! two tables. Talking to it is the caller's part; the caller hands its
//! answer over as an [`EngineReply`].

use crate::catalog::{InsertOutcome, StoreError};
use vstd::prelude::*;

verus! {

/// What a storage engine answered when it was asked to write one row.
#[derive(Clone, Copy, Debug, PartialEq, Eq, Structural)]
pub enum EngineReply {
    /// The row was written.
    Done,
    /// The engine refused the row and gave its extended result code.
    Refused { extended_code: i32 },
    /// The engine failed without a result code of its own.
    Failed,
}

/// The extended result code by which the engine reports that a row's primary
/// key is taken.
pub const PRIMARY_KEY_TAKEN: i32 = 1555;

/// What an engine's reply means: a taken primary key is a conflict, any other
/// refusal or failure is fatal.
pub open spec fn meaning_of(reply: EngineReply) -> Result<InsertOutcome, StoreError> {
    match reply {
        EngineReply::Done => Ok(InsertOutcome::Inserted),
        EngineReply::Refused { extended_code } => if extended_code == PRIMARY_KEY_TAKEN {
            Ok(InsertOutcome::AlreadyExists)
        } else {
            Err(StoreError::EngineFailure)
        },
        EngineReply::Failed => Err(StoreError::EngineFailure),
    }
}

/// Tells a uniqueness conflict from a fatal failure in what a storage engine
/// answered.
pub fn settle(reply: EngineReply) -> (outcome: Result<InsertOutcome, StoreError>)
    ensures
        outcome == meaning_of(reply),
{
    match reply {
        EngineReply::Done => Ok(InsertOutcome::Inserted),
        EngineReply::Refused { extended_code } => {
            if extended_code == PRIMARY_KEY_TAKEN {
                Ok(InsertOutcome::AlreadyExists)
            } else {
                Err(StoreError::EngineFailure)
            }
        },
        EngineReply::Failed => Err(StoreError::EngineFailure),
    }
}

} // verus!
