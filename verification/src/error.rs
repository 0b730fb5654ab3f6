//! Why fetching, retrieving and updating fail.

use crate::felt::Felt;
use crate::tables::TableError;
use crate::trie::TrieError;
use vstd::prelude::*;

verus! {

/// Why the state update of a log could not be retrieved from L1.
#[derive(Clone, Copy, Debug, PartialEq, Eq, Structural)]
pub enum RetrieveStateUpdateError {
    /// What the log refers to is no longer on the canonical chain.
    NotFound,
    /// L1 reported a reorganisation.
    Reorg,
    /// Anything else.
    Other,
}

/// Why the logs could not be fetched from L1.
#[derive(Clone, Copy, Debug, PartialEq, Eq, Structural)]
pub enum FetchError {
    /// L1 reported a reorganisation.
    Reorg,
    /// Anything else.
    Other,
}

/// Why an update was not made.
#[derive(Clone, Copy, Debug, PartialEq, Eq, Structural)]
pub enum UpdateError {
    /// The L1 history changed under the log.
    Reorg,
    /// The state update could not be retrieved.
    RetrievalFailed,
    /// No code was supplied for a deployed contract.
    CodeMissing,
    /// The address is deployed with another code hash or other code.
    ContractMismatch,
    /// A trie could not be read or written.
    Trie(TrieError),
    /// Storage is written for an address that is not deployed.
    ContractHashMissing,
    /// A table refused a row.
    Table(TableError),
    /// The root computed differs from the root that the L1 log witnesses.
    L1RootMismatch { expected: Felt, computed: Felt },
    /// The sequencer's state root is no field element.
    SequencerRootInvalid,
    /// The sequencer's state root differs from the root that the L1 log
    /// witnesses.
    SequencerRootMismatch { expected: Felt, reported: Felt },
    /// The sequencer gave no block hash.
    BlockHashMissing,
    /// The sequencer's block hash is no field element.
    BlockHashInvalid,
}

/// The error that an update ends with when the state update could not be
/// retrieved. Only `Other` is a failure of its own; every other error
/// means that the log has left the canonical chain.
pub open spec fn retrieval_error(e: RetrieveStateUpdateError) -> UpdateError {
    match e {
        RetrieveStateUpdateError::Other => UpdateError::RetrievalFailed,
        _ => UpdateError::Reorg,
    }
}

/// Turns a failed retrieval into the error that the update ends with.
pub fn classify_retrieval(e: RetrieveStateUpdateError) -> (error: UpdateError)
    ensures
        error == retrieval_error(e),
{
    match e {
        RetrieveStateUpdateError::Other => UpdateError::RetrievalFailed,
        _ => UpdateError::Reorg,
    }
}

} // verus!
