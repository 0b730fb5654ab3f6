//! The cross-checks: the root computed for a block against the root that
//! L1 witnesses and against what the sequencer reports.

use crate::error::UpdateError;
use crate::felt::{be_value, modulus, Felt};
use crate::tables::TableError;
use crate::types::{Block, GlobalRoot, GlobalStateRecord, StarknetBlockHash, StateUpdateLog};
use vstd::prelude::*;

verus! {

/// The cross-check against L1: the root computed must be the root that the
/// log witnesses.
pub fn check_l1_root(computed: GlobalRoot, log: &StateUpdateLog) -> (res: Result<(), UpdateError>)
    ensures
        res == if computed == log.global_root {
            Ok::<(), UpdateError>(())
        } else {
            Err::<(), UpdateError>(
                UpdateError::L1RootMismatch { expected: log.global_root, computed },
            )
        },
{
    if computed == log.global_root {
        Ok(())
    } else {
        Err(UpdateError::L1RootMismatch { expected: log.global_root, computed })
    }
}

/// What the cross-check against the sequencer answers: the block hash, or
/// the first thing that is wrong with the block.
pub open spec fn sequencer_check(log: StateUpdateLog, block: Block) -> Result<
    StarknetBlockHash,
    UpdateError,
> {
    if be_value(block.state_root@) >= modulus() {
        Err(UpdateError::SequencerRootInvalid)
    } else if Felt::decode(block.state_root@) != log.global_root {
        Err(
            UpdateError::SequencerRootMismatch {
                expected: log.global_root,
                reported: Felt::decode(block.state_root@),
            },
        )
    } else {
        match block.block_hash {
            None => Err(UpdateError::BlockHashMissing),
            Some(hash) => if be_value(hash@) >= modulus() {
                Err(UpdateError::BlockHashInvalid)
            } else {
                Ok(Felt::decode(hash@))
            },
        }
    }
}

/// The cross-check against the sequencer: its state root for the block must
/// be the root that the log witnesses, and it must give a block hash.
pub fn check_sequencer(log: &StateUpdateLog, block: &Block) -> (res: Result<
    StarknetBlockHash,
    UpdateError,
>)
    ensures
        res == sequencer_check(*log, *block),
{
    let block_root: Felt = match Felt::from_be_bytes(block.state_root) {
        Ok(root) => root,
        Err(_) => {
            return Err(UpdateError::SequencerRootInvalid);
        },
    };
    if block_root != log.global_root {
        return Err(
            UpdateError::SequencerRootMismatch { expected: log.global_root, reported: block_root },
        );
    }
    let bytes: [u8; 32] = match block.block_hash {
        Some(bytes) => bytes,
        None => {
            return Err(UpdateError::BlockHashMissing);
        },
    };
    match Felt::from_be_bytes(bytes) {
        Ok(hash) => Ok(hash),
        Err(_) => Err(UpdateError::BlockHashInvalid),
    }
}

/// What checking and recording a block answers: the first failure among
/// the check against L1, the check against the sequencer and the order of
/// block numbers in the history.
pub open spec fn recording(
    history: Seq<GlobalStateRecord>,
    log: StateUpdateLog,
    computed: GlobalRoot,
    block: Block,
) -> Result<(), UpdateError> {
    if computed != log.global_root {
        Err(UpdateError::L1RootMismatch { expected: log.global_root, computed })
    } else {
        match sequencer_check(log, block) {
            Err(e) => Err(e),
            Ok(_) => if history.len() > 0 && log.block_number <= history.last().block_number {
                Err(UpdateError::Table(TableError::BlockOutOfOrder))
            } else {
                Ok(())
            },
        }
    }
}

} // verus!
