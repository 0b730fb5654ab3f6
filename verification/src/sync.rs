//! The synchronisation loop: what follows a fetch and an update, and the
//! run over a batch of logs, one atomic update after the other.

use crate::driver::{computed_root, unobstructed, StateDriver};
use crate::error::{retrieval_error, FetchError, RetrieveStateUpdateError, UpdateError};
use crate::replay::consistent;
use crate::tables::{grown_from, lemma_grown_from_self, lemma_grown_from_trans, Storage};
use crate::types::{Block, GlobalStateRecord, StateUpdate, StateUpdateLog};
use crate::witness::{recording, sequencer_check};
use vstd::prelude::*;

verus! {

/// What the driver does next.
#[derive(Clone, Copy, Debug, PartialEq, Eq, Structural)]
pub enum SyncAction {
    /// L1 has no further logs: the synchronisation is done for now.
    Finish,
    /// Apply the logs fetched, or go on with the next one.
    Proceed,
    /// Run the reorg protocol, then fetch again.
    Reorganise,
    /// Give up and report the error.
    Abort,
}

/// What follows a fetch of logs from L1.
pub fn after_fetch(fetched: &Result<Vec<StateUpdateLog>, FetchError>) -> (action: SyncAction)
    ensures
        action == match *fetched {
            Ok(logs) => if logs@.len() == 0 {
                SyncAction::Finish
            } else {
                SyncAction::Proceed
            },
            Err(FetchError::Reorg) => SyncAction::Reorganise,
            Err(FetchError::Other) => SyncAction::Abort,
        },
{
    match fetched {
        Ok(logs) => if logs.len() == 0 {
            SyncAction::Finish
        } else {
            SyncAction::Proceed
        },
        Err(FetchError::Reorg) => SyncAction::Reorganise,
        Err(FetchError::Other) => SyncAction::Abort,
    }
}

/// What follows an update: after a success the transaction is committed
/// and the next log is taken; a reorg is handled; every other error ends
/// the synchronisation.
pub fn after_update(result: &Result<(), UpdateError>) -> (action: SyncAction)
    ensures
        action == match *result {
            Ok(()) => SyncAction::Proceed,
            Err(UpdateError::Reorg) => SyncAction::Reorganise,
            Err(_) => SyncAction::Abort,
        },
{
    match result {
        Ok(()) => SyncAction::Proceed,
        Err(UpdateError::Reorg) => SyncAction::Reorganise,
        Err(_) => SyncAction::Abort,
    }
}

/// What was gathered for the update of one log: the state update retrieved
/// from L1, the code of each contract that it deploys, and the sequencer's
/// block.
pub struct Gathered {
    pub log: StateUpdateLog,
    pub retrieved: Result<StateUpdate, RetrieveStateUpdateError>,
    pub codes: Vec<Vec<[u8; 32]>>,
    pub block: Block,
}

/// How a run over a batch of logs ended.
#[derive(Clone, Copy, Debug, PartialEq, Eq, Structural)]
pub struct SyncReport {
    /// How many logs of the batch were applied.
    pub applied: usize,
    /// What the driver does next.
    pub action: SyncAction,
    /// The error of the update that ended the run early.
    pub error: Option<UpdateError>,
}

/// The record that the history gets for a log whose update succeeded.
pub open spec fn record_of(gathered: Gathered) -> GlobalStateRecord {
    GlobalStateRecord {
        block_number: gathered.log.block_number,
        block_hash: sequencer_check(gathered.log, gathered.block)->Ok_0,
        global_root: gathered.log.global_root,
        origin: gathered.log.origin,
    }
}

/// The driver after the first `applied` logs of a batch.
pub open spec fn driver_after(start: StateDriver, batch: Seq<Gathered>, applied: int) -> StateDriver {
    if applied == 0 {
        start
    } else {
        StateDriver {
            global_root: batch[applied - 1].log.global_root,
            cursor: Some(batch[applied - 1].log),
        }
    }
}

/// Whether nothing stands in the way of the state update of the first log
/// of a batch: it was retrieved, the storage is whole below the driver's
/// global root, every deployment succeeds, the contract updates are
/// replayable and no hashes clash.
pub open spec fn unobstructed_first(storage: Storage, driver: StateDriver, first: Gathered) -> bool {
    &&& first.retrieved is Ok
    &&& consistent(storage, driver.global_root)
    &&& unobstructed(storage, driver.global_root, first.retrieved->Ok_0, first.codes@)
}

/// What the update of the first log of a batch answers where nothing
/// stands in the way of its state update: what checking and recording the
/// block answers for the root that the state update leads to.
pub open spec fn first_outcome(storage: Storage, driver: StateDriver, first: Gathered) -> Result<
    (),
    UpdateError,
> {
    recording(
        storage.global_state@,
        first.log,
        computed_root(storage, driver.global_root, first.retrieved->Ok_0),
        first.block,
    )
}

impl StateDriver {
    /// Syncs the state with a batch of logs fetched from L1, given what was
    /// gathered for each. The logs are applied in order, each as one atomic
    /// update. An empty batch ends the synchronisation; a batch applied in
    /// full asks for the next one; the first update that fails ends the run,
    /// with the blocks before it kept and nothing of its own left behind.
    pub fn sync(&mut self, storage: &mut Storage, batch: &Vec<Gathered>) -> (report: SyncReport)
        ensures
            report.applied <= batch@.len(),
            report.action == (if batch@.len() == 0 {
                SyncAction::Finish
            } else {
                match report.error {
                    None => SyncAction::Proceed,
                    Some(UpdateError::Reorg) => SyncAction::Reorganise,
                    Some(_) => SyncAction::Abort,
                }
            }),
            report.error is None <==> report.applied == batch@.len(),
            grown_from(final(storage)@, old(storage)@),
            final(storage)@.global_state.len() == old(storage)@.global_state.len() + report.applied,
            forall|i: int|
                0 <= i < report.applied ==> final(storage)@.global_state[old(storage)@.global_state.len()
                    + i] == record_of(#[trigger] batch@[i]),
            *final(self) == driver_after(*old(self), batch@, report.applied as int),
            consistent(*old(storage), old(self).global_root) ==> consistent(
                *final(storage),
                final(self).global_root,
            ),
            forall|i: int|
                0 <= i < report.applied ==> (#[trigger] batch@[i]).retrieved is Ok && sequencer_check(
                    batch@[i].log,
                    batch@[i].block,
                ) is Ok,
            report.applied < batch@.len() ==> (batch@[report.applied as int].retrieved matches Err(e)
                ==> report.error == Some(retrieval_error(e))),
            batch@.len() > 0 && unobstructed_first(*old(storage), *old(self), batch@[0])
                ==> first_outcome(*old(storage), *old(self), batch@[0]) == (if report.applied == 0 {
                Err::<(), UpdateError>(report.error->0)
            } else {
                Ok::<(), UpdateError>(())
            }),
    {
        proof {
            lemma_grown_from_self(storage@);
        }
        if batch.len() == 0 {
            return SyncReport { applied: 0, action: SyncAction::Finish, error: None };
        }
        let ghost start = storage@.global_state.len();
        // The first log is applied to the storage as it was handed in.
        let first: &Gathered = &batch[0];
        let result = self.update(storage, &first.log, &first.retrieved, &first.codes, &first.block);
        proof {
            old(storage).nodes.lemma_view();
            storage.nodes.lemma_view();
        }
        match after_update(&result) {
            SyncAction::Proceed => {},
            action => {
                return SyncReport { applied: 0, action, error: result.err() };
            },
        }
        let mut i: usize = 1;
        while i < batch.len()
            invariant
                1 <= i <= batch@.len(),
                start == old(storage)@.global_state.len(),
                grown_from(storage@, old(storage)@),
                storage@.global_state.len() == start + i,
                forall|k: int|
                    0 <= k < i ==> storage@.global_state[start + k] == record_of(
                        #[trigger] batch@[k],
                    ),
                *self == driver_after(*old(self), batch@, i as int),
                consistent(*old(storage), old(self).global_root) ==> consistent(
                    *storage,
                    self.global_root,
                ),
                forall|k: int|
                    0 <= k < i ==> (#[trigger] batch@[k]).retrieved is Ok && sequencer_check(
                        batch@[k].log,
                        batch@[k].block,
                    ) is Ok,
                unobstructed_first(*old(storage), *old(self), batch@[0]) ==> first_outcome(
                    *old(storage),
                    *old(self),
                    batch@[0],
                ) is Ok,
            decreases batch@.len() - i,
        {
            let ghost before = *storage;
            let gathered: &Gathered = &batch[i];
            let result = self.update(
                storage,
                &gathered.log,
                &gathered.retrieved,
                &gathered.codes,
                &gathered.block,
            );
            proof {
                lemma_grown_from_self(before@);
                lemma_grown_from_trans(storage@, before@, old(storage)@);
                before.nodes.lemma_view();
                storage.nodes.lemma_view();
            }
            match after_update(&result) {
                SyncAction::Proceed => {
                    proof {
                        assert forall|k: int| 0 <= k < i + 1 implies storage@.global_state[start
                            + k] == record_of(#[trigger] batch@[k]) by {
                            if k < i {
                                assert(storage@.global_state.take(
                                    before@.global_state.len() as int,
                                )[start + k] == before@.global_state[start + k]);
                            }
                        }
                    }
                },
                action => {
                    return SyncReport { applied: i, action, error: result.err() };
                },
            }
            i += 1;
        }
        SyncReport { applied: i, action: SyncAction::Proceed, error: None }
    }
}

} // verus!
