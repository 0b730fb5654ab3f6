//! The driver of the synchronisation: it replays the state update of one
//! L1 log into the tries, checks the resulting global root against L1 and
//! against the sequencer, and records the new state.

use crate::deploy::{
    code_hashes, deploy_contracts, deploy_outcome, deployed_all, deployed_code_hashes,
};
use crate::error::{classify_retrieval, retrieval_error, RetrieveStateUpdateError, UpdateError};
use crate::felt::{felt_of, Felt};
use crate::replay::{consistent, expected_root, replayed, unhindered};
use crate::tables::{
    grown_from, lemma_grown_from_self, lemma_grown_from_trans, GlobalStateHistory, Savepoint,
    Storage,
};
use crate::trie::{lemma_resolve, resolve, shape_hash, HEIGHT, TrieError};
use crate::types::{
    Block, CodeHash, ContractUpdate, GlobalRoot, GlobalStateRecord, StarknetBlockHash, StateUpdate,
    StateUpdateLog,
};
use crate::witness::{check_l1_root, check_sequencer, recording, sequencer_check};
use vstd::prelude::*;

verus! {

/// The L1 log that a record of the history was made from.
pub open spec fn log_of(record: GlobalStateRecord) -> StateUpdateLog {
    StateUpdateLog {
        origin: record.origin,
        global_root: record.global_root,
        block_number: record.block_number,
    }
}

/// The driver's state between updates.
#[derive(Clone, Copy, Debug, PartialEq, Eq, Structural)]
pub struct StateDriver {
    /// The root of the global trie after the latest update.
    pub global_root: GlobalRoot,
    /// The log of the latest update, after which fetching from L1 resumes;
    /// `None` at genesis.
    pub cursor: Option<StateUpdateLog>,
}

/// The state that a driver starts in over a given history.
pub open spec fn driver_at(history: Seq<GlobalStateRecord>) -> StateDriver {
    if history.len() == 0 {
        StateDriver { global_root: felt_of(0), cursor: None }
    } else {
        StateDriver {
            global_root: history.last().global_root,
            cursor: Some(log_of(history.last())),
        }
    }
}

/// The code hashes of the deployed contracts after the deployments of a
/// state update.
pub open spec fn codes_after(storage: Storage, state_update: StateUpdate) -> Map<Felt, CodeHash> {
    deployed_code_hashes(code_hashes(storage.contracts@), state_update.deployed_contracts@)
}

/// Whether nothing stands in the way of a state update: every deployment
/// succeeds, the contract updates are replayable from what the store
/// holds, and no hashes clash.
pub open spec fn unobstructed(
    storage: Storage,
    root: GlobalRoot,
    state_update: StateUpdate,
    codes: Seq<Vec<[u8; 32]>>,
) -> bool {
    &&& deploy_outcome(
        storage.contracts@,
        state_update.deployed_contracts@,
        codes,
        state_update.deployed_contracts@.len(),
    ) is Ok
    &&& unhindered(
        storage,
        codes_after(storage, state_update),
        root,
        state_update.contract_updates@,
    )
}

/// The global root that a state update leads to from `root`.
pub open spec fn computed_root(
    storage: Storage,
    root: GlobalRoot,
    state_update: StateUpdate,
) -> GlobalRoot {
    expected_root(
        storage,
        codes_after(storage, state_update),
        root,
        state_update.contract_updates@,
    )
}

/// What a successful update leaves: the contracts deployed, the driver at
/// the root of the log, which the sequencer confirms, and the block at the
/// end of the history.
pub open spec fn updated(
    before: Storage,
    after: Storage,
    driver: StateDriver,
    log: StateUpdateLog,
    state_update: StateUpdate,
    codes: Seq<Vec<[u8; 32]>>,
    block: Block,
) -> bool {
    &&& deployed_all(before.contracts@, after.contracts@, state_update.deployed_contracts@, codes)
    &&& driver.global_root == log.global_root
    &&& driver.cursor == Some(log)
    &&& driver == driver_at(after.global_state@)
    &&& recording(before.global_state@, log, log.global_root, block) is Ok
    &&& after.global_state@ == before.global_state@.push(
        GlobalStateRecord {
            block_number: log.block_number,
            block_hash: sequencer_check(log, block)->Ok_0,
            global_root: log.global_root,
            origin: log.origin,
        },
    )
}

/// After a replay the committed root can be loaded again: the store has
/// the whole global trie under it, and the trie hashes to that very root.
pub proof fn lemma_committed_root_reloads(
    before: Storage,
    after: Storage,
    from: GlobalRoot,
    updates: Seq<ContractUpdate>,
    root: GlobalRoot,
)
    requires
        replayed(before, after, from, updates, root),
    ensures
        resolve(after.nodes@, root, HEIGHT as nat) is Some,
        shape_hash(resolve(after.nodes@, root, HEIGHT as nat)->0) == root,
{
    lemma_resolve(after.nodes@, root, HEIGHT as nat);
}

impl StateDriver {
    /// A driver that resumes after the latest record of the history, or
    /// starts at genesis with the empty trie if there is none.
    pub fn new(history: &GlobalStateHistory) -> (driver: StateDriver)
        ensures
            driver == driver_at(history@),
    {
        match history.latest() {
            None => StateDriver { global_root: Felt::zero(), cursor: None },
            Some(record) => StateDriver {
                global_root: record.global_root,
                cursor: Some(
                    StateUpdateLog {
                        origin: record.origin,
                        global_root: record.global_root,
                        block_number: record.block_number,
                    },
                ),
            },
        }
    }

    /// Replays a state update into the tries: deploys its contracts, each
    /// with the code at the same position of `codes`, then applies the
    /// storage writes contract by contract, and returns the root of the
    /// global trie that results.
    ///
    /// What is promised of the root holds where the storage is whole below
    /// the driver's global root; where, besides, nothing stands in the way
    /// of the state update, the root that it leads to is returned.
    pub fn apply_state_update(
        &self,
        storage: &mut Storage,
        state_update: &StateUpdate,
        codes: &Vec<Vec<[u8; 32]>>,
    ) -> (res: Result<GlobalRoot, UpdateError>)
        ensures
            grown_from(final(storage)@, old(storage)@),
            final(storage)@.global_state == old(storage)@.global_state,
            res is Ok ==> deployed_all(
                old(storage).contracts@,
                final(storage).contracts@,
                state_update.deployed_contracts@,
                codes@,
            ),
            consistent(*old(storage), self.global_root) ==> (match res {
                Ok(root) => replayed(
                    *old(storage),
                    *final(storage),
                    self.global_root,
                    state_update.contract_updates@,
                    root,
                ),
                Err(e) => e != UpdateError::Trie(TrieError::MissingNode) && e != UpdateError::Trie(
                    TrieError::MalformedNode,
                ),
            }),
            deploy_outcome(
                old(storage).contracts@,
                state_update.deployed_contracts@,
                codes@,
                state_update.deployed_contracts@.len(),
            ) matches Err(e) ==> res == Err::<GlobalRoot, UpdateError>(e),
            consistent(*old(storage), self.global_root) && unobstructed(
                *old(storage),
                self.global_root,
                *state_update,
                codes@,
            ) ==> res == Ok::<GlobalRoot, UpdateError>(
                computed_root(*old(storage), self.global_root, *state_update),
            ),
    {
        let ghost before = *storage;
        match deploy_contracts(&mut storage.contracts, &state_update.deployed_contracts, codes) {
            Ok(()) => {},
            Err(e) => {
                proof {
                    lemma_grown_from_self(before@);
                }
                return Err(e);
            },
        }
        let ghost middle = *storage;
        let res = self.update_contracts(storage, &state_update.contract_updates);
        proof {
            lemma_grown_from_self(before@);
            lemma_grown_from_trans(storage@, middle@, before@);
        }
        res
    }

    /// Checks the root computed for a block against L1 and against the
    /// sequencer, records the block in the history and moves the driver on
    /// to it. The first check that fails gives the error, and then nothing
    /// changes.
    pub fn record_block(
        &mut self,
        history: &mut GlobalStateHistory,
        log: &StateUpdateLog,
        computed: GlobalRoot,
        block: &Block,
    ) -> (res: Result<(), UpdateError>)
        ensures
            res == recording(old(history)@, *log, computed, *block),
            res is Err ==> final(history)@ == old(history)@ && *final(self) == *old(self),
            res is Ok ==> {
                &&& final(self).global_root == log.global_root
                &&& final(self).cursor == Some(*log)
                &&& final(history)@ == old(history)@.push(
                    GlobalStateRecord {
                        block_number: log.block_number,
                        block_hash: sequencer_check(*log, *block)->Ok_0,
                        global_root: log.global_root,
                        origin: log.origin,
                    },
                )
                &&& *final(self) == driver_at(final(history)@)
            },
    {
        match check_l1_root(computed, log) {
            Ok(()) => {},
            Err(e) => {
                return Err(e);
            },
        }
        let block_hash: StarknetBlockHash = match check_sequencer(log, block) {
            Ok(hash) => hash,
            Err(e) => {
                return Err(e);
            },
        };
        let record = GlobalStateRecord {
            block_number: log.block_number,
            block_hash,
            global_root: computed,
            origin: log.origin,
        };
        match history.insert(record) {
            Ok(()) => {},
            Err(e) => {
                return Err(UpdateError::Table(e));
            },
        }
        self.global_root = computed;
        self.cursor = Some(*log);
        Ok(())
    }

    /// The update without its rollback: on failure the storage may hold
    /// rows that the update has added.
    fn try_update(
        &mut self,
        storage: &mut Storage,
        log: &StateUpdateLog,
        state_update: &StateUpdate,
        codes: &Vec<Vec<[u8; 32]>>,
        block: &Block,
    ) -> (res: Result<(), UpdateError>)
        ensures
            grown_from(final(storage)@, old(storage)@),
            res is Err ==> *final(self) == *old(self),
            res is Ok ==> updated(
                *old(storage),
                *final(storage),
                *final(self),
                *log,
                *state_update,
                codes@,
                *block,
            ),
            consistent(*old(storage), old(self).global_root) ==> (match res {
                Ok(()) => replayed(
                    *old(storage),
                    *final(storage),
                    old(self).global_root,
                    state_update.contract_updates@,
                    log.global_root,
                ),
                Err(e) => e != UpdateError::Trie(TrieError::MissingNode) && e != UpdateError::Trie(
                    TrieError::MalformedNode,
                ),
            }),
            consistent(*old(storage), old(self).global_root) && unobstructed(
                *old(storage),
                old(self).global_root,
                *state_update,
                codes@,
            ) ==> res == recording(
                old(storage).global_state@,
                *log,
                computed_root(*old(storage), old(self).global_root, *state_update),
                *block,
            ),
    {
        let new_root: GlobalRoot = match self.apply_state_update(storage, state_update, codes) {
            Ok(root) => root,
            Err(e) => {
                return Err(e);
            },
        };
        let ghost before = *storage;
        let res = self.record_block(&mut storage.global_state, log, new_root, block);
        proof {
            assert(storage@.global_state.take(before@.global_state.len() as int)
                =~= before@.global_state);
            lemma_grown_from_self(before@);
            lemma_grown_from_trans(storage@, before@, old(storage)@);
        }
        res
    }

    /// Updates the state with the block that `log` witnesses, given what
    /// was gathered for it: the state update retrieved from L1, the code of
    /// each deployed contract and the sequencer's block. Either all of the
    /// update is made or none of it.
    ///
    /// A failed retrieval ends the update with the error that stands for
    /// it. A success moves the driver to the root of the log, which is then
    /// the root that the sequencer reports too, and appends the block to
    /// the history. Where the storage was whole below the driver's global
    /// root, a success also means that the root of the log is the root of
    /// the global trie with the contract updates replayed, and the storage
    /// is whole below it; and no failure is then due to a node that is
    /// missing or malformed. Where, besides, nothing stands in the way of
    /// the state update, the result is what checking and recording the
    /// block answers for the root that the state update leads to.
    pub fn update(
        &mut self,
        storage: &mut Storage,
        log: &StateUpdateLog,
        retrieved: &Result<StateUpdate, RetrieveStateUpdateError>,
        codes: &Vec<Vec<[u8; 32]>>,
        block: &Block,
    ) -> (res: Result<(), UpdateError>)
        ensures
            *retrieved matches Err(e) ==> res == Err::<(), UpdateError>(retrieval_error(e)),
            res is Err ==> final(storage)@ == old(storage)@ && *final(self) == *old(self),
            res is Ok ==> *retrieved is Ok && grown_from(final(storage)@, old(storage)@) && updated(
                *old(storage),
                *final(storage),
                *final(self),
                *log,
                (*retrieved)->Ok_0,
                codes@,
                *block,
            ),
            consistent(*old(storage), old(self).global_root) ==> (match res {
                Ok(()) => replayed(
                    *old(storage),
                    *final(storage),
                    old(self).global_root,
                    (*retrieved)->Ok_0.contract_updates@,
                    log.global_root,
                ),
                Err(e) => e != UpdateError::Trie(TrieError::MissingNode) && e != UpdateError::Trie(
                    TrieError::MalformedNode,
                ),
            }),
            *retrieved matches Ok(state_update) ==> (consistent(
                *old(storage),
                old(self).global_root,
            ) && unobstructed(*old(storage), old(self).global_root, state_update, codes@) ==> res
                == recording(
                old(storage).global_state@,
                *log,
                computed_root(*old(storage), old(self).global_root, state_update),
                *block,
            )),
    {
        let state_update: &StateUpdate = match retrieved {
            Ok(state_update) => state_update,
            Err(e) => {
                return Err(classify_retrieval(*e));
            },
        };
        let point: Savepoint = storage.savepoint();
        match self.try_update(storage, log, state_update, codes, block) {
            Ok(()) => Ok(()),
            Err(e) => {
                storage.rollback(point);
                Err(e)
            },
        }
    }
}

} // verus!
