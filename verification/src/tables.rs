//! The state tables: the history of global states, the preimages of
//! contract state hashes and the deployed contracts, with the node store
//! beside them.

use crate::felt::Felt;
use crate::felt_map::{lemma_extends, lemma_log_map_entry, log_map, FeltMap};
use crate::hash::{calculate_contract_state_hash, contract_state_hash_spec};
use crate::node::{NodeStore, TrieNode};
use crate::types::{
    BlockNumber, CodeHash, ContractAddress, ContractRecord, ContractStateHash, GlobalStateRecord,
    Preimage, StorageRoot,
};
use vstd::prelude::*;

verus! {

/// Why a table refused a row.
#[derive(Clone, Copy, Debug, PartialEq, Eq, Structural)]
pub enum TableError {
    /// The contract state hash is not the hash of the preimage given.
    PreimageMismatch,
    /// The contract state hash is stored with another preimage.
    PreimageConflict,
    /// The address is deployed already.
    ContractExists,
    /// The block number is not above that of the latest record.
    BlockOutOfOrder,
}

/// Whether every key of the log is the contract state hash of its row.
pub open spec fn preimages_hash(log: Seq<(Felt, Preimage)>) -> bool {
    forall|i: int|
        0 <= i < log.len() ==> (#[trigger] log[i]).0 == contract_state_hash_spec(
            log[i].1.code_hash,
            log[i].1.storage_root,
        )
}

/// Contract state hashes with the code hash and storage root that they
/// commit to.
pub struct ContractsStatePreimage {
    states: FeltMap<Preimage>,
}

impl View for ContractsStatePreimage {
    type V = Map<Felt, Preimage>;

    open spec fn view(&self) -> Map<Felt, Preimage> {
        log_map(self.log())
    }
}

impl ContractsStatePreimage {
    #[verifier::type_invariant]
    spec fn hashed(self) -> bool {
        preimages_hash(self.states.log())
    }

    /// The rows in the order of their arrival.
    pub closed spec fn log(&self) -> Seq<(Felt, Preimage)> {
        self.states.log()
    }

    /// The empty table.
    pub fn new() -> (table: ContractsStatePreimage)
        ensures
            table.log() == Seq::<(Felt, Preimage)>::empty(),
    {
        ContractsStatePreimage { states: FeltMap::new() }
    }

    /// The number of rows.
    pub fn len(&self) -> (n: usize)
        ensures
            n == self.log().len(),
    {
        self.states.len()
    }

    /// The row at position `index` in the order of arrival. Every row holds
    /// a preimage under the state hash that it hashes to.
    pub fn entry(&self, index: usize) -> (e: Option<(Felt, Preimage)>)
        ensures
            e == if index < self.log().len() {
                Some(self.log()[index as int])
            } else {
                None
            },
            e matches Some(row) ==> row.0 == contract_state_hash_spec(
                row.1.code_hash,
                row.1.storage_root,
            ),
    {
        proof {
            use_type_invariant(self);
        }
        match self.states.entry(index) {
            Some(e) => Some(*e),
            None => None,
        }
    }

    /// The preimage stored for a contract state hash. What is stored always
    /// hashes to the key it is stored under.
    pub fn get(&self, state_hash: ContractStateHash) -> (found: Option<Preimage>)
        ensures
            found == if self@.contains_key(state_hash) {
                Some(self@[state_hash])
            } else {
                None
            },
            found matches Some(p) ==> state_hash == contract_state_hash_spec(
                p.code_hash,
                p.storage_root,
            ),
    {
        proof {
            use_type_invariant(self);
            if self@.contains_key(state_hash) {
                lemma_log_map_entry(self.log(), state_hash);
            }
        }
        match self.states.get(state_hash) {
            Some(p) => Some(*p),
            None => None,
        }
    }

    /// The storage root stored for a contract state hash.
    pub fn get_root(&self, state_hash: ContractStateHash) -> (root: Option<StorageRoot>)
        ensures
            root == if self@.contains_key(state_hash) {
                Some(self@[state_hash].storage_root)
            } else {
                None
            },
    {
        match self.get(state_hash) {
            Some(p) => Some(p.storage_root),
            None => None,
        }
    }

    /// Stores the preimage of a contract state hash. Storing what is stored
    /// already changes nothing; a hash that is not that of the preimage, or
    /// that is stored with another preimage, is refused.
    pub fn insert(
        &mut self,
        state_hash: ContractStateHash,
        code_hash: CodeHash,
        storage_root: StorageRoot,
    ) -> (res: Result<(), TableError>)
        ensures
            res == insert_outcome(old(self)@, state_hash, Preimage { code_hash, storage_root }),
            final(self).log() == if res is Ok && !old(self)@.contains_key(state_hash) {
                old(self).log().push((state_hash, Preimage { code_hash, storage_root }))
            } else {
                old(self).log()
            },
    {
        proof {
            use_type_invariant(&*self);
        }
        let preimage = Preimage { code_hash, storage_root };
        if calculate_contract_state_hash(code_hash, storage_root) != state_hash {
            return Err(TableError::PreimageMismatch);
        }
        match self.states.get(state_hash) {
            Some(held) => {
                if *held == preimage {
                    Ok(())
                } else {
                    Err(TableError::PreimageConflict)
                }
            },
            None => {
                let mut states: FeltMap<Preimage> = FeltMap::new();
                core::mem::swap(&mut states, &mut self.states);
                states.insert(state_hash, preimage);
                core::mem::swap(&mut states, &mut self.states);
                Ok(())
            },
        }
    }

    /// Forgets every row that arrived after the first `len`.
    pub fn rewind(&mut self, len: usize)
        ensures
            final(self).log() == if len <= old(self).log().len() {
                old(self).log().take(len as int)
            } else {
                old(self).log()
            },
    {
        proof {
            use_type_invariant(&*self);
        }
        let mut states: FeltMap<Preimage> = FeltMap::new();
        core::mem::swap(&mut states, &mut self.states);
        states.truncate(len);
        core::mem::swap(&mut states, &mut self.states);
    }
}

/// What `ContractsStatePreimage::insert` answers for a table that holds
/// `held`.
pub open spec fn insert_outcome(
    held: Map<Felt, Preimage>,
    state_hash: ContractStateHash,
    preimage: Preimage,
) -> Result<(), TableError> {
    if state_hash != contract_state_hash_spec(preimage.code_hash, preimage.storage_root) {
        Err(TableError::PreimageMismatch)
    } else if held.contains_key(state_hash) && held[state_hash] != preimage {
        Err(TableError::PreimageConflict)
    } else {
        Ok(())
    }
}

/// The deployed contracts by address.
pub struct Contracts {
    records: FeltMap<ContractRecord>,
}

impl View for Contracts {
    type V = Map<Felt, ContractRecord>;

    open spec fn view(&self) -> Map<Felt, ContractRecord> {
        log_map(self.log())
    }
}

impl Contracts {
    /// The rows in the order of their arrival.
    pub closed spec fn log(&self) -> Seq<(Felt, ContractRecord)> {
        self.records.log()
    }

    /// The empty table.
    pub fn new() -> (table: Contracts)
        ensures
            table.log() == Seq::<(Felt, ContractRecord)>::empty(),
    {
        Contracts { records: FeltMap::new() }
    }

    /// The number of rows.
    pub fn len(&self) -> (n: usize)
        ensures
            n == self.log().len(),
    {
        self.records.len()
    }

    /// The row at position `index` in the order of arrival.
    pub fn entry(&self, index: usize) -> (e: Option<&(Felt, ContractRecord)>)
        ensures
            e == if index < self.log().len() {
                Some(&self.log()[index as int])
            } else {
                None
            },
    {
        self.records.entry(index)
    }

    /// What is kept of the contract at `address`.
    pub fn get(&self, address: ContractAddress) -> (found: Option<&ContractRecord>)
        ensures
            found == if self@.contains_key(address) {
                Some(&self@[address])
            } else {
                None
            },
    {
        self.records.get(address)
    }

    /// The code hash of the contract at `address`.
    pub fn get_hash(&self, address: ContractAddress) -> (hash: Option<CodeHash>)
        ensures
            hash == if self@.contains_key(address) {
                Some(self@[address].code_hash)
            } else {
                None
            },
    {
        match self.records.get(address) {
            Some(record) => Some(record.code_hash),
            None => None,
        }
    }

    /// Stores a newly deployed contract; fails exactly when the address is
    /// deployed already.
    pub fn insert(
        &mut self,
        address: ContractAddress,
        code_hash: CodeHash,
        bytecode: Vec<u8>,
        abi: Vec<u8>,
        definition: Vec<u8>,
    ) -> (res: Result<(), TableError>)
        ensures
            res == if old(self)@.contains_key(address) {
                Err::<(), TableError>(TableError::ContractExists)
            } else {
                Ok::<(), TableError>(())
            },
            final(self).log() == if res is Ok {
                old(self).log().push(
                    (address, ContractRecord { code_hash, bytecode, abi, definition }),
                )
            } else {
                old(self).log()
            },
    {
        if self.records.insert(address, ContractRecord { code_hash, bytecode, abi, definition }) {
            Ok(())
        } else {
            Err(TableError::ContractExists)
        }
    }

    /// Forgets every row that arrived after the first `len`.
    pub fn rewind(&mut self, len: usize)
        ensures
            final(self).log() == if len <= old(self).log().len() {
                old(self).log().take(len as int)
            } else {
                old(self).log()
            },
    {
        self.records.truncate(len);
    }
}

/// Whether block numbers rise strictly along the history.
pub open spec fn ascending(log: Seq<GlobalStateRecord>) -> bool {
    forall|i: int, j: int|
        0 <= i < j < log.len() ==> (#[trigger] log[i]).block_number < (
        #[trigger] log[j]).block_number
}

/// The history of global states, one record per StarkNet block, in rising
/// order of block number.
pub struct GlobalStateHistory {
    records: Vec<GlobalStateRecord>,
}

impl View for GlobalStateHistory {
    type V = Seq<GlobalStateRecord>;

    closed spec fn view(&self) -> Seq<GlobalStateRecord> {
        self.records@
    }
}

impl GlobalStateHistory {
    #[verifier::type_invariant]
    spec fn ordered(self) -> bool {
        ascending(self.records@)
    }

    /// The empty history.
    pub fn new() -> (history: GlobalStateHistory)
        ensures
            history@ == Seq::<GlobalStateRecord>::empty(),
    {
        GlobalStateHistory { records: Vec::new() }
    }

    /// The number of records.
    pub fn len(&self) -> (n: usize)
        ensures
            n == self@.len(),
            ascending(self@),
    {
        proof {
            use_type_invariant(self);
        }
        self.records.len()
    }

    /// The record at position `index`, oldest first.
    pub fn record(&self, index: usize) -> (found: Option<GlobalStateRecord>)
        ensures
            found == if index < self@.len() {
                Some(self@[index as int])
            } else {
                None
            },
    {
        if index < self.records.len() {
            Some(self.records[index])
        } else {
            None
        }
    }

    /// The record with the highest block number.
    pub fn latest(&self) -> (found: Option<GlobalStateRecord>)
        ensures
            found == if self@.len() == 0 {
                None
            } else {
                Some(self@.last())
            },
            found matches Some(top) ==> forall|i: int|
                0 <= i < self@.len() ==> (#[trigger] self@[i]).block_number <= top.block_number,
    {
        proof {
            use_type_invariant(self);
        }
        let n: usize = self.records.len();
        if n == 0 {
            None
        } else {
            Some(self.records[n - 1])
        }
    }

    /// The record of block `block_number`.
    pub fn get(&self, block_number: BlockNumber) -> (found: Option<GlobalStateRecord>)
        ensures
            match found {
                Some(record) => record.block_number == block_number && self@.contains(record),
                None => forall|i: int|
                    0 <= i < self@.len() ==> (#[trigger] self@[i]).block_number != block_number,
            },
    {
        let mut i: usize = 0;
        while i < self.records.len()
            invariant
                i <= self.records@.len(),
                forall|j: int| 0 <= j < i ==> (#[trigger] self.records@[j]).block_number != block_number,
            decreases self.records@.len() - i,
        {
            if self.records[i].block_number == block_number {
                return Some(self.records[i]);
            }
            i += 1;
        }
        None
    }

    /// Appends a record; fails exactly when its block number is not above
    /// that of the latest record.
    pub fn insert(&mut self, record: GlobalStateRecord) -> (res: Result<(), TableError>)
        ensures
            res == if old(self)@.len() > 0 && record.block_number <= old(self)@.last().block_number {
                Err::<(), TableError>(TableError::BlockOutOfOrder)
            } else {
                Ok::<(), TableError>(())
            },
            final(self)@ == if res is Ok {
                old(self)@.push(record)
            } else {
                old(self)@
            },
    {
        proof {
            use_type_invariant(&*self);
        }
        let n: usize = self.records.len();
        if n > 0 && record.block_number <= self.records[n - 1].block_number {
            return Err(TableError::BlockOutOfOrder);
        }
        let mut records: Vec<GlobalStateRecord> = Vec::new();
        core::mem::swap(&mut records, &mut self.records);
        records.push(record);
        core::mem::swap(&mut records, &mut self.records);
        Ok(())
    }

    /// Deletes every record after the first `len`.
    pub fn rewind(&mut self, len: usize)
        ensures
            final(self)@ == if len <= old(self)@.len() {
                old(self)@.take(len as int)
            } else {
                old(self)@
            },
    {
        proof {
            use_type_invariant(&*self);
        }
        let mut records: Vec<GlobalStateRecord> = Vec::new();
        core::mem::swap(&mut records, &mut self.records);
        if len <= records.len() {
            records.truncate(len);
        }
        core::mem::swap(&mut records, &mut self.records);
    }
}

/// Everything that the synchroniser persists.
pub struct Storage {
    pub nodes: NodeStore,
    pub contracts: Contracts,
    pub contract_states: ContractsStatePreimage,
    pub global_state: GlobalStateHistory,
}

/// The contents of a storage: the rows of each table in the order of their
/// arrival.
pub struct StorageView {
    pub nodes: Seq<(Felt, TrieNode)>,
    pub contracts: Seq<(Felt, ContractRecord)>,
    pub contract_states: Seq<(Felt, Preimage)>,
    pub global_state: Seq<GlobalStateRecord>,
}

impl View for Storage {
    type V = StorageView;

    open spec fn view(&self) -> StorageView {
        StorageView {
            nodes: self.nodes.log(),
            contracts: self.contracts.log(),
            contract_states: self.contract_states.log(),
            global_state: self.global_state@,
        }
    }
}

/// The lengths of the tables at one moment: the point that a rollback
/// returns to.
#[derive(Clone, Copy, Debug, PartialEq, Eq, Structural)]
pub struct Savepoint {
    pub nodes: usize,
    pub contracts: usize,
    pub contract_states: usize,
    pub global_state: usize,
}

/// Whether `later` holds everything that `earlier` holds, in the same
/// places.
pub open spec fn grown_from(later: StorageView, earlier: StorageView) -> bool {
    &&& earlier.nodes.len() <= later.nodes.len()
    &&& later.nodes.take(earlier.nodes.len() as int) == earlier.nodes
    &&& earlier.contracts.len() <= later.contracts.len()
    &&& later.contracts.take(earlier.contracts.len() as int) == earlier.contracts
    &&& earlier.contract_states.len() <= later.contract_states.len()
    &&& later.contract_states.take(earlier.contract_states.len() as int)
        == earlier.contract_states
    &&& earlier.global_state.len() <= later.global_state.len()
    &&& later.global_state.take(earlier.global_state.len() as int) == earlier.global_state
}

/// The first `len` rows of a table, or all of them if there are no more.
pub open spec fn first_rows<T>(rows: Seq<T>, len: usize) -> Seq<T> {
    if len <= rows.len() {
        rows.take(len as int)
    } else {
        rows
    }
}

/// A storage with each table cut back to the length that a savepoint
/// gives for it.
pub open spec fn cut_back(storage: StorageView, point: Savepoint) -> StorageView {
    StorageView {
        nodes: first_rows(storage.nodes, point.nodes),
        contracts: first_rows(storage.contracts, point.contracts),
        contract_states: first_rows(storage.contract_states, point.contract_states),
        global_state: first_rows(storage.global_state, point.global_state),
    }
}

impl Storage {
    /// A storage with nothing in it.
    pub fn new() -> (storage: Storage)
        ensures
            storage@.nodes.len() == 0,
            storage@.contracts.len() == 0,
            storage@.contract_states.len() == 0,
            storage@.global_state.len() == 0,
    {
        Storage {
            nodes: NodeStore::new(),
            contracts: Contracts::new(),
            contract_states: ContractsStatePreimage::new(),
            global_state: GlobalStateHistory::new(),
        }
    }

    /// The point to which `rollback` returns.
    pub fn savepoint(&self) -> (point: Savepoint)
        ensures
            point.nodes == self@.nodes.len(),
            point.contracts == self@.contracts.len(),
            point.contract_states == self@.contract_states.len(),
            point.global_state == self@.global_state.len(),
    {
        Savepoint {
            nodes: self.nodes.len(),
            contracts: self.contracts.len(),
            contract_states: self.contract_states.len(),
            global_state: self.global_state.len(),
        }
    }

    /// Undoes everything that was stored after `point` was taken: each
    /// table is cut back to the length that it had then.
    pub fn rollback(&mut self, point: Savepoint)
        ensures
            final(self)@ == cut_back(old(self)@, point),
            forall|earlier: StorageView|
                grown_from(old(self)@, earlier) && point.nodes == earlier.nodes.len()
                    && point.contracts == earlier.contracts.len() && point.contract_states
                    == earlier.contract_states.len() && point.global_state
                    == earlier.global_state.len() ==> final(self)@ == earlier,
    {
        self.nodes.rewind(point.nodes);
        self.contracts.rewind(point.contracts);
        self.contract_states.rewind(point.contract_states);
        self.global_state.rewind(point.global_state);
    }
}

/// Every storage has grown from itself.
pub proof fn lemma_grown_from_self(s: StorageView)
    ensures
        grown_from(s, s),
{
    assert(s.nodes.take(s.nodes.len() as int) =~= s.nodes);
    assert(s.contracts.take(s.contracts.len() as int) =~= s.contracts);
    assert(s.contract_states.take(s.contract_states.len() as int) =~= s.contract_states);
    assert(s.global_state.take(s.global_state.len() as int) =~= s.global_state);
}

/// Growing is transitive.
pub proof fn lemma_grown_from_trans(
    c: StorageView,
    b: StorageView,
    a: StorageView,
)
    requires
        grown_from(c, b),
        grown_from(b, a),
    ensures
        grown_from(c, a),
{
    lemma_extends(c.nodes, b.nodes, a.nodes);
    lemma_extends(c.contracts, b.contracts, a.contracts);
    lemma_extends(c.contract_states, b.contract_states, a.contract_states);
    lemma_extends(c.global_state, b.global_state, a.global_state);
}

} // verus!
