//! The values that the synchroniser passes around: typed field elements,
//! L1 provenance, state updates and what the sequencer reports.

use crate::felt::{limb_at, limb_bytes, read_limb, write_limb, Felt};
use vstd::prelude::*;

verus! {

/// Address of a contract: a key of the global trie.
pub type ContractAddress = Felt;

/// Storage slot of a contract: a key of its storage trie.
pub type StorageSlot = Felt;

/// Value of a storage slot.
pub type StorageValue = Felt;

/// Hash of a contract's code.
pub type CodeHash = Felt;

/// Root of a contract's storage trie; zero for empty storage.
pub type StorageRoot = Felt;

/// Hash that commits to a contract's code hash and storage root.
pub type ContractStateHash = Felt;

/// Root of the global trie.
pub type GlobalRoot = Felt;

/// Hash of a StarkNet block.
pub type StarknetBlockHash = Felt;

/// Number of a StarkNet block.
pub type BlockNumber = u64;

/// A 256-bit hash of the L1 chain, held as four words, most significant
/// first.
#[derive(Clone, Copy, Debug, PartialEq, Eq, Structural)]
pub struct EthHash {
    pub w3: u64,
    pub w2: u64,
    pub w1: u64,
    pub w0: u64,
}

impl View for EthHash {
    type V = Seq<u8>;

    /// The 32 bytes of the hash.
    open spec fn view(&self) -> Seq<u8> {
        limb_bytes(self.w3) + limb_bytes(self.w2) + limb_bytes(self.w1) + limb_bytes(self.w0)
    }
}

impl EthHash {
    /// The hash with the given 32 bytes.
    pub fn from_be_bytes(bytes: [u8; 32]) -> (hash: EthHash)
        ensures
            hash.w3 == limb_at(bytes@, 0),
            hash.w2 == limb_at(bytes@, 8),
            hash.w1 == limb_at(bytes@, 16),
            hash.w0 == limb_at(bytes@, 24),
    {
        EthHash {
            w3: read_limb(&bytes, 0),
            w2: read_limb(&bytes, 8),
            w1: read_limb(&bytes, 16),
            w0: read_limb(&bytes, 24),
        }
    }

    /// The 32 bytes of the hash.
    pub fn to_be_bytes(self) -> (bytes: [u8; 32])
        ensures
            bytes@ == self@,
    {
        let mut bytes: [u8; 32] = [0u8; 32];
        write_limb(&mut bytes, 0, self.w3);
        write_limb(&mut bytes, 8, self.w2);
        write_limb(&mut bytes, 16, self.w1);
        write_limb(&mut bytes, 24, self.w0);
        proof {
            assert(bytes@ =~= self@);
        }
        bytes
    }
}

/// Where on L1 a state update was witnessed: the block, the transaction in
/// it and the log in that.
#[derive(Clone, Copy, Debug, PartialEq, Eq, Structural)]
pub struct L1Provenance {
    pub block_hash: EthHash,
    pub block_number: u64,
    pub tx_hash: EthHash,
    pub tx_index: u64,
    pub log_index: u64,
}

/// The witness that L1 gives for one StarkNet block: its number and the
/// global root after it.
#[derive(Clone, Copy, Debug, PartialEq, Eq, Structural)]
pub struct StateUpdateLog {
    pub origin: L1Provenance,
    pub global_root: GlobalRoot,
    pub block_number: BlockNumber,
}

/// A contract that a state update deploys.
#[derive(Clone, Copy, Debug, PartialEq, Eq, Structural)]
pub struct DeployedContract {
    pub address: ContractAddress,
    pub hash: CodeHash,
}

/// One storage write.
#[derive(Clone, Copy, Debug, PartialEq, Eq, Structural)]
pub struct StorageUpdate {
    pub slot: StorageSlot,
    pub value: StorageValue,
}

/// The storage writes that a state update makes to one contract, in order.
#[derive(Debug)]
pub struct ContractUpdate {
    pub address: ContractAddress,
    pub storage_updates: Vec<StorageUpdate>,
}

/// What a state update log refers to: the contracts deployed and the
/// storage written in one StarkNet block.
#[derive(Debug)]
pub struct StateUpdate {
    pub deployed_contracts: Vec<DeployedContract>,
    pub contract_updates: Vec<ContractUpdate>,
}

/// What the sequencer reports of a block.
#[derive(Clone, Copy, Debug)]
pub struct Block {
    pub state_root: [u8; 32],
    pub block_hash: Option<[u8; 32]>,
}

/// One row of the history of global states.
#[derive(Clone, Copy, Debug, PartialEq, Eq, Structural)]
pub struct GlobalStateRecord {
    pub block_number: BlockNumber,
    pub block_hash: StarknetBlockHash,
    pub global_root: GlobalRoot,
    pub origin: L1Provenance,
}

/// What hashes to a contract state hash.
#[derive(Clone, Copy, Debug, PartialEq, Eq, Structural)]
pub struct Preimage {
    pub code_hash: CodeHash,
    pub storage_root: StorageRoot,
}

/// What is kept of a deployed contract.
#[derive(Debug)]
pub struct ContractRecord {
    pub code_hash: CodeHash,
    pub bytecode: Vec<u8>,
    pub abi: Vec<u8>,
    pub definition: Vec<u8>,
}

} // verus!
