use starknet_state::driver::StateDriver;
use starknet_state::error::{FetchError, UpdateError};
use starknet_state::felt::Felt;
use starknet_state::felt_map::FeltMap;
use starknet_state::hash::calculate_contract_state_hash;
use starknet_state::reorg::{ReorgStep, ReorgWalk};
use starknet_state::sync::{after_fetch, after_update, SyncAction};
use starknet_state::tables::{
    Contracts, ContractsStatePreimage, GlobalStateHistory, Storage, TableError,
};
use starknet_state::trie::TrieError;
use starknet_state::types::{
    EthHash, GlobalStateRecord, L1Provenance, Preimage, StateUpdateLog,
};

fn fe(v: u64) -> Felt {
    Felt::from_u64(v)
}

fn eth(v: u8) -> EthHash {
    EthHash::from_be_bytes([v; 32])
}

fn record(n: u64) -> GlobalStateRecord {
    GlobalStateRecord {
        block_number: n,
        block_hash: fe(n),
        global_root: fe(1000 + n),
        origin: L1Provenance {
            block_hash: eth(n as u8),
            block_number: 500 + n,
            tx_hash: eth(200),
            tx_index: 0,
            log_index: n,
        },
    }
}

fn history_through(n: u64) -> GlobalStateHistory {
    let mut history = GlobalStateHistory::new();
    for i in 1..=n {
        history.insert(record(i)).unwrap();
    }
    history
}

/// Walks back with the L1 block hashes that `l1` reports and returns how
/// many records stay and how many questions were asked.
fn walk(history: &GlobalStateHistory, l1: &dyn Fn(u64) -> Option<EthHash>) -> (usize, usize) {
    let mut walk = ReorgWalk::begin(history);
    let mut asked = 0;
    loop {
        let reported = match walk.query(history) {
            Some(record) => {
                asked += 1;
                l1(record.origin.block_number)
            }
            None => None,
        };
        match walk.answer(history, reported) {
            ReorgStep::Keep(kept) => return (kept, asked),
            ReorgStep::Continue(next) => walk = next,
        }
    }
}

#[test]
fn reorg_deletes_from_the_first_stale_block() {
    let mut storage = Storage::new();
    storage.global_state = history_through(10);
    let mut driver = StateDriver::new(&storage.global_state);
    assert_eq!(driver.global_root, fe(1010));
    // L1 now has other blocks where those of StarkNet blocks 8 to 10 were
    let l1 = |number: u64| {
        if number >= 508 {
            Some(eth(0xEE))
        } else {
            Some(eth((number - 500) as u8))
        }
    };
    let (keep, asked) = walk(&storage.global_state, &l1);
    assert_eq!(keep, 7);
    assert_eq!(asked, 4);
    driver.rewind(&mut storage.global_state, keep);
    assert_eq!(storage.global_state.len(), 7);
    assert_eq!(storage.global_state.latest(), Some(record(7)));
    assert_eq!(storage.global_state.get(8), None);
    assert_eq!(driver.global_root, fe(1007));
    assert_eq!(driver.cursor.unwrap().block_number, 7);
    // the new chain is then recorded from block 8 on
    let mut replacement = record(8);
    replacement.global_root = fe(4242);
    replacement.origin.block_hash = eth(0xEE);
    storage.global_state.insert(replacement).unwrap();
    assert_eq!(StateDriver::new(&storage.global_state).global_root, fe(4242));
}

#[test]
fn reorg_twice_is_reorg_once() {
    let mut history = history_through(10);
    let l1 = |number: u64| if number >= 508 { None } else { Some(eth((number - 500) as u8)) };
    let mut driver = StateDriver::new(&history);
    let (keep, _) = walk(&history, &l1);
    driver.rewind(&mut history, keep);
    let after_first = (history.len(), history.latest(), driver);
    let (keep_again, asked) = walk(&history, &l1);
    assert_eq!(keep_again, history.len());
    assert_eq!(asked, 1);
    driver.rewind(&mut history, keep_again);
    assert_eq!((history.len(), history.latest(), driver), after_first);
}

#[test]
fn reorg_of_everything_returns_to_genesis() {
    let mut history = history_through(3);
    let (keep, asked) = walk(&history, &|_| None);
    assert_eq!((keep, asked), (0, 3));
    let mut driver = StateDriver::new(&history);
    driver.rewind(&mut history, keep);
    assert_eq!(history.len(), 0);
    assert_eq!(driver.global_root, Felt::zero());
    assert_eq!(driver.cursor, None);
    assert_eq!(walk(&history, &|_| None), (0, 0));
}

#[test]
fn reorg_without_change_keeps_everything() {
    let history = history_through(4);
    let l1 = |number: u64| Some(eth((number - 500) as u8));
    assert_eq!(walk(&history, &l1), (4, 1));
}

#[test]
fn sync_actions() {
    let log = StateUpdateLog { origin: record(1).origin, global_root: fe(1), block_number: 1 };
    assert_eq!(after_fetch(&Ok(vec![])), SyncAction::Finish);
    assert_eq!(after_fetch(&Ok(vec![log])), SyncAction::Proceed);
    assert_eq!(after_fetch(&Err(FetchError::Reorg)), SyncAction::Reorganise);
    assert_eq!(after_fetch(&Err(FetchError::Other)), SyncAction::Abort);
    assert_eq!(after_update(&Ok(())), SyncAction::Proceed);
    assert_eq!(after_update(&Err(UpdateError::Reorg)), SyncAction::Reorganise);
    let mismatch = UpdateError::L1RootMismatch { expected: fe(1), computed: fe(2) };
    assert_eq!(after_update(&Err(mismatch)), SyncAction::Abort);
    assert_eq!(
        after_update(&Err(UpdateError::Trie(TrieError::MissingNode))),
        SyncAction::Abort
    );
}

#[test]
fn history_is_ordered_by_block_number() {
    let mut history = GlobalStateHistory::new();
    assert_eq!(history.latest(), None);
    history.insert(record(2)).unwrap();
    history.insert(record(5)).unwrap();
    assert_eq!(history.insert(record(5)), Err(TableError::BlockOutOfOrder));
    assert_eq!(history.insert(record(3)), Err(TableError::BlockOutOfOrder));
    assert_eq!(history.len(), 2);
    assert_eq!(history.latest(), Some(record(5)));
    assert_eq!(history.get(2), Some(record(2)));
    assert_eq!(history.get(3), None);
    assert_eq!(history.record(0), Some(record(2)));
    assert_eq!(history.record(2), None);
    history.rewind(1);
    assert_eq!(history.latest(), Some(record(2)));
    history.rewind(7);
    assert_eq!(history.len(), 1);
}

#[test]
fn preimages_are_checked_against_their_hash() {
    let mut table = ContractsStatePreimage::new();
    let hash = calculate_contract_state_hash(fe(1), fe(2));
    assert_eq!(table.insert(fe(77), fe(1), fe(2)), Err(TableError::PreimageMismatch));
    assert_eq!(table.insert(hash, fe(1), fe(2)), Ok(()));
    assert_eq!(table.insert(hash, fe(1), fe(2)), Ok(()));
    assert_eq!(table.len(), 1);
    assert_eq!(table.insert(hash, fe(1), fe(3)), Err(TableError::PreimageMismatch));
    assert_eq!(table.get(hash), Some(Preimage { code_hash: fe(1), storage_root: fe(2) }));
    assert_eq!(table.get_root(hash), Some(fe(2)));
    assert_eq!(table.get_root(fe(77)), None);
    assert_eq!(table.entry(0), Some((hash, Preimage { code_hash: fe(1), storage_root: fe(2) })));
    // every stored preimage hashes to its key
    for i in 0..table.len() {
        let (key, preimage) = table.entry(i).unwrap();
        assert_eq!(calculate_contract_state_hash(preimage.code_hash, preimage.storage_root), key);
    }
    table.rewind(0);
    assert_eq!(table.get(hash), None);
}

#[test]
fn contracts_are_deployed_once() {
    let mut contracts = Contracts::new();
    assert_eq!(contracts.get_hash(fe(1)), None);
    assert_eq!(contracts.insert(fe(1), fe(10), vec![1, 2], vec![], vec![]), Ok(()));
    assert_eq!(
        contracts.insert(fe(1), fe(10), vec![1, 2], vec![], vec![]),
        Err(TableError::ContractExists)
    );
    assert_eq!(contracts.get_hash(fe(1)), Some(fe(10)));
    assert_eq!(contracts.get(fe(1)).unwrap().bytecode, vec![1, 2]);
    assert!(contracts.get(fe(1)).unwrap().abi.is_empty());
    assert_eq!(contracts.len(), 1);
    assert_eq!(contracts.entry(0).unwrap().0, fe(1));
    contracts.rewind(0);
    assert_eq!(contracts.get_hash(fe(1)), None);
}

#[test]
fn felt_map_keeps_first_value() {
    let mut map: FeltMap<u64> = FeltMap::new();
    assert!(map.insert(fe(1), 10));
    assert!(map.insert(fe(2), 20));
    assert!(!map.insert(fe(1), 11));
    assert_eq!(map.get(fe(1)), Some(&10));
    assert_eq!(map.get(fe(3)), None);
    assert_eq!(map.len(), 2);
    assert_eq!(map.entry(1), Some(&(fe(2), 20)));
    assert_eq!(map.entry(2), None);
    map.truncate(1);
    assert_eq!(map.get(fe(2)), None);
    assert_eq!(map.get(fe(1)), Some(&10));
}

#[test]
fn rollback_returns_to_the_savepoint() {
    let mut storage = Storage::new();
    storage.contracts.insert(fe(1), fe(10), vec![], vec![], vec![]).unwrap();
    let point = storage.savepoint();
    storage.contracts.insert(fe(2), fe(20), vec![], vec![], vec![]).unwrap();
    storage.global_state.insert(record(1)).unwrap();
    let hash = calculate_contract_state_hash(fe(1), fe(2));
    storage.contract_states.insert(hash, fe(1), fe(2)).unwrap();
    storage.nodes.put(starknet_state::node::TrieNode::Binary { left: fe(1), right: fe(2) });
    storage.rollback(point);
    assert_eq!(storage.savepoint(), point);
    assert_eq!(storage.contracts.get_hash(fe(1)), Some(fe(10)));
    assert_eq!(storage.contracts.get_hash(fe(2)), None);
    assert_eq!(storage.global_state.len(), 0);
    assert_eq!(storage.contract_states.len(), 0);
    assert_eq!(storage.nodes.len(), 0);
}

#[test]
fn eth_hash_bytes_roundtrip() {
    let mut bytes = [0u8; 32];
    for (i, b) in bytes.iter_mut().enumerate() {
        *b = i as u8 * 7 + 1;
    }
    let hash = EthHash::from_be_bytes(bytes);
    assert_eq!(hash.to_be_bytes(), bytes);
    assert_eq!(hash.w3, u64::from_be_bytes(bytes[0..8].try_into().unwrap()));
    assert_eq!(hash.w0, u64::from_be_bytes(bytes[24..32].try_into().unwrap()));
    assert_ne!(hash, EthHash::from_be_bytes([0u8; 32]));
}
