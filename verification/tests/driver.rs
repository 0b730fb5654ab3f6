use starknet_state::deploy::{
    abi_placeholder, definition_placeholder, deploy_contract, deploy_contracts, flatten, same_bytes,
};
use starknet_state::driver::StateDriver;
use starknet_state::error::{classify_retrieval, RetrieveStateUpdateError, UpdateError};
use starknet_state::replay::update_contract_state;
use starknet_state::witness::{check_l1_root, check_sequencer};
use starknet_state::felt::Felt;
use starknet_state::hash::{calculate_contract_state_hash, pedersen_hash};
use starknet_state::sync::{Gathered, SyncAction, SyncReport};
use starknet_state::tables::{Contracts, GlobalStateHistory, Storage, TableError};
use starknet_state::tree::{ContractTree, GlobalTree};
use starknet_state::trie::TrieError;
use starknet_state::types::{
    Block, ContractUpdate, DeployedContract, EthHash, GlobalStateRecord, L1Provenance,
    StateUpdate, StateUpdateLog, StorageUpdate,
};

fn fe(v: u64) -> Felt {
    Felt::from_u64(v)
}

fn eth(v: u8) -> EthHash {
    EthHash::from_be_bytes([v; 32])
}

fn origin(n: u64) -> L1Provenance {
    L1Provenance {
        block_hash: eth(n as u8),
        block_number: 100 + n,
        tx_hash: eth(n as u8 + 100),
        tx_index: 3,
        log_index: 5,
    }
}

fn single_leaf_root(key: Felt, value: Felt) -> Felt {
    pedersen_hash(value, key).field_add(&fe(251))
}

const ADDRESS: u64 = 0xA11CE;
const CODE_HASH: u64 = 0xC0DE;

fn payload() -> StateUpdate {
    StateUpdate {
        deployed_contracts: vec![DeployedContract { address: fe(ADDRESS), hash: fe(CODE_HASH) }],
        contract_updates: vec![ContractUpdate {
            address: fe(ADDRESS),
            storage_updates: vec![StorageUpdate { slot: fe(7), value: fe(42) }],
        }],
    }
}

fn code() -> Vec<Vec<[u8; 32]>> {
    vec![vec![[1u8; 32], [2u8; 32]]]
}

fn expected_storage_root() -> Felt {
    single_leaf_root(fe(7), fe(42))
}

fn expected_state_hash() -> Felt {
    calculate_contract_state_hash(fe(CODE_HASH), expected_storage_root())
}

fn expected_global_root() -> Felt {
    single_leaf_root(fe(ADDRESS), expected_state_hash())
}

fn log_for(block_number: u64, root: Felt) -> StateUpdateLog {
    StateUpdateLog { origin: origin(block_number), global_root: root, block_number }
}

fn block_with(root: Felt, hash: Option<Felt>) -> Block {
    Block { state_root: root.to_be_bytes(), block_hash: hash.map(|h| h.to_be_bytes()) }
}

#[test]
fn deploy_store_verify() {
    let mut storage = Storage::new();
    let mut driver = StateDriver::new(&storage.global_state);
    assert_eq!(driver.global_root, Felt::zero());
    assert_eq!(driver.cursor, None);
    let root = expected_global_root();
    let log = log_for(1, root);
    let block = block_with(root, Some(fe(0xB10C)));
    assert_eq!(driver.update(&mut storage, &log, &Ok(payload()), &code(), &block), Ok(()));

    assert_eq!(storage.contracts.get_hash(fe(ADDRESS)), Some(fe(CODE_HASH)));
    assert_eq!(driver.global_root, root);
    assert_eq!(driver.cursor, Some(log));
    let preimage = storage.contract_states.get(expected_state_hash()).unwrap();
    assert_eq!(preimage.code_hash, fe(CODE_HASH));
    assert_eq!(preimage.storage_root, expected_storage_root());
    assert_eq!(storage.contract_states.get_root(expected_state_hash()), Some(expected_storage_root()));
    let record = storage.global_state.get(1).unwrap();
    assert_eq!(record.global_root, root);
    assert_eq!(record.block_hash, fe(0xB10C));
    assert_eq!(record.origin, origin(1));
    assert_eq!(storage.global_state.latest(), Some(record));

    // the tries can be read back from the committed roots
    let global = GlobalTree::load(driver.global_root);
    assert_eq!(global.get(&storage.nodes, fe(ADDRESS)), Ok(expected_state_hash()));
    let contract = ContractTree::load(expected_storage_root());
    assert_eq!(contract.get(&storage.nodes, fe(7)), Ok(fe(42)));
    assert_eq!(contract.get(&storage.nodes, fe(8)), Ok(Felt::zero()));

    // a driver started over this storage resumes after the block
    assert_eq!(StateDriver::new(&storage.global_state), driver);

    // the code went in as one buffer, with the placeholders beside it
    let held = storage.contracts.get(fe(ADDRESS)).unwrap();
    let mut bytes = vec![1u8; 32];
    bytes.extend(vec![2u8; 32]);
    assert_eq!(held.bytecode, bytes);
    assert_eq!(held.abi, b"todo".to_vec());
    assert_eq!(held.definition, b"does not exist".to_vec());
}

#[test]
fn reloading_reproduces_the_root() {
    let mut storage = Storage::new();
    let mut driver = StateDriver::new(&storage.global_state);
    let root = expected_global_root();
    let log = log_for(1, root);
    driver.update(&mut storage, &log, &Ok(payload()), &code(), &block_with(root, Some(fe(1)))).unwrap();
    let nodes = storage.nodes.len();
    let mut reloaded = GlobalTree::load(driver.global_root);
    assert_eq!(reloaded.apply(&mut storage.nodes), Ok(log.global_root));
    assert_eq!(reloaded.root().to_be_bytes(), log.global_root.to_be_bytes());
    assert_eq!(storage.nodes.len(), nodes);
}

#[test]
fn cross_witness_mismatch() {
    let mut storage = Storage::new();
    let mut driver = StateDriver::new(&storage.global_state);
    let root = expected_global_root();
    let log = log_for(1, root);
    let lying = block_with(fe(0xBAD), Some(fe(0xB10C)));
    assert_eq!(
        driver.update(&mut storage, &log, &Ok(payload()), &code(), &lying),
        Err(UpdateError::SequencerRootMismatch { expected: root, reported: fe(0xBAD) })
    );
    assert_eq!(storage.nodes.len(), 0);
    assert_eq!(storage.contracts.len(), 0);
    assert_eq!(storage.contract_states.len(), 0);
    assert_eq!(storage.global_state.len(), 0);
    assert_eq!(driver.global_root, Felt::zero());
    assert_eq!(driver.cursor, None);
}

#[test]
fn l1_root_mismatch() {
    let mut storage = Storage::new();
    let mut driver = StateDriver::new(&storage.global_state);
    let wrong = fe(0x1234);
    let log = log_for(1, wrong);
    assert_eq!(
        driver.update(&mut storage, &log, &Ok(payload()), &code(), &block_with(wrong, Some(fe(1)))),
        Err(UpdateError::L1RootMismatch { expected: wrong, computed: expected_global_root() })
    );
    assert_eq!(storage.nodes.len(), 0);
    assert_eq!(storage.contracts.len(), 0);
    assert_eq!(storage.global_state.len(), 0);
}

#[test]
fn retrieval_errors() {
    let mut storage = Storage::new();
    let mut driver = StateDriver::new(&storage.global_state);
    let log = log_for(1, expected_global_root());
    let block = block_with(expected_global_root(), Some(fe(1)));
    assert_eq!(
        driver.update(&mut storage, &log, &Err(RetrieveStateUpdateError::Reorg), &code(), &block),
        Err(UpdateError::Reorg)
    );
    assert_eq!(
        driver.update(&mut storage, &log, &Err(RetrieveStateUpdateError::NotFound), &code(), &block),
        Err(UpdateError::Reorg)
    );
    assert_eq!(
        driver.update(&mut storage, &log, &Err(RetrieveStateUpdateError::Other), &code(), &block),
        Err(UpdateError::RetrievalFailed)
    );
    assert_eq!(classify_retrieval(RetrieveStateUpdateError::Other), UpdateError::RetrievalFailed);
    assert_eq!(classify_retrieval(RetrieveStateUpdateError::NotFound), UpdateError::Reorg);
}

#[test]
fn update_of_undeployed_contract_fails() {
    let mut storage = Storage::new();
    let mut driver = StateDriver::new(&storage.global_state);
    let mut update = payload();
    update.deployed_contracts.clear();
    let log = log_for(1, expected_global_root());
    let block = block_with(expected_global_root(), Some(fe(1)));
    assert_eq!(
        driver.update(&mut storage, &log, &Ok(update), &vec![], &block),
        Err(UpdateError::ContractHashMissing)
    );
    // the nodes written for the storage trie are gone again
    assert_eq!(storage.nodes.len(), 0);
}

#[test]
fn missing_code_fails() {
    let mut storage = Storage::new();
    let mut driver = StateDriver::new(&storage.global_state);
    let log = log_for(1, expected_global_root());
    let block = block_with(expected_global_root(), Some(fe(1)));
    assert_eq!(
        driver.update(&mut storage, &log, &Ok(payload()), &vec![], &block),
        Err(UpdateError::CodeMissing)
    );
}

#[test]
fn sequencer_errors() {
    let root = fe(99);
    let log = log_for(1, root);
    assert_eq!(check_sequencer(&log, &block_with(root, Some(fe(5)))), Ok(fe(5)));
    assert_eq!(check_sequencer(&log, &block_with(root, None)), Err(UpdateError::BlockHashMissing));
    assert_eq!(
        check_sequencer(&log, &block_with(fe(98), None)),
        Err(UpdateError::SequencerRootMismatch { expected: root, reported: fe(98) })
    );
    let bad = Block { state_root: [0xff; 32], block_hash: Some([0u8; 32]) };
    assert_eq!(check_sequencer(&log, &bad), Err(UpdateError::SequencerRootInvalid));
    let bad_hash = Block { state_root: root.to_be_bytes(), block_hash: Some([0xff; 32]) };
    assert_eq!(check_sequencer(&log, &bad_hash), Err(UpdateError::BlockHashInvalid));
    assert_eq!(check_l1_root(root, &log), Ok(()));
    assert_eq!(
        check_l1_root(fe(1), &log),
        Err(UpdateError::L1RootMismatch { expected: root, computed: fe(1) })
    );
}

#[test]
fn second_block_builds_on_the_first() {
    let mut storage = Storage::new();
    let mut driver = StateDriver::new(&storage.global_state);
    let root1 = expected_global_root();
    driver
        .update(&mut storage, &log_for(1, root1), &Ok(payload()), &code(), &block_with(root1, Some(fe(1))))
        .unwrap();
    // block 2 clears slot 7 and writes slot 9
    let update = StateUpdate {
        deployed_contracts: vec![],
        contract_updates: vec![ContractUpdate {
            address: fe(ADDRESS),
            storage_updates: vec![
                StorageUpdate { slot: fe(7), value: Felt::zero() },
                StorageUpdate { slot: fe(9), value: fe(1) },
            ],
        }],
    };
    let storage_root = single_leaf_root(fe(9), fe(1));
    let state_hash = calculate_contract_state_hash(fe(CODE_HASH), storage_root);
    let root2 = single_leaf_root(fe(ADDRESS), state_hash);
    let log2 = log_for(2, root2);
    assert_eq!(
        driver.update(&mut storage, &log2, &Ok(update), &vec![], &block_with(root2, Some(fe(2)))),
        Ok(())
    );
    assert_eq!(driver.global_root, root2);
    assert_eq!(storage.global_state.len(), 2);
    assert_eq!(storage.contract_states.get_root(state_hash), Some(storage_root));
    // the state of block 1 is still there
    assert_eq!(GlobalTree::load(root1).get(&storage.nodes, fe(ADDRESS)), Ok(expected_state_hash()));
}

#[test]
fn block_numbers_must_rise() {
    let mut storage = Storage::new();
    let mut driver = StateDriver::new(&storage.global_state);
    let root = expected_global_root();
    driver
        .update(&mut storage, &log_for(5, root), &Ok(payload()), &code(), &block_with(root, Some(fe(1))))
        .unwrap();
    let empty = StateUpdate { deployed_contracts: vec![], contract_updates: vec![] };
    let nodes = storage.nodes.len();
    assert_eq!(
        driver.update(&mut storage, &log_for(5, root), &Ok(empty), &vec![], &block_with(root, Some(fe(1)))),
        Err(UpdateError::Table(TableError::BlockOutOfOrder))
    );
    assert_eq!(storage.global_state.len(), 1);
    assert_eq!(storage.nodes.len(), nodes);
}

#[test]
fn redeploying_the_same_contract_changes_nothing() {
    let mut contracts = Contracts::new();
    let contract = DeployedContract { address: fe(1), hash: fe(2) };
    let words = vec![[7u8; 32]];
    assert_eq!(deploy_contract(&mut contracts, contract, &words), Ok(()));
    assert_eq!(deploy_contract(&mut contracts, contract, &words), Ok(()));
    assert_eq!(contracts.len(), 1);
    let other_hash = DeployedContract { address: fe(1), hash: fe(3) };
    assert_eq!(
        deploy_contract(&mut contracts, other_hash, &words),
        Err(UpdateError::ContractMismatch)
    );
    assert_eq!(
        deploy_contract(&mut contracts, contract, &vec![[8u8; 32]]),
        Err(UpdateError::ContractMismatch)
    );
    assert_eq!(contracts.get_hash(fe(1)), Some(fe(2)));
    assert_eq!(contracts.len(), 1);
}

#[test]
fn flatten_joins_words() {
    let mut a = [0u8; 32];
    a[0] = 1;
    a[31] = 2;
    let mut b = [0u8; 32];
    b[0] = 3;
    let bytes = flatten(&vec![a, b]);
    assert_eq!(bytes.len(), 64);
    assert_eq!(bytes[0], 1);
    assert_eq!(bytes[31], 2);
    assert_eq!(bytes[32], 3);
    assert_eq!(flatten(&vec![]), Vec::<u8>::new());
    assert_eq!(abi_placeholder(), b"todo".to_vec());
    assert_eq!(definition_placeholder(), b"does not exist".to_vec());
    assert!(same_bytes(&vec![1, 2], &vec![1, 2]));
    assert!(!same_bytes(&vec![1, 2], &vec![1, 3]));
    assert!(!same_bytes(&vec![1, 2], &vec![1]));
}

#[test]
fn contract_state_goes_through_the_global_tree() {
    let mut storage = Storage::new();
    storage.contracts.insert(fe(ADDRESS), fe(CODE_HASH), vec![], vec![], vec![]).unwrap();
    let mut global = GlobalTree::load(Felt::zero());
    let first = ContractUpdate {
        address: fe(ADDRESS),
        storage_updates: vec![StorageUpdate { slot: fe(7), value: fe(42) }],
    };
    let h1 = update_contract_state(&first, &global, &mut storage).unwrap();
    assert_eq!(h1, expected_state_hash());
    global.set(fe(ADDRESS), h1).unwrap();
    // a second update of the same contract starts from the first one's storage
    let second = ContractUpdate {
        address: fe(ADDRESS),
        storage_updates: vec![StorageUpdate { slot: fe(7), value: Felt::zero() }],
    };
    let h2 = update_contract_state(&second, &global, &mut storage).unwrap();
    assert_eq!(h2, calculate_contract_state_hash(fe(CODE_HASH), Felt::zero()));
    let out_of_range = ContractUpdate {
        address: Felt::from_be_bytes({
            let mut b = [0u8; 32];
            b[0] = 8;
            b
        })
        .unwrap(),
        storage_updates: vec![],
    };
    assert_eq!(
        update_contract_state(&out_of_range, &global, &mut storage),
        Err(UpdateError::Trie(TrieError::KeyOutOfRange))
    );
}

#[test]
fn driver_resumes_from_latest_record() {
    let mut history = GlobalStateHistory::new();
    for n in 1..=3u64 {
        history
            .insert(GlobalStateRecord {
                block_number: n,
                block_hash: fe(n),
                global_root: fe(1000 + n),
                origin: origin(n),
            })
            .unwrap();
    }
    let driver = StateDriver::new(&history);
    assert_eq!(driver.global_root, fe(1003));
    assert_eq!(
        driver.cursor,
        Some(StateUpdateLog { origin: origin(3), global_root: fe(1003), block_number: 3 })
    );
}

#[test]
fn deployments_in_one_update() {
    let mut contracts = Contracts::new();
    let a = DeployedContract { address: fe(1), hash: fe(10) };
    let b = DeployedContract { address: fe(2), hash: fe(20) };
    let codes = vec![vec![[1u8; 32]], vec![[2u8; 32]], vec![[1u8; 32]]];
    // the same contract twice is one deployment
    assert_eq!(deploy_contracts(&mut contracts, &vec![a, b, a], &codes), Ok(()));
    assert_eq!(contracts.len(), 2);
    assert_eq!(contracts.get_hash(fe(2)), Some(fe(20)));
    // an address deployed again with other code is refused
    let mut fresh = Contracts::new();
    let other = vec![vec![[1u8; 32]], vec![[2u8; 32]], vec![[3u8; 32]]];
    assert_eq!(
        deploy_contracts(&mut fresh, &vec![a, b, a], &other),
        Err(UpdateError::ContractMismatch)
    );
    // a contract without code is refused
    let mut short = Contracts::new();
    assert_eq!(
        deploy_contracts(&mut short, &vec![a, b], &vec![vec![[1u8; 32]]]),
        Err(UpdateError::CodeMissing)
    );
    assert_eq!(short.len(), 1);
}

#[test]
fn phases_of_an_update() {
    let mut storage = Storage::new();
    let mut driver = StateDriver::new(&storage.global_state);
    let root = driver.apply_state_update(&mut storage, &payload(), &code()).unwrap();
    assert_eq!(root, expected_global_root());
    // nothing is recorded yet
    assert_eq!(storage.global_state.len(), 0);
    assert_eq!(driver.global_root, Felt::zero());
    let log = log_for(3, root);
    assert_eq!(
        driver.record_block(&mut storage.global_state, &log, fe(1), &block_with(root, Some(fe(9)))),
        Err(UpdateError::L1RootMismatch { expected: root, computed: fe(1) })
    );
    assert_eq!(
        driver.record_block(&mut storage.global_state, &log, root, &block_with(root, None)),
        Err(UpdateError::BlockHashMissing)
    );
    assert_eq!(storage.global_state.len(), 0);
    assert_eq!(
        driver.record_block(&mut storage.global_state, &log, root, &block_with(root, Some(fe(9)))),
        Ok(())
    );
    assert_eq!(driver.global_root, root);
    assert_eq!(storage.global_state.latest().unwrap().block_hash, fe(9));
    // contract updates alone, from the new root
    let updates = vec![ContractUpdate {
        address: fe(ADDRESS),
        storage_updates: vec![StorageUpdate { slot: fe(7), value: Felt::zero() }],
    }];
    let emptied = driver.update_contracts(&mut storage, &updates).unwrap();
    let state_hash = calculate_contract_state_hash(fe(CODE_HASH), Felt::zero());
    assert_eq!(emptied, single_leaf_root(fe(ADDRESS), state_hash));
}

#[test]
fn two_contracts_in_one_update() {
    let mut storage = Storage::new();
    let mut driver = StateDriver::new(&storage.global_state);
    let update = StateUpdate {
        deployed_contracts: vec![
            DeployedContract { address: fe(2), hash: fe(20) },
            DeployedContract { address: fe(3), hash: fe(30) },
        ],
        contract_updates: vec![
            ContractUpdate {
                address: fe(2),
                storage_updates: vec![StorageUpdate { slot: fe(1), value: fe(5) }],
            },
            ContractUpdate {
                address: fe(3),
                storage_updates: vec![StorageUpdate { slot: fe(1), value: fe(6) }],
            },
        ],
    };
    let h2 = calculate_contract_state_hash(fe(20), single_leaf_root(fe(1), fe(5)));
    let h3 = calculate_contract_state_hash(fe(30), single_leaf_root(fe(1), fe(6)));
    // addresses 2 and 3 part at the last digit: an edge of 250 steps over a fork
    let root = pedersen_hash(pedersen_hash(h2, h3), fe(1)).field_add(&fe(250));
    let log = log_for(1, root);
    let codes = vec![vec![], vec![]];
    assert_eq!(
        driver.update(&mut storage, &log, &Ok(update), &codes, &block_with(root, Some(fe(1)))),
        Ok(())
    );
    assert_eq!(storage.contract_states.len(), 2);
    assert_eq!(GlobalTree::load(root).get(&storage.nodes, fe(3)), Ok(h3));
}

fn gathered(block_number: u64, root: Felt, update: StateUpdate, codes: Vec<Vec<[u8; 32]>>) -> Gathered {
    Gathered {
        log: log_for(block_number, root),
        retrieved: Ok(update),
        codes,
        block: block_with(root, Some(fe(block_number))),
    }
}

fn nothing() -> StateUpdate {
    StateUpdate { deployed_contracts: vec![], contract_updates: vec![] }
}

#[test]
fn sync_applies_logs_in_order() {
    let mut storage = Storage::new();
    let mut driver = StateDriver::new(&storage.global_state);
    let root = expected_global_root();
    let batch = vec![
        gathered(1, root, payload(), code()),
        gathered(2, root, nothing(), vec![]),
        gathered(3, root, nothing(), vec![]),
    ];
    let report = driver.sync(&mut storage, &batch);
    assert_eq!(report, SyncReport { applied: 3, action: SyncAction::Proceed, error: None });
    assert_eq!(storage.global_state.len(), 3);
    assert_eq!(storage.global_state.record(1).unwrap().block_number, 2);
    assert_eq!(driver.cursor, Some(log_for(3, root)));
    // with no further logs the synchronisation is done
    let done = driver.sync(&mut storage, &vec![]);
    assert_eq!(done, SyncReport { applied: 0, action: SyncAction::Finish, error: None });
    assert_eq!(storage.global_state.len(), 3);
}

#[test]
fn sync_stops_at_the_first_failure() {
    let mut storage = Storage::new();
    let mut driver = StateDriver::new(&storage.global_state);
    let root = expected_global_root();
    let batch = vec![
        gathered(1, root, payload(), code()),
        gathered(2, fe(0xBAD), nothing(), vec![]),
        gathered(3, root, nothing(), vec![]),
    ];
    let report = driver.sync(&mut storage, &batch);
    assert_eq!(
        report,
        SyncReport {
            applied: 1,
            action: SyncAction::Abort,
            error: Some(UpdateError::L1RootMismatch { expected: fe(0xBAD), computed: root })
        }
    );
    // block 1 stays, nothing of block 2 does
    assert_eq!(storage.global_state.len(), 1);
    assert_eq!(driver.global_root, root);
    assert_eq!(driver.cursor, Some(log_for(1, root)));
}

#[test]
fn sync_reports_a_reorg() {
    let mut storage = Storage::new();
    let mut driver = StateDriver::new(&storage.global_state);
    let root = expected_global_root();
    let mut lost = gathered(2, root, nothing(), vec![]);
    lost.retrieved = Err(RetrieveStateUpdateError::NotFound);
    let batch = vec![gathered(1, root, payload(), code()), lost];
    let report = driver.sync(&mut storage, &batch);
    assert_eq!(
        report,
        SyncReport { applied: 1, action: SyncAction::Reorganise, error: Some(UpdateError::Reorg) }
    );
    assert_eq!(storage.global_state.len(), 1);
}

#[test]
fn clash_of_hashes_rolls_the_update_back() {
    let mut storage = Storage::new();
    // another node sits under the hash that the contract's storage root will have
    let storage_root = expected_storage_root();
    storage.nodes.put(starknet_state::node::TrieNode::Leaf { value: storage_root });
    let mut driver = StateDriver::new(&storage.global_state);
    let root = expected_global_root();
    assert_eq!(
        driver.update(&mut storage, &log_for(1, root), &Ok(payload()), &code(), &block_with(root, Some(fe(1)))),
        Err(UpdateError::Trie(TrieError::HashCollision))
    );
    assert_eq!(storage.nodes.len(), 1);
    assert_eq!(storage.contracts.len(), 0);
    assert_eq!(storage.contract_states.len(), 0);
}

#[test]
fn storage_stays_whole_across_updates() {
    let mut storage = Storage::new();
    let mut driver = StateDriver::new(&storage.global_state);
    assert!(starknet_state::replay::is_consistent(&storage, driver.global_root));
    let root = expected_global_root();
    driver
        .update(&mut storage, &log_for(1, root), &Ok(payload()), &code(), &block_with(root, Some(fe(1))))
        .unwrap();
    assert!(starknet_state::replay::is_consistent(&storage, driver.global_root));
    assert!(starknet_state::replay::is_consistent(&storage, Felt::zero()));
    // a root that was never committed
    assert!(!starknet_state::replay::is_consistent(&storage, fe(12345)));
    // a preimage whose storage trie the store does not have
    let dangling = calculate_contract_state_hash(fe(1), fe(2));
    storage.contract_states.insert(dangling, fe(1), fe(2)).unwrap();
    assert!(!starknet_state::replay::is_consistent(&storage, driver.global_root));
}
