//! The replay of contract updates: each update gives its contract a new
//! storage root and a new state hash, which goes into the global trie.

use crate::deploy::code_hashes;
use crate::driver::StateDriver;
use crate::error::UpdateError;
use crate::felt::{felt_of, key_bound, key_path, Felt};
use crate::felt_map::{lemma_log_map_entry, lemma_submap};
use crate::hash::{calculate_contract_state_hash, contract_state_hash_spec};
use crate::node::{lemma_store_grows, TrieNode};
use crate::shape::{lookup, Shape};
use crate::tables::{
    grown_from, insert_outcome, lemma_grown_from_self, lemma_grown_from_trans, Storage, TableError,
};
use crate::tree::{keys_in_range, overlay, replay, ContractTree, GlobalTree};
use crate::trie::{
    fits, grown_within, inspect, lemma_fits_grown, lemma_fits_part, lemma_grown_wider,
    lemma_grown_within, lemma_resolve_grows, resolve, shape_hash, shape_nodes, HEIGHT, TrieError,
};
use crate::types::{
    CodeHash, ContractStateHash, ContractUpdate, GlobalRoot, Preimage, StorageRoot, StorageUpdate,
};
use vstd::prelude::*;

verus! {

/// The assignments that a sequence of storage writes makes to a storage
/// trie.
pub open spec fn writes_of(updates: Seq<StorageUpdate>) -> Seq<(Felt, Felt)> {
    Seq::new(updates.len(), |i: int| (updates[i].slot, updates[i].value))
}

/// The storage root that the table of preimages gives for a contract state
/// hash; zero where it has none.
pub open spec fn root_of(states: Map<Felt, Preimage>, state_hash: ContractStateHash) -> StorageRoot {
    if states.contains_key(state_hash) {
        states[state_hash].storage_root
    } else {
        felt_of(0)
    }
}

/// Whether the address and the storage slots of an update are trie keys.
pub open spec fn update_in_range(update: ContractUpdate) -> bool {
    update.address@ < key_bound() && keys_in_range(writes_of(update.storage_updates@))
}

/// The storage trie of a contract after an update: its storage trie, found
/// through its present state hash, with the writes replayed.
pub open spec fn next_shape(
    nodes: Map<Felt, TrieNode>,
    states: Map<Felt, Preimage>,
    present: ContractStateHash,
    update: ContractUpdate,
) -> Shape {
    replay(
        resolve(nodes, root_of(states, present), HEIGHT as nat)->0,
        writes_of(update.storage_updates@),
    )
}

/// The storage root of a contract after an update.
pub open spec fn next_root(
    nodes: Map<Felt, TrieNode>,
    states: Map<Felt, Preimage>,
    present: ContractStateHash,
    update: ContractUpdate,
) -> StorageRoot {
    shape_hash(next_shape(nodes, states, present, update))
}

/// The preimage of a contract's state hash after an update.
pub open spec fn next_preimage(
    nodes: Map<Felt, TrieNode>,
    states: Map<Felt, Preimage>,
    codes: Map<Felt, CodeHash>,
    present: ContractStateHash,
    update: ContractUpdate,
) -> Preimage {
    Preimage {
        code_hash: codes[update.address],
        storage_root: next_root(nodes, states, present, update),
    }
}

/// The contract state hash that a preimage hashes to.
pub open spec fn state_hash_of(preimage: Preimage) -> ContractStateHash {
    contract_state_hash_spec(preimage.code_hash, preimage.storage_root)
}

/// The table of preimages with one more preimage, stored under its hash
/// unless that hash is taken.
pub open spec fn with_preimage(states: Map<Felt, Preimage>, preimage: Preimage) -> Map<
    Felt,
    Preimage,
> {
    let hash = contract_state_hash_spec(preimage.code_hash, preimage.storage_root);
    if states.contains_key(hash) {
        states
    } else {
        states.insert(hash, preimage)
    }
}

/// Updates a contract's state with the storage writes of `update`, and
/// returns the contract state hash of the new state. It reads the
/// contract's present state hash from the global trie, writes to the
/// contract's storage trie and stores the preimage of the new state hash.
///
/// What is promised of the result holds where the store has the whole of
/// the global trie and of the contract's storage trie; success is promised
/// where, besides, the update is in range and to a deployed contract and
/// no hashes clash.
#[verifier::loop_isolation(false)]
pub fn update_contract_state(
    update: &ContractUpdate,
    global_tree: &GlobalTree,
    storage: &mut Storage,
) -> (res: Result<ContractStateHash, UpdateError>)
    ensures
        grown_from(final(storage)@, old(storage)@),
        final(storage)@.contracts == old(storage)@.contracts,
        final(storage)@.global_state == old(storage)@.global_state,
        res is Err ==> final(storage).contract_states@ == old(storage).contract_states@,
        ({
            let nodes = old(storage).nodes@;
            let states = old(storage).contract_states@;
            let codes = code_hashes(old(storage).contracts@);
            let present = global_tree.value_at(nodes, update.address);
            let shape = next_shape(nodes, states, present, *update);
            let preimage = next_preimage(nodes, states, codes, present, *update);
            global_tree.well_formed(nodes) && resolve(
                nodes,
                root_of(states, present),
                HEIGHT as nat,
            ) is Some ==> {
                &&& update_in_range(*update) ==> grown_within(
                    final(storage).nodes@,
                    nodes,
                    shape_nodes(shape),
                )
                &&& update_in_range(*update) && codes.contains_key(update.address) && fits(
                    nodes,
                    shape_nodes(shape),
                ) && insert_outcome(states, state_hash_of(preimage), preimage) is Ok ==> res is Ok
                &&& match res {
                    Ok(hash) => {
                        &&& update_in_range(*update)
                        &&& codes.contains_key(update.address)
                        &&& hash == state_hash_of(preimage)
                        &&& final(storage).contract_states@ == with_preimage(states, preimage)
                        &&& resolve(final(storage).nodes@, preimage.storage_root, HEIGHT as nat)
                            is Some
                    },
                    Err(e) => if !update_in_range(*update) {
                        e == UpdateError::Trie(TrieError::KeyOutOfRange)
                    } else {
                        ||| e == UpdateError::Trie(TrieError::HashCollision)
                        ||| e == UpdateError::ContractHashMissing && !codes.contains_key(
                            update.address,
                        )
                        ||| e == UpdateError::Table(TableError::PreimageConflict)
                    },
                }
            }
        }),
{
    proof {
        lemma_grown_from_self(storage@);
        storage.nodes.lemma_view();
    }
    let state_hash: ContractStateHash = match global_tree.get(&storage.nodes, update.address) {
        Ok(hash) => hash,
        Err(e) => {
            return Err(UpdateError::Trie(e));
        },
    };
    let root: StorageRoot = match storage.contract_states.get_root(state_hash) {
        Some(root) => root,
        None => Felt::zero(),
    };
    let mut tree: ContractTree = ContractTree::load(root);
    let ghost writes = writes_of(update.storage_updates@);
    let mut i: usize = 0;
    while i < update.storage_updates.len()
        invariant
            i <= update.storage_updates@.len(),
            tree.root_hash() == root,
            tree.pending() == writes.take(i as int),
            keys_in_range(writes.take(i as int)),
        decreases update.storage_updates@.len() - i,
    {
        let write: StorageUpdate = update.storage_updates[i];
        proof {
            assert(writes.take(i + 1) =~= writes.take(i as int).push((write.slot, write.value)));
            assert(writes[i as int] == (write.slot, write.value));
        }
        match tree.set(write.slot, write.value) {
            Ok(()) => {},
            Err(e) => {
                return Err(UpdateError::Trie(e));
            },
        }
        i += 1;
    }
    proof {
        assert(writes.take(i as int) =~= writes);
    }
    let new_root: StorageRoot = match tree.apply(&mut storage.nodes) {
        Ok(root) => root,
        Err(e) => {
            return Err(UpdateError::Trie(e));
        },
    };
    let code_hash: CodeHash = match storage.contracts.get_hash(update.address) {
        Some(hash) => hash,
        None => {
            return Err(UpdateError::ContractHashMissing);
        },
    };
    let new_hash: ContractStateHash = calculate_contract_state_hash(code_hash, new_root);
    match storage.contract_states.insert(new_hash, code_hash, new_root) {
        Ok(()) => {
            proof {
                let before = old(storage)@.contract_states;
                assert(storage@.contract_states.take(before.len() as int) =~= before);
                assert(storage@.contract_states.drop_last() =~= before || storage@.contract_states
                    == before);
            }
            Ok(new_hash)
        },
        Err(e) => Err(UpdateError::Table(e)),
    }
}

/// Whether the store has the storage trie of every preimage in the table.
pub open spec fn tables_closed(nodes: Map<Felt, TrieNode>, states: Map<Felt, Preimage>) -> bool {
    forall|hash: Felt| #[trigger]
        states.contains_key(hash) ==> resolve(nodes, states[hash].storage_root, HEIGHT as nat)
            is Some
}

/// Whether the storage is whole below a global root: the store has the
/// global trie and every storage trie that the table of preimages names.
pub open spec fn consistent(storage: Storage, root: GlobalRoot) -> bool {
    resolve(storage.nodes@, root, HEIGHT as nat) is Some && tables_closed(
        storage.nodes@,
        storage.contract_states@,
    )
}

/// Whether the storage is whole below a global root. This walks through
/// all of the global trie and of every storage trie that the table of
/// preimages names.
pub fn is_consistent(storage: &Storage, root: GlobalRoot) -> (whole: bool)
    ensures
        whole == consistent(*storage, root),
{
    if inspect(&storage.nodes, root, HEIGHT).is_none() {
        return false;
    }
    let ghost states = storage.contract_states@;
    let ghost log = storage.contract_states.log();
    let mut i: usize = 0;
    while i < storage.contract_states.len()
        invariant
            i <= log.len(),
            log == storage.contract_states.log(),
            states == storage.contract_states@,
            forall|k: int|
                0 <= k < i && states.contains_key((#[trigger] log[k]).0) && states[log[k].0]
                    == log[k].1 ==> resolve(
                    storage.nodes@,
                    log[k].1.storage_root,
                    HEIGHT as nat,
                ) is Some,
        decreases log.len() - i,
    {
        match storage.contract_states.entry(i) {
            Some((state_hash, preimage)) => {
                let held: bool = match storage.contract_states.get(state_hash) {
                    Some(found) => found == preimage,
                    None => false,
                };
                if held && inspect(&storage.nodes, preimage.storage_root, HEIGHT).is_none() {
                    return false;
                }
            },
            None => {},
        }
        i += 1;
    }
    proof {
        assert forall|hash: Felt| #[trigger] states.contains_key(hash) implies resolve(
            storage.nodes@,
            states[hash].storage_root,
            HEIGHT as nat,
        ) is Some by {
            lemma_log_map_entry(log, hash);
            let k = choose|k: int| 0 <= k < log.len() && log[k] == (hash, states[hash]);
            assert(states.contains_key(log[k].0));
        }
    }
    true
}

/// How far the contract updates of a state update have got: the table of
/// preimages, and the assignments made to the global trie.
pub struct Progress {
    pub states: Map<Felt, Preimage>,
    pub assigned: Seq<(Felt, Felt)>,
}

/// The state hash that a contract has while updates are replayed: what was
/// last assigned to its address, else what the global trie holds for it.
pub open spec fn present_hash(
    base: Shape,
    assigned: Seq<(Felt, Felt)>,
    address: Felt,
) -> ContractStateHash {
    overlay(lookup(base, key_path(address)), assigned, address)
}

/// Replays contract updates, in order, over the global trie `base` and the
/// table of preimages `states`: each update gives its contract a new
/// storage root, the preimage of the new state hash goes to the table, and
/// the new state hash is assigned to the contract's address.
pub open spec fn replay_updates(
    nodes: Map<Felt, TrieNode>,
    codes: Map<Felt, CodeHash>,
    base: Shape,
    states: Map<Felt, Preimage>,
    updates: Seq<ContractUpdate>,
) -> Progress
    decreases updates.len(),
{
    if updates.len() == 0 {
        Progress { states, assigned: Seq::empty() }
    } else {
        let before = replay_updates(nodes, codes, base, states, updates.drop_last());
        let update = updates.last();
        let present = present_hash(base, before.assigned, update.address);
        let preimage = next_preimage(nodes, before.states, codes, present, update);
        Progress {
            states: with_preimage(before.states, preimage),
            assigned: before.assigned.push((update.address, state_hash_of(preimage))),
        }
    }
}

/// Whether the contract updates can be replayed: every update is in
/// range and to a deployed contract, and the store has the storage trie
/// that it starts from.
pub open spec fn updates_replayable(
    nodes: Map<Felt, TrieNode>,
    codes: Map<Felt, CodeHash>,
    base: Shape,
    states: Map<Felt, Preimage>,
    updates: Seq<ContractUpdate>,
) -> bool
    decreases updates.len(),
{
    updates.len() == 0 || {
        let before = replay_updates(nodes, codes, base, states, updates.drop_last());
        let update = updates.last();
        &&& updates_replayable(nodes, codes, base, states, updates.drop_last())
        &&& update_in_range(update)
        &&& codes.contains_key(update.address)
        &&& resolve(
            nodes,
            root_of(before.states, present_hash(base, before.assigned, update.address)),
            HEIGHT as nat,
        ) is Some
    }
}

/// The nodes of the storage tries that replaying the contract updates
/// leaves.
pub open spec fn replay_nodes(
    nodes: Map<Felt, TrieNode>,
    codes: Map<Felt, CodeHash>,
    base: Shape,
    states: Map<Felt, Preimage>,
    updates: Seq<ContractUpdate>,
) -> Set<TrieNode>
    decreases updates.len(),
{
    if updates.len() == 0 {
        Set::empty()
    } else {
        let before = replay_updates(nodes, codes, base, states, updates.drop_last());
        let update = updates.last();
        let present = present_hash(base, before.assigned, update.address);
        replay_nodes(nodes, codes, base, states, updates.drop_last()).union(
            shape_nodes(next_shape(nodes, before.states, present, update)),
        )
    }
}

/// Whether the table of preimages takes every preimage that replaying the
/// contract updates gives: none hashes to a state hash that is taken by
/// another preimage.
pub open spec fn updates_insertable(
    nodes: Map<Felt, TrieNode>,
    codes: Map<Felt, CodeHash>,
    base: Shape,
    states: Map<Felt, Preimage>,
    updates: Seq<ContractUpdate>,
) -> bool
    decreases updates.len(),
{
    updates.len() == 0 || {
        let before = replay_updates(nodes, codes, base, states, updates.drop_last());
        let update = updates.last();
        let present = present_hash(base, before.assigned, update.address);
        let preimage = next_preimage(nodes, before.states, codes, present, update);
        &&& updates_insertable(nodes, codes, base, states, updates.drop_last())
        &&& insert_outcome(before.states, state_hash_of(preimage), preimage) is Ok
    }
}

/// The global trie that replaying the contract updates leaves.
pub open spec fn replayed_shape(
    nodes: Map<Felt, TrieNode>,
    codes: Map<Felt, CodeHash>,
    base: Shape,
    states: Map<Felt, Preimage>,
    updates: Seq<ContractUpdate>,
) -> Shape {
    replay(base, replay_updates(nodes, codes, base, states, updates).assigned)
}

/// Whether replaying the contract updates meets no clash of hashes:
/// neither among the nodes of the tries that it writes, nor among the
/// preimages that it stores.
pub open spec fn clash_free(
    nodes: Map<Felt, TrieNode>,
    codes: Map<Felt, CodeHash>,
    base: Shape,
    states: Map<Felt, Preimage>,
    updates: Seq<ContractUpdate>,
) -> bool {
    &&& updates_insertable(nodes, codes, base, states, updates)
    &&& fits(
        nodes,
        replay_nodes(nodes, codes, base, states, updates).union(
            shape_nodes(replayed_shape(nodes, codes, base, states, updates)),
        ),
    )
}

/// Whether nothing stands in the way of replaying the contract updates
/// over a storage, the contracts having the code hashes `codes`: the
/// updates are replayable from what the store holds, and no hashes clash.
pub open spec fn unhindered(
    storage: Storage,
    codes: Map<Felt, CodeHash>,
    root: GlobalRoot,
    updates: Seq<ContractUpdate>,
) -> bool {
    let base = resolve(storage.nodes@, root, HEIGHT as nat)->0;
    &&& updates_replayable(storage.nodes@, codes, base, storage.contract_states@, updates)
    &&& clash_free(storage.nodes@, codes, base, storage.contract_states@, updates)
}

/// The root of the global trie that replaying the contract updates over a
/// storage leaves.
pub open spec fn expected_root(
    storage: Storage,
    codes: Map<Felt, CodeHash>,
    root: GlobalRoot,
    updates: Seq<ContractUpdate>,
) -> GlobalRoot {
    let base = resolve(storage.nodes@, root, HEIGHT as nat)->0;
    shape_hash(replayed_shape(storage.nodes@, codes, base, storage.contract_states@, updates))
}

/// A store that grows replays contract updates as before.
pub proof fn lemma_replay_updates_grows(
    small: Map<Felt, TrieNode>,
    large: Map<Felt, TrieNode>,
    codes: Map<Felt, CodeHash>,
    base: Shape,
    states: Map<Felt, Preimage>,
    updates: Seq<ContractUpdate>,
)
    requires
        small.submap_of(large),
        updates_replayable(small, codes, base, states, updates),
    ensures
        updates_replayable(large, codes, base, states, updates),
        replay_updates(large, codes, base, states, updates) == replay_updates(
            small,
            codes,
            base,
            states,
            updates,
        ),
    decreases updates.len(),
{
    if updates.len() > 0 {
        lemma_replay_updates_grows(small, large, codes, base, states, updates.drop_last());
        let before = replay_updates(small, codes, base, states, updates.drop_last());
        let update = updates.last();
        let root = root_of(before.states, present_hash(base, before.assigned, update.address));
        lemma_resolve_grows(small, large, root, HEIGHT as nat);
    }
}

/// What holds of all the contract updates holds of the first `n` of them.
pub proof fn lemma_replay_prefix(
    nodes: Map<Felt, TrieNode>,
    codes: Map<Felt, CodeHash>,
    base: Shape,
    states: Map<Felt, Preimage>,
    updates: Seq<ContractUpdate>,
    n: int,
)
    requires
        0 <= n <= updates.len(),
    ensures
        updates_replayable(nodes, codes, base, states, updates) ==> updates_replayable(
            nodes,
            codes,
            base,
            states,
            updates.take(n),
        ),
        updates_insertable(nodes, codes, base, states, updates) ==> updates_insertable(
            nodes,
            codes,
            base,
            states,
            updates.take(n),
        ),
        replay_nodes(nodes, codes, base, states, updates.take(n)).subset_of(
            replay_nodes(nodes, codes, base, states, updates),
        ),
    decreases updates.len() - n,
{
    if n < updates.len() {
        lemma_replay_prefix(nodes, codes, base, states, updates, n + 1);
        assert(updates.take(n + 1).drop_last() =~= updates.take(n));
    } else {
        assert(updates.take(n) =~= updates);
    }
}

/// What replaying contract updates over a whole storage leaves: the
/// updates were replayable, the table of preimages holds what the replay
/// gives, `root` is the root of the global trie with the replay's
/// assignments made, and the storage is whole below it.
pub open spec fn replayed(
    before: Storage,
    after: Storage,
    from: GlobalRoot,
    updates: Seq<ContractUpdate>,
    root: GlobalRoot,
) -> bool {
    let base = resolve(before.nodes@, from, HEIGHT as nat)->0;
    let codes = code_hashes(after.contracts@);
    let progress = replay_updates(after.nodes@, codes, base, before.contract_states@, updates);
    &&& updates_replayable(after.nodes@, codes, base, before.contract_states@, updates)
    &&& after.contract_states@ == progress.states
    &&& root == shape_hash(replay(base, progress.assigned))
    &&& consistent(after, root)
}

impl StateDriver {
    /// Applies contract updates in order and returns the root of the
    /// global trie that results.
    ///
    /// What is promised of the result holds where the storage is whole
    /// below the driver's global root; where, besides, the updates are
    /// replayable and no hashes clash, the root that they lead to is
    /// returned.
    #[verifier::loop_isolation(false)]
    pub fn update_contracts(&self, storage: &mut Storage, updates: &Vec<ContractUpdate>) -> (res:
        Result<GlobalRoot, UpdateError>)
        ensures
            grown_from(final(storage)@, old(storage)@),
            final(storage)@.contracts == old(storage)@.contracts,
            final(storage)@.global_state == old(storage)@.global_state,
            consistent(*old(storage), self.global_root) ==> (match res {
                Ok(root) => replayed(*old(storage), *final(storage), self.global_root, updates@, root),
                Err(e) => e != UpdateError::Trie(TrieError::MissingNode) && e != UpdateError::Trie(
                    TrieError::MalformedNode,
                ),
            }),
            consistent(*old(storage), self.global_root) && unhindered(
                *old(storage),
                code_hashes(old(storage).contracts@),
                self.global_root,
                updates@,
            ) ==> res == Ok::<GlobalRoot, UpdateError>(
                expected_root(
                    *old(storage),
                    code_hashes(old(storage).contracts@),
                    self.global_root,
                    updates@,
                ),
            ),
    {
        let ghost nodes0 = storage.nodes@;
        let ghost states0 = storage.contract_states@;
        let ghost contracts = code_hashes(storage.contracts@);
        let ghost whole = consistent(*storage, self.global_root);
        let ghost base = resolve(nodes0, self.global_root, HEIGHT as nat)->0;
        let ghost clear = whole && unhindered(*storage, contracts, self.global_root, updates@);
        let ghost all_nodes = replay_nodes(nodes0, contracts, base, states0, updates@).union(
            shape_nodes(replayed_shape(nodes0, contracts, base, states0, updates@)),
        );
        proof {
            lemma_grown_from_self(storage@);
        }
        let mut global_tree: GlobalTree = GlobalTree::load(self.global_root);
        let mut j: usize = 0;
        while j < updates.len()
            invariant
                j <= updates@.len(),
                grown_from(storage@, old(storage)@),
                storage@.contracts == old(storage)@.contracts,
                storage@.global_state == old(storage)@.global_state,
                code_hashes(storage.contracts@) == contracts,
                global_tree.root_hash() == self.global_root,
                nodes0.submap_of(storage.nodes@),
                whole ==> {
                    &&& resolve(nodes0, self.global_root, HEIGHT as nat) is Some
                    &&& tables_closed(storage.nodes@, storage.contract_states@)
                    &&& updates_replayable(
                        storage.nodes@,
                        contracts,
                        base,
                        states0,
                        updates@.take(j as int),
                    )
                    &&& replay_updates(
                        storage.nodes@,
                        contracts,
                        base,
                        states0,
                        updates@.take(j as int),
                    ) == (Progress {
                        states: storage.contract_states@,
                        assigned: global_tree.pending(),
                    })
                },
                clear ==> grown_within(
                    storage.nodes@,
                    nodes0,
                    replay_nodes(nodes0, contracts, base, states0, updates@.take(j as int)),
                ),
            decreases updates@.len() - j,
        {
            let ghost before = *storage;
            let ghost assigned = global_tree.pending();
            let update: &ContractUpdate = &updates[j];
            proof {
                if clear {
                    let done = updates@.take(j as int);
                    let next = updates@.take(j + 1);
                    assert(next.drop_last() =~= done);
                    assert(next.last() == updates@[j as int]);
                    lemma_replay_prefix(nodes0, contracts, base, states0, updates@, j as int);
                    lemma_replay_prefix(nodes0, contracts, base, states0, updates@, j + 1);
                    lemma_replay_updates_grows(nodes0, before.nodes@, contracts, base, states0, done);
                    let present = present_hash(base, assigned, update.address);
                    let root = root_of(before.contract_states@, present);
                    lemma_resolve_grows(nodes0, before.nodes@, root, HEIGHT as nat);
                    let shape = next_shape(nodes0, before.contract_states@, present, *update);
                    assert(shape == next_shape(
                        before.nodes@,
                        before.contract_states@,
                        present,
                        *update,
                    ));
                    assert(shape_nodes(shape).subset_of(
                        replay_nodes(nodes0, contracts, base, states0, next),
                    ));
                    lemma_grown_wider(
                        before.nodes@,
                        nodes0,
                        replay_nodes(nodes0, contracts, base, states0, done),
                        all_nodes,
                    );
                    lemma_fits_grown(before.nodes@, nodes0, all_nodes);
                    lemma_fits_part(before.nodes@, all_nodes, shape_nodes(shape));
                }
            }
            proof {
                assert(updates@.take(j + 1).drop_last() =~= updates@.take(j as int));
                assert(updates@.take(j + 1).last() == updates@[j as int]);
                if whole {
                    lemma_resolve_grows(nodes0, before.nodes@, self.global_root, HEIGHT as nat);
                    assert(global_tree.well_formed(before.nodes@));
                    let present = global_tree.value_at(before.nodes@, update.address);
                    assert(present == present_hash(base, assigned, update.address));
                    if before.contract_states@.contains_key(present) {
                        assert(resolve(
                            before.nodes@,
                            before.contract_states@[present].storage_root,
                            HEIGHT as nat,
                        ) is Some);
                    }
                    assert(resolve(
                        before.nodes@,
                        root_of(before.contract_states@, present),
                        HEIGHT as nat,
                    ) is Some);
                }
            }
            let state_hash: ContractStateHash = match update_contract_state(
                update,
                &global_tree,
                storage,
            ) {
                Ok(hash) => hash,
                Err(e) => {
                    proof {
                        lemma_grown_from_trans(storage@, before@, old(storage)@);
                    }
                    return Err(e);
                },
            };
            proof {
                lemma_grown_from_trans(storage@, before@, old(storage)@);
                lemma_store_grows(before.nodes, storage.nodes);
                lemma_submap(nodes0, before.nodes@, storage.nodes@);
                if whole {
                    let present = present_hash(base, assigned, update.address);
                    let root = root_of(before.contract_states@, present);
                    lemma_replay_updates_grows(
                        before.nodes@,
                        storage.nodes@,
                        contracts,
                        base,
                        states0,
                        updates@.take(j as int),
                    );
                    lemma_resolve_grows(before.nodes@, storage.nodes@, root, HEIGHT as nat);
                    assert forall|hash: Felt| #[trigger]
                        storage.contract_states@.contains_key(hash) implies resolve(
                        storage.nodes@,
                        storage.contract_states@[hash].storage_root,
                        HEIGHT as nat,
                    ) is Some by {
                        if before.contract_states@.contains_key(hash) {
                            lemma_resolve_grows(
                                before.nodes@,
                                storage.nodes@,
                                before.contract_states@[hash].storage_root,
                                HEIGHT as nat,
                            );
                        }
                    }
                }
            }
            match global_tree.set(update.address, state_hash) {
                Ok(()) => {},
                Err(e) => {
                    return Err(UpdateError::Trie(e));
                },
            }
            proof {
                if clear {
                    let present = present_hash(base, assigned, update.address);
                    let shape = next_shape(nodes0, before.contract_states@, present, *update);
                    lemma_grown_within(
                        storage.nodes@,
                        before.nodes@,
                        nodes0,
                        shape_nodes(shape),
                        replay_nodes(nodes0, contracts, base, states0, updates@.take(j as int)),
                        replay_nodes(nodes0, contracts, base, states0, updates@.take(j + 1)),
                    );
                }
                if whole {
                    let done = updates@.take(j + 1);
                    let present = present_hash(base, assigned, update.address);
                    let earlier = replay_updates(
                        storage.nodes@,
                        contracts,
                        base,
                        states0,
                        done.drop_last(),
                    );
                    assert(earlier == (Progress {
                        states: before.contract_states@,
                        assigned,
                    }));
                    assert(next_preimage(
                        storage.nodes@,
                        earlier.states,
                        contracts,
                        present,
                        *update,
                    ) == next_preimage(
                        before.nodes@,
                        before.contract_states@,
                        contracts,
                        present,
                        *update,
                    ));
                    assert(updates_replayable(storage.nodes@, contracts, base, states0, done));
                    assert(replay_updates(storage.nodes@, contracts, base, states0, done).assigned
                        =~= global_tree.pending());
                }
            }
            j += 1;
        }
        proof {
            assert(updates@.take(j as int) =~= updates@);
            if whole {
                lemma_resolve_grows(nodes0, storage.nodes@, self.global_root, HEIGHT as nat);
            }
        }
        let ghost before = *storage;
        proof {
            if clear {
                lemma_replay_updates_grows(nodes0, before.nodes@, contracts, base, states0, updates@);
                lemma_grown_wider(
                    before.nodes@,
                    nodes0,
                    replay_nodes(nodes0, contracts, base, states0, updates@),
                    all_nodes,
                );
                lemma_fits_grown(before.nodes@, nodes0, all_nodes);
                lemma_fits_part(
                    before.nodes@,
                    all_nodes,
                    shape_nodes(replayed_shape(nodes0, contracts, base, states0, updates@)),
                );
            }
        }
        let applied = global_tree.apply(&mut storage.nodes);
        proof {
            lemma_grown_from_self(before@);
            lemma_grown_from_trans(storage@, before@, old(storage)@);
            if whole {
                lemma_replay_updates_grows(
                    before.nodes@,
                    storage.nodes@,
                    contracts,
                    base,
                    states0,
                    updates@,
                );
                assert forall|hash: Felt| #[trigger]
                    storage.contract_states@.contains_key(hash) implies resolve(
                    storage.nodes@,
                    storage.contract_states@[hash].storage_root,
                    HEIGHT as nat,
                ) is Some by {
                    lemma_resolve_grows(
                        before.nodes@,
                        storage.nodes@,
                        before.contract_states@[hash].storage_root,
                        HEIGHT as nat,
                    );
                }
            }
        }
        match applied {
            Ok(root) => Ok(root),
            Err(e) => Err(UpdateError::Trie(e)),
        }
    }
}

} // verus!
