//! A Merkle-Patricia trie over a node store: a root, and the assignments
//! that wait to be written.

use crate::felt::{felt_of, key_bound, key_path, lemma_low_bits_len, Felt};
use crate::felt_map::extends;
use crate::node::{NodeStore, TrieNode};
use crate::shape::{canonical, lemma_canonical_unique, lemma_shape_set, lookup, shape_set, Shape};
use crate::trie::{
    commit, descend, fetch, fits, grown_within, insert, inspect, lemma_descend, lemma_resolve,
    node_shape, resolve, shape_hash, shape_nodes, HEIGHT, Node, TrieError,
};
use vstd::prelude::*;

verus! {

/// What a key is mapped to once the assignments in `updates` have been made,
/// in order, to a key that was mapped to `base`.
pub open spec fn overlay(base: Felt, updates: Seq<(Felt, Felt)>, key: Felt) -> Felt
    decreases updates.len(),
{
    if updates.len() == 0 {
        base
    } else if updates.last().0 == key {
        updates.last().1
    } else {
        overlay(base, updates.drop_last(), key)
    }
}

/// Whether some assignment in `updates` is to `key`.
pub open spec fn assigns(updates: Seq<(Felt, Felt)>, key: Felt) -> bool {
    exists|i: int| 0 <= i < updates.len() && (#[trigger] updates[i]).0 == key
}

/// The trie after the assignments in `updates` have been made, in order.
pub open spec fn replay(s: Shape, updates: Seq<(Felt, Felt)>) -> Shape
    decreases updates.len(),
{
    if updates.len() == 0 {
        s
    } else {
        shape_set(replay(s, updates.drop_last()), key_path(updates.last().0), updates.last().1)
    }
}

/// Whether every assignment is to a key below `2^251`.
pub open spec fn keys_in_range(updates: Seq<(Felt, Felt)>) -> bool {
    forall|i: int| 0 <= i < updates.len() ==> (#[trigger] updates[i]).0@ < key_bound()
}

/// Replaying assignments keeps the canonical form and maps every key as
/// `overlay` says.
pub proof fn lemma_replay(s: Shape, updates: Seq<(Felt, Felt)>)
    requires
        canonical(s, HEIGHT as nat),
        keys_in_range(updates),
    ensures
        canonical(replay(s, updates), HEIGHT as nat),
        forall|key: Felt|
            key@ < key_bound() ==> #[trigger] lookup(replay(s, updates), key_path(key)) == overlay(
                lookup(s, key_path(key)),
                updates,
                key,
            ),
    decreases updates.len(),
{
    if updates.len() > 0 {
        let earlier = updates.drop_last();
        let last = updates.last();
        assert(keys_in_range(earlier)) by {
            assert forall|i: int| 0 <= i < earlier.len() implies (#[trigger] earlier[i]).0@
                < key_bound() by {
                assert(earlier[i] == updates[i]);
            }
        }
        lemma_replay(s, earlier);
        let before = replay(s, earlier);
        lemma_low_bits_len(last.0@, HEIGHT as nat);
        lemma_shape_set(before, key_path(last.0), last.1);
        assert forall|key: Felt| key@ < key_bound() implies #[trigger] lookup(
            replay(s, updates),
            key_path(key),
        ) == overlay(lookup(s, key_path(key)), updates, key) by {
            lemma_low_bits_len(key@, HEIGHT as nat);
            if key_path(key) == key_path(last.0) {
                Felt::lemma_key_path_injective(key, last.0);
            }
        }
    }
}

/// A key that no assignment names keeps its value.
pub proof fn lemma_overlay_untouched(base: Felt, updates: Seq<(Felt, Felt)>, key: Felt)
    requires
        !assigns(updates, key),
    ensures
        overlay(base, updates, key) == base,
    decreases updates.len(),
{
    if updates.len() > 0 {
        let earlier = updates.drop_last();
        assert(updates[updates.len() - 1].0 != key);
        if assigns(earlier, key) {
            let w = choose|i: int| 0 <= i < earlier.len() && (#[trigger] earlier[i]).0 == key;
            assert(updates[w].0 == key);
        }
        lemma_overlay_untouched(base, earlier, key);
    }
}

/// A key has the value of the last assignment that names it.
pub proof fn lemma_overlay_last(base: Felt, updates: Seq<(Felt, Felt)>, key: Felt, at: int)
    requires
        0 <= at < updates.len(),
        updates[at].0 == key,
        forall|j: int| at < j < updates.len() ==> (#[trigger] updates[j]).0 != key,
    ensures
        overlay(base, updates, key) == updates[at].1,
    decreases updates.len(),
{
    if at < updates.len() - 1 {
        let earlier = updates.drop_last();
        assert(updates[updates.len() - 1].0 != key);
        assert(earlier[at] == updates[at]);
        assert forall|j: int| at < j < earlier.len() implies (#[trigger] earlier[j]).0 != key by {
            assert(earlier[j] == updates[j]);
        }
        lemma_overlay_last(base, earlier, key, at);
    }
}

/// After any sequence of assignments to the empty trie, a key to which
/// nothing was assigned has the value zero.
pub proof fn lemma_empty_trie_unassigned(tree: MerkleTree, store: Map<Felt, TrieNode>, key: Felt)
    requires
        tree.root_hash() == felt_of(0),
        !assigns(tree.pending(), key),
    ensures
        tree.well_formed(store),
        tree.value_at(store, key) == felt_of(0),
{
    lemma_overlay_untouched(felt_of(0), tree.pending(), key);
}

/// After any sequence of assignments to the empty trie, a key has the
/// value that was last assigned to it: the value of the assignment at
/// `at`, if no later one names the key.
pub proof fn lemma_empty_trie_last_assignment(
    tree: MerkleTree,
    store: Map<Felt, TrieNode>,
    key: Felt,
    at: int,
)
    requires
        tree.root_hash() == felt_of(0),
        0 <= at < tree.pending().len(),
        tree.pending()[at].0 == key,
        forall|j: int| at < j < tree.pending().len() ==> (#[trigger] tree.pending()[j]).0 != key,
    ensures
        tree.well_formed(store),
        tree.value_at(store, key) == tree.pending()[at].1,
{
    lemma_overlay_last(felt_of(0), tree.pending(), key, at);
}

/// Two stored tries that hold the same value for every key have the same
/// root.
pub proof fn lemma_equal_contents_equal_roots(
    store_a: Map<Felt, TrieNode>,
    root_a: Felt,
    store_b: Map<Felt, TrieNode>,
    root_b: Felt,
)
    requires
        resolve(store_a, root_a, HEIGHT as nat) is Some,
        resolve(store_b, root_b, HEIGHT as nat) is Some,
        forall|key: Felt|
            key@ < key_bound() ==> lookup(
                resolve(store_a, root_a, HEIGHT as nat)->0,
                #[trigger] key_path(key),
            ) == lookup(resolve(store_b, root_b, HEIGHT as nat)->0, key_path(key)),
    ensures
        root_a == root_b,
{
    let a = resolve(store_a, root_a, HEIGHT as nat)->0;
    let b = resolve(store_b, root_b, HEIGHT as nat)->0;
    lemma_resolve(store_a, root_a, HEIGHT as nat);
    lemma_resolve(store_b, root_b, HEIGHT as nat);
    lemma_same_values_same_shape(a, b);
}

/// Two canonical tries that hold the same value for every key are the
/// same trie.
pub proof fn lemma_same_values_same_shape(a: Shape, b: Shape)
    requires
        canonical(a, HEIGHT as nat),
        canonical(b, HEIGHT as nat),
        forall|key: Felt|
            key@ < key_bound() ==> lookup(a, #[trigger] key_path(key)) == lookup(b, key_path(key)),
    ensures
        a == b,
{
    assert forall|path: Seq<bool>| path.len() == HEIGHT as nat implies lookup(a, path) == lookup(
        b,
        path,
    ) by {
        Felt::lemma_path_has_key(path);
        let key = felt_of(crate::felt::bits_value(path));
        assert(key_path(key) == path);
    }
    lemma_canonical_unique(a, b, HEIGHT as nat);
}

/// The root that `apply` returns depends only on the value that each key
/// has when it is called: two tries, whatever the order and number of the
/// assignments that led to them, get the same root if they agree on every
/// key.
pub proof fn lemma_apply_root_depends_on_values(
    a: MerkleTree,
    store_a: Map<Felt, TrieNode>,
    b: MerkleTree,
    store_b: Map<Felt, TrieNode>,
)
    requires
        a.well_formed(store_a),
        b.well_formed(store_b),
        keys_in_range(a.pending()),
        keys_in_range(b.pending()),
        forall|key: Felt|
            key@ < key_bound() ==> #[trigger] a.value_at(store_a, key) == b.value_at(store_b, key),
    ensures
        shape_hash(replay(a.base(store_a), a.pending())) == shape_hash(
            replay(b.base(store_b), b.pending()),
        ),
{
    lemma_resolve(store_a, a.root_hash(), HEIGHT as nat);
    lemma_resolve(store_b, b.root_hash(), HEIGHT as nat);
    lemma_replay(a.base(store_a), a.pending());
    lemma_replay(b.base(store_b), b.pending());
    let after_a = replay(a.base(store_a), a.pending());
    let after_b = replay(b.base(store_b), b.pending());
    assert forall|key: Felt| key@ < key_bound() implies lookup(after_a, #[trigger] key_path(key))
        == lookup(after_b, key_path(key)) by {
        assert(a.value_at(store_a, key) == b.value_at(store_b, key));
    }
    lemma_same_values_same_shape(after_a, after_b);
}

/// The global trie: contract addresses to contract state hashes.
pub type GlobalTree = MerkleTree;

/// The storage trie of one contract: storage slots to storage values.
pub type ContractTree = MerkleTree;

/// A trie: the root under which the store has it, and the assignments made
/// since, which `apply` writes.
pub struct MerkleTree {
    root: Felt,
    updates: Vec<(Felt, Felt)>,
}

impl MerkleTree {
    #[verifier::type_invariant]
    spec fn in_range(self) -> bool {
        keys_in_range(self.updates@)
    }

    /// The root that the trie was loaded at or last applied to.
    pub closed spec fn root_hash(&self) -> Felt {
        self.root
    }

    /// The assignments that wait to be applied, oldest first.
    pub closed spec fn pending(&self) -> Seq<(Felt, Felt)> {
        self.updates@
    }

    /// Whether the store holds the whole trie under its root.
    pub open spec fn well_formed(&self, store: Map<Felt, TrieNode>) -> bool {
        resolve(store, self.root_hash(), HEIGHT as nat) is Some
    }

    /// The trie that the store holds under the root.
    pub open spec fn base(&self, store: Map<Felt, TrieNode>) -> Shape {
        resolve(store, self.root_hash(), HEIGHT as nat)->0
    }

    /// What reading `key` gives, whatever the store holds: a key of `2^251`
    /// or more is refused; a key with a pending assignment has the value
    /// last assigned; any other key is looked for in the store, from the
    /// root down.
    pub open spec fn reading(&self, store: Map<Felt, TrieNode>, key: Felt) -> Result<
        Felt,
        TrieError,
    > {
        if key@ >= key_bound() {
            Err(TrieError::KeyOutOfRange)
        } else if assigns(self.pending(), key) {
            Ok(overlay(felt_of(0), self.pending(), key))
        } else {
            descend(store, self.root_hash(), HEIGHT as nat, key_path(key))
        }
    }

    /// The value that the trie maps `key` to, pending assignments included.
    pub open spec fn value_at(&self, store: Map<Felt, TrieNode>, key: Felt) -> Felt {
        overlay(lookup(self.base(store), key_path(key)), self.pending(), key)
    }

    /// A view of the trie stored under `root`; zero is the empty trie.
    pub fn load(root: Felt) -> (tree: MerkleTree)
        ensures
            tree.root_hash() == root,
            tree.pending() == Seq::<(Felt, Felt)>::empty(),
    {
        MerkleTree { root, updates: Vec::new() }
    }

    /// The root that the trie was loaded at or last applied to.
    pub fn root(&self) -> (root: Felt)
        ensures
            root == self.root_hash(),
    {
        self.root
    }

    /// Whether the store holds the whole trie under its root. This walks
    /// through all of the trie.
    pub fn is_whole(&self, store: &NodeStore) -> (whole: bool)
        ensures
            whole == self.well_formed(store@),
    {
        inspect(store, self.root, HEIGHT).is_some()
    }

    /// The value of `key`: what was last assigned to it, else what the
    /// stored trie holds for it, else zero.
    #[verifier::loop_isolation(false)]
    pub fn get(&self, store: &NodeStore, key: Felt) -> (res: Result<Felt, TrieError>)
        ensures
            res == self.reading(store@, key),
            key@ < key_bound() && self.well_formed(store@) ==> res == Ok::<Felt, TrieError>(
                self.value_at(store@, key),
            ),
    {
        let path: Vec<bool> = match key.to_path() {
            Some(path) => path,
            None => {
                return Err(TrieError::KeyOutOfRange);
            },
        };
        let ghost base = lookup(self.base(store@), key_path(key));
        let mut i: usize = self.updates.len();
        proof {
            assert(self.updates@.take(i as int) =~= self.updates@);
        }
        while i > 0
            invariant
                i <= self.updates@.len(),
                forall|b: Felt| #[trigger]
                    overlay(b, self.updates@, key) == overlay(b, self.updates@.take(i as int), key),
                forall|j: int| i <= j < self.updates@.len() ==> (#[trigger] self.updates@[j]).0 != key,
            decreases i,
        {
            i -= 1;
            proof {
                assert(self.updates@.take(i + 1).drop_last() =~= self.updates@.take(i as int));
            }
            if self.updates[i].0 == key {
                proof {
                    assert(overlay(base, self.updates@, key) == self.updates@[i as int].1);
                    assert(overlay(felt_of(0), self.updates@, key) == self.updates@[i as int].1);
                }
                return Ok(self.updates[i].1);
            }
        }
        proof {
            lemma_low_bits_len(key@, HEIGHT as nat);
            assert(overlay(base, self.updates@.take(0), key) == base);
            if self.well_formed(store@) {
                lemma_descend(store@, self.root, HEIGHT as nat, key_path(key));
            }
        }
        fetch(store, self.root, &path)
    }

    /// Assigns `value` to `key`; a zero removes the key. The assignment
    /// waits until `apply`. Fails exactly when the key is `2^251` or more.
    pub fn set(&mut self, key: Felt, value: Felt) -> (res: Result<(), TrieError>)
        ensures
            final(self).root_hash() == old(self).root_hash(),
            key@ >= key_bound() ==> res == Err::<(), TrieError>(TrieError::KeyOutOfRange)
                && final(self).pending() == old(self).pending(),
            key@ < key_bound() ==> res == Ok::<(), TrieError>(())
                && final(self).pending() == old(self).pending().push((key, value)),
            key@ < key_bound() ==> forall|store: Map<Felt, TrieNode>, k: Felt| #[trigger]
                final(self).value_at(store, k) == if k == key {
                    value
                } else {
                    old(self).value_at(store, k)
                },
    {
        proof {
            use_type_invariant(&*self);
        }
        if key.to_path().is_none() {
            return Err(TrieError::KeyOutOfRange);
        }
        let mut updates: Vec<(Felt, Felt)> = Vec::new();
        core::mem::swap(&mut updates, &mut self.updates);
        updates.push((key, value));
        core::mem::swap(&mut updates, &mut self.updates);
        proof {
            assert(self.updates@.drop_last() =~= old(self).updates@);
            assert(self.updates@.last() == (key, value));
        }
        Ok(())
    }

    /// Writes the pending assignments to the store and returns the new
    /// root. With nothing pending, returns the root and leaves the store
    /// as it is. Where the store has the whole trie, the new root is that of
    /// the trie with the assignments replayed, and the only failure is a
    /// clash of hashes, which does not occur where the nodes of the new
    /// trie fit the store. A failure leaves the trie as it was.
    #[verifier::loop_isolation(false)]
    pub fn apply(&mut self, store: &mut NodeStore) -> (res: Result<Felt, TrieError>)
        ensures
            old(store)@.submap_of(final(store)@),
            extends(final(store).log(), old(store).log()),
            old(self).pending().len() == 0 ==> res == Ok::<Felt, TrieError>(
                old(self).root_hash(),
            ) && final(store).log() == old(store).log(),
            res is Err ==> final(self).root_hash() == old(self).root_hash()
                && final(self).pending() == old(self).pending(),
            res matches Err(e) ==> e != TrieError::KeyOutOfRange,
            res matches Ok(root) ==> final(self).root_hash() == root && final(self).pending().len()
                == 0,
            old(self).well_formed(old(store)@) ==> (match res {
                Ok(root) => resolve(final(store)@, root, HEIGHT as nat) == Some(
                    replay(old(self).base(old(store)@), old(self).pending()),
                ) && root == shape_hash(replay(old(self).base(old(store)@), old(self).pending())),
                Err(e) => e == TrieError::HashCollision,
            }),
            old(self).well_formed(old(store)@) ==> grown_within(
                final(store)@,
                old(store)@,
                shape_nodes(replay(old(self).base(old(store)@), old(self).pending())),
            ),
            old(self).well_formed(old(store)@) && fits(
                old(store)@,
                shape_nodes(replay(old(self).base(old(store)@), old(self).pending())),
            ) ==> res is Ok,
            old(self).well_formed(old(store)@) && res is Ok ==> forall|key: Felt|
                key@ < key_bound() ==> #[trigger] final(self).value_at(final(store)@, key)
                    == old(self).value_at(old(store)@, key),
    {
        proof {
            use_type_invariant(&*self);
            assert(store.log().take(store.log().len() as int) =~= store.log());
        }
        if self.updates.len() == 0 {
            proof {
                if self.well_formed(store@) {
                    lemma_resolve(store@, self.root, HEIGHT as nat);
                }
            }
            return Ok(self.root);
        }
        proof {
            if self.well_formed(store@) {
                lemma_resolve(store@, self.root, HEIGHT as nat);
                lemma_replay(self.base(store@), self.updates@);
            }
        }
        let ghost start = resolve(store@, self.root, HEIGHT as nat);
        let mut node: Node = Node::Stored(self.root);
        let mut i: usize = 0;
        while i < self.updates.len()
            invariant
                i <= self.updates@.len(),
                keys_in_range(self.updates@),
                start == resolve(store@, self.root, HEIGHT as nat),
                start matches Some(s) ==> node_shape(store@, node, HEIGHT as nat) == Some(
                    replay(s, self.updates@.take(i as int)),
                ),
            decreases self.updates@.len() - i,
        {
            let key: Felt = self.updates[i].0;
            let value: Felt = self.updates[i].1;
            proof {
                assert(self.updates@.take(i + 1).drop_last() =~= self.updates@.take(i as int));
                assert(self.updates@.take(i + 1).last() == self.updates@[i as int]);
                lemma_low_bits_len(key@, HEIGHT as nat);
            }
            let path: Vec<bool> = match key.to_path() {
                Some(path) => path,
                None => {
                    return Err(TrieError::KeyOutOfRange);
                },
            };
            proof {
                assert(path@.skip(0) =~= path@);
            }
            node = match insert(store, node, &path, 0, value) {
                Ok(after) => after,
                Err(e) => {
                    return Err(e);
                },
            };
            i += 1;
        }
        proof {
            assert(self.updates@.take(i as int) =~= self.updates@);
        }
        match commit(store, node, HEIGHT) {
            Ok(root) => {
                proof {
                    if start is Some {
                        lemma_resolve(store@, root, HEIGHT as nat);
                    }
                }
                self.root = root;
                self.updates = Vec::new();
                Ok(root)
            },
            Err(e) => Err(e),
        }
    }
}

} // verus!
