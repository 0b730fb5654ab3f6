use starknet_state::felt::Felt;
use starknet_state::hash::pedersen_hash;
use starknet_state::node::{NodeStore, TrieNode};
use starknet_state::tree::MerkleTree;
use starknet_state::trie::TrieError;

fn f(v: u64) -> Felt {
    Felt::from_u64(v)
}

fn edge_hash(child: Felt, path: Felt, length: u8) -> Felt {
    pedersen_hash(child, path).field_add(&f(length as u64))
}

#[test]
fn empty_trie_roundtrip() {
    let mut store = NodeStore::new();
    let mut tree = MerkleTree::load(Felt::zero());
    assert_eq!(tree.get(&store, f(1)), Ok(Felt::zero()));
    assert_eq!(tree.get(&store, f(123456)), Ok(Felt::zero()));
    assert_eq!(tree.apply(&mut store), Ok(Felt::zero()));
    assert_eq!(store.len(), 0);
}

#[test]
fn single_leaf() {
    let mut store = NodeStore::new();
    let mut tree = MerkleTree::load(Felt::zero());
    tree.set(f(1), f(0xABCD)).unwrap();
    let root = tree.apply(&mut store).unwrap();
    assert_eq!(root, edge_hash(f(0xABCD), f(1), 251));
    assert_eq!(
        store.get(root),
        Some(TrieNode::Edge { path: f(1), length: 251, child: f(0xABCD) })
    );
    let reloaded = MerkleTree::load(root);
    assert_eq!(reloaded.get(&store, f(1)), Ok(f(0xABCD)));
    assert_eq!(reloaded.get(&store, f(2)), Ok(Felt::zero()));
}

#[test]
fn delete_to_empty() {
    let mut store = NodeStore::new();
    let mut tree = MerkleTree::load(Felt::zero());
    tree.set(f(1), f(0xAB)).unwrap();
    let r1 = tree.apply(&mut store).unwrap();
    assert_ne!(r1, Felt::zero());
    let mut again = MerkleTree::load(r1);
    again.set(f(1), Felt::zero()).unwrap();
    assert_eq!(again.apply(&mut store), Ok(Felt::zero()));
}

#[test]
fn two_leaves_fork_at_the_last_digit() {
    // keys 2 (..10) and 3 (..11) share 250 digits and part at the last one
    let mut store = NodeStore::new();
    let mut tree = MerkleTree::load(Felt::zero());
    tree.set(f(2), f(20)).unwrap();
    tree.set(f(3), f(30)).unwrap();
    let root = tree.apply(&mut store).unwrap();
    let fork = pedersen_hash(f(20), f(30));
    assert_eq!(root, edge_hash(fork, f(1), 250));
    assert_eq!(store.get(fork), Some(TrieNode::Binary { left: f(20), right: f(30) }));
}

#[test]
fn fork_in_the_middle_has_edges_below() {
    // keys 0b01 and 0b10 part at the second digit from the end
    let mut store = NodeStore::new();
    let mut tree = MerkleTree::load(Felt::zero());
    tree.set(f(1), f(11)).unwrap();
    tree.set(f(2), f(22)).unwrap();
    let root = tree.apply(&mut store).unwrap();
    let left = edge_hash(f(11), f(1), 1);
    let right = edge_hash(f(22), f(0), 1);
    let fork = pedersen_hash(left, right);
    assert_eq!(root, edge_hash(fork, f(0), 249));
}

#[test]
fn get_sees_pending_assignments() {
    let store = NodeStore::new();
    let mut tree = MerkleTree::load(Felt::zero());
    tree.set(f(7), f(1)).unwrap();
    tree.set(f(8), f(2)).unwrap();
    tree.set(f(7), f(3)).unwrap();
    assert_eq!(tree.get(&store, f(7)), Ok(f(3)));
    assert_eq!(tree.get(&store, f(8)), Ok(f(2)));
    assert_eq!(tree.get(&store, f(9)), Ok(Felt::zero()));
    tree.set(f(8), Felt::zero()).unwrap();
    assert_eq!(tree.get(&store, f(8)), Ok(Felt::zero()));
}

#[test]
fn later_set_wins_within_one_apply() {
    let mut store = NodeStore::new();
    let mut tree = MerkleTree::load(Felt::zero());
    tree.set(f(5), f(1)).unwrap();
    tree.set(f(5), f(2)).unwrap();
    let root = tree.apply(&mut store).unwrap();
    let mut other = MerkleTree::load(Felt::zero());
    other.set(f(5), f(2)).unwrap();
    assert_eq!(other.apply(&mut store), Ok(root));
    assert_eq!(MerkleTree::load(root).get(&store, f(5)), Ok(f(2)));
}

#[test]
fn root_does_not_depend_on_order() {
    let entries = [(1u64, 10u64), (2, 20), (3, 30), (1000, 40), (0, 50), (u64::MAX, 60)];
    let mut store = NodeStore::new();
    let mut forward = MerkleTree::load(Felt::zero());
    for (k, v) in entries.iter() {
        forward.set(f(*k), f(*v)).unwrap();
    }
    let a = forward.apply(&mut store).unwrap();
    let mut other_store = NodeStore::new();
    let mut backward = MerkleTree::load(Felt::zero());
    for (k, v) in entries.iter().rev() {
        backward.set(f(*k), f(*v)).unwrap();
    }
    let b = backward.apply(&mut other_store).unwrap();
    assert_eq!(a, b);
    // built in two steps, with a detour
    let mut stepwise = MerkleTree::load(Felt::zero());
    stepwise.set(f(3), f(30)).unwrap();
    stepwise.set(f(77), f(7)).unwrap();
    stepwise.apply(&mut store).unwrap();
    for (k, v) in entries.iter() {
        stepwise.set(f(*k), f(*v)).unwrap();
    }
    stepwise.set(f(77), Felt::zero()).unwrap();
    assert_eq!(stepwise.apply(&mut store), Ok(a));
    for (k, v) in entries.iter() {
        assert_eq!(MerkleTree::load(a).get(&store, f(*k)), Ok(f(*v)));
    }
    assert_eq!(MerkleTree::load(a).get(&store, f(77)), Ok(Felt::zero()));
}

#[test]
fn apply_without_updates_is_a_no_op() {
    let mut store = NodeStore::new();
    let mut tree = MerkleTree::load(Felt::zero());
    tree.set(f(1), f(2)).unwrap();
    tree.set(f(3), f(4)).unwrap();
    let root = tree.apply(&mut store).unwrap();
    let nodes = store.len();
    assert_eq!(tree.apply(&mut store), Ok(root));
    assert_eq!(tree.apply(&mut store), Ok(root));
    assert_eq!(store.len(), nodes);
    assert_eq!(tree.root(), root);
}

#[test]
fn old_roots_stay_readable() {
    let mut store = NodeStore::new();
    let mut tree = MerkleTree::load(Felt::zero());
    tree.set(f(1), f(10)).unwrap();
    tree.set(f(2), f(20)).unwrap();
    let first = tree.apply(&mut store).unwrap();
    tree.set(f(1), f(11)).unwrap();
    tree.set(f(2), Felt::zero()).unwrap();
    let second = tree.apply(&mut store).unwrap();
    assert_ne!(first, second);
    assert_eq!(MerkleTree::load(first).get(&store, f(1)), Ok(f(10)));
    assert_eq!(MerkleTree::load(first).get(&store, f(2)), Ok(f(20)));
    assert_eq!(MerkleTree::load(second).get(&store, f(1)), Ok(f(11)));
    assert_eq!(MerkleTree::load(second).get(&store, f(2)), Ok(Felt::zero()));
}

#[test]
fn keys_of_252_bits_are_refused() {
    let mut bytes = [0u8; 32];
    bytes[0] = 0x08;
    let big = Felt::from_be_bytes(bytes).unwrap();
    let store = NodeStore::new();
    let mut tree = MerkleTree::load(Felt::zero());
    assert_eq!(tree.set(big, f(1)), Err(TrieError::KeyOutOfRange));
    assert_eq!(tree.get(&store, big), Err(TrieError::KeyOutOfRange));
}

#[test]
fn missing_node_is_reported() {
    let store = NodeStore::new();
    let tree = MerkleTree::load(f(12345));
    assert_eq!(tree.get(&store, f(1)), Err(TrieError::MissingNode));
}

#[test]
fn put_is_idempotent() {
    let mut store = NodeStore::new();
    let node = TrieNode::Binary { left: f(1), right: f(2) };
    let h1 = store.put(node);
    let h2 = store.put(node);
    assert_eq!(h1, h2);
    assert_eq!(h1, pedersen_hash(f(1), f(2)));
    assert_eq!(store.len(), 1);
    assert_eq!(store.get(h1), Some(node));
    assert_eq!(store.get(f(99)), None);
    assert_eq!(TrieNode::Leaf { value: f(9) }.hash(), f(9));
}

#[test]
fn leaf_above_the_bottom_is_malformed() {
    let mut store = NodeStore::new();
    let root = store.put(TrieNode::Leaf { value: f(77) });
    assert_eq!(root, f(77));
    assert_eq!(MerkleTree::load(root).get(&store, f(1)), Err(TrieError::MalformedNode));
}

#[test]
fn edge_longer_than_the_trie_is_malformed() {
    let mut store = NodeStore::new();
    let fork = store.put(TrieNode::Binary { left: f(1), right: f(2) });
    // below a fork at the top there are 250 digits left, not 251
    let edge = store.put(TrieNode::Edge { path: f(0), length: 251, child: f(5) });
    let root = store.put(TrieNode::Binary { left: edge, right: fork });
    assert_eq!(MerkleTree::load(root).get(&store, f(0)), Err(TrieError::MalformedNode));
    let empty_edge = store.put(TrieNode::Edge { path: f(0), length: 0, child: f(5) });
    assert_eq!(MerkleTree::load(empty_edge).get(&store, f(0)), Err(TrieError::MalformedNode));
}

#[test]
fn reading_stops_where_the_key_leaves_an_edge() {
    let mut store = NodeStore::new();
    // an edge for key 1 whose child is not in the store: other keys never reach it
    let root = store.put(TrieNode::Edge { path: f(1), length: 250, child: f(0xDEAD) });
    assert_eq!(MerkleTree::load(root).get(&store, f(0)), Ok(Felt::zero()));
    assert_eq!(MerkleTree::load(root).get(&store, f(2)), Err(TrieError::MissingNode));
}

#[test]
fn clash_of_hashes_is_reported() {
    let mut store = NodeStore::new();
    // another node already sits under the hash that the new fork will have
    let fork = pedersen_hash(f(20), f(30));
    assert_eq!(store.put(TrieNode::Leaf { value: fork }), fork);
    let mut tree = MerkleTree::load(Felt::zero());
    tree.set(f(2), f(20)).unwrap();
    tree.set(f(3), f(30)).unwrap();
    assert_eq!(tree.apply(&mut store), Err(TrieError::HashCollision));
    // the trie is as it was and can be applied elsewhere
    assert_eq!(tree.root(), Felt::zero());
    assert_eq!(tree.get(&store, f(3)), Ok(f(30)));
    let mut other = NodeStore::new();
    assert_eq!(tree.apply(&mut other), Ok(edge_hash(fork, f(1), 250)));
}

#[test]
fn deleting_one_of_two_leaves_merges_the_edges() {
    let mut store = NodeStore::new();
    let mut tree = MerkleTree::load(Felt::zero());
    tree.set(f(1), f(11)).unwrap();
    tree.set(f(2), f(22)).unwrap();
    let both = tree.apply(&mut store).unwrap();
    let mut reloaded = MerkleTree::load(both);
    reloaded.set(f(2), Felt::zero()).unwrap();
    let one = reloaded.apply(&mut store).unwrap();
    assert_eq!(one, edge_hash(f(11), f(1), 251));
    assert_eq!(MerkleTree::load(one).get(&store, f(1)), Ok(f(11)));
    assert_eq!(MerkleTree::load(one).get(&store, f(2)), Ok(Felt::zero()));
}

#[test]
fn setting_zero_for_an_absent_key_changes_nothing() {
    let mut store = NodeStore::new();
    let mut tree = MerkleTree::load(Felt::zero());
    tree.set(f(9), f(90)).unwrap();
    let root = tree.apply(&mut store).unwrap();
    tree.set(f(5), Felt::zero()).unwrap();
    assert_eq!(tree.apply(&mut store), Ok(root));
}

#[test]
fn nodes_are_stored_as_tagged_bytes() {
    let leaf = TrieNode::Leaf { value: f(0xABCD) };
    let mut expected = vec![0u8; 33];
    expected[31] = 0xAB;
    expected[32] = 0xCD;
    assert_eq!(leaf.encode(), expected);

    let edge = TrieNode::Edge { path: f(5), length: 3, child: f(9) };
    let bytes = edge.encode();
    assert_eq!(bytes.len(), 66);
    assert_eq!(&bytes[..2], &[1, 3]);
    assert_eq!(bytes[33], 5);
    assert_eq!(bytes[65], 9);

    let fork = TrieNode::Binary { left: f(1), right: f(2) };
    let bytes = fork.encode();
    assert_eq!(bytes.len(), 65);
    assert_eq!(bytes[0], 2);
    assert_eq!(bytes[32], 1);
    assert_eq!(bytes[64], 2);

    for node in [leaf, edge, fork] {
        assert_eq!(TrieNode::decode(&node.encode()), Some(node));
    }
}

#[test]
fn malformed_node_bytes_are_refused() {
    assert_eq!(TrieNode::decode(&[]), None);
    assert_eq!(TrieNode::decode(&[0u8; 32]), None);
    assert_eq!(TrieNode::decode(&[0u8; 34]), None);
    // a tag that no kind of node has
    assert_eq!(TrieNode::decode(&[3u8; 33]), None);
    // the tag of a fork with the length of a leaf
    let mut bytes = vec![0u8; 33];
    bytes[0] = 2;
    assert_eq!(TrieNode::decode(&bytes), None);
    // bytes that are no field element
    let mut bytes = vec![0xffu8; 33];
    bytes[0] = 0;
    assert_eq!(TrieNode::decode(&bytes), None);
    let mut bytes = TrieNode::Binary { left: f(1), right: f(2) }.encode();
    bytes[33] = 0xff;
    assert_eq!(TrieNode::decode(&bytes), None);
}

#[test]
fn whole_tries_are_recognised() {
    let mut store = NodeStore::new();
    assert!(MerkleTree::load(Felt::zero()).is_whole(&store));
    let mut tree = MerkleTree::load(Felt::zero());
    for (k, v) in [(1u64, 10u64), (2, 20), (300, 30)] {
        tree.set(f(k), f(v)).unwrap();
    }
    let root = tree.apply(&mut store).unwrap();
    assert!(MerkleTree::load(root).is_whole(&store));
    assert_eq!(starknet_state::trie::inspect(&store, root, 251), Some(starknet_state::trie::Kind::Edge));
    // a root that the store does not have
    assert!(!MerkleTree::load(f(999)).is_whole(&store));
    // a store that has lost the nodes below the top
    let top = store.get(root).unwrap();
    let mut partial = NodeStore::new();
    partial.put(top);
    assert!(!MerkleTree::load(root).is_whole(&partial));
    // a fork with an empty side is not canonical
    let mut odd = NodeStore::new();
    let lopsided = odd.put(TrieNode::Binary { left: Felt::zero(), right: f(5) });
    assert_eq!(starknet_state::trie::inspect(&odd, lopsided, 1), None);
    // an edge whose path has digits beyond its length is not canonical
    let stray = odd.put(TrieNode::Edge { path: f(4), length: 2, child: f(5) });
    assert_eq!(starknet_state::trie::inspect(&odd, stray, 2), None);
    let tidy = odd.put(TrieNode::Edge { path: f(3), length: 2, child: f(5) });
    assert_eq!(starknet_state::trie::inspect(&odd, tidy, 2), Some(starknet_state::trie::Kind::Edge));
}
