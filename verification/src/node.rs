//! Trie nodes, their hashes, and the content-addressed store that keeps
//! them.

use crate::felt::{felt_of, modulus, Felt};
use crate::felt_map::{extends, lemma_log_map_prefix, log_map, FeltMap};
use crate::hash::{pedersen_hash, pedersen_spec};
use vstd::prelude::*;

verus! {

/// A node of a Merkle-Patricia trie. Children are named by their hashes.
#[derive(Clone, Copy, Debug, PartialEq, Eq, Structural)]
pub enum TrieNode {
    /// A value at the bottom of the trie.
    Leaf { value: Felt },
    /// A run of `length` single-child steps; `path` holds the steps as a
    /// number, the first step in its most significant digit.
    Edge { path: Felt, length: u8, child: Felt },
    /// A fork with a left (digit 0) and a right (digit 1) child.
    Binary { left: Felt, right: Felt },
}

/// The hash of a node: a leaf is its own hash, a fork hashes its children,
/// an edge hashes child and path and then adds its length in the field.
pub open spec fn node_hash_spec(node: TrieNode) -> Felt {
    match node {
        TrieNode::Leaf { value } => value,
        TrieNode::Edge { path, length, child } => felt_of(
            (pedersen_spec(child, path)@ + length as nat) % modulus(),
        ),
        TrieNode::Binary { left, right } => pedersen_spec(left, right),
    }
}

/// The field element that the 32 bytes from position `at` on encode, if
/// they encode one.
pub open spec fn felt_at(s: Seq<u8>, at: int) -> Option<Felt> {
    Felt::parse(s.subrange(at, at + 32))
}

/// The bytes that a node is stored as: a tag for its kind, for an edge its
/// length, and then its field elements, each as 32 big-endian bytes.
pub open spec fn encode_spec(node: TrieNode) -> Seq<u8> {
    match node {
        TrieNode::Leaf { value } => seq![0u8] + value.encode(),
        TrieNode::Edge { path, length, child } => seq![1u8, length] + path.encode() + child.encode(),
        TrieNode::Binary { left, right } => seq![2u8] + left.encode() + right.encode(),
    }
}

/// The node that bytes are the stored form of, if they are that of any.
pub open spec fn decode_spec(s: Seq<u8>) -> Option<TrieNode> {
    if s.len() == 33 && s[0] == 0 {
        match felt_at(s, 1) {
            Some(value) => Some(TrieNode::Leaf { value }),
            None => None,
        }
    } else if s.len() == 66 && s[0] == 1 {
        match (felt_at(s, 2), felt_at(s, 34)) {
            (Some(path), Some(child)) => Some(TrieNode::Edge { path, length: s[1], child }),
            _ => None,
        }
    } else if s.len() == 65 && s[0] == 2 {
        match (felt_at(s, 1), felt_at(s, 33)) {
            (Some(left), Some(right)) => Some(TrieNode::Binary { left, right }),
            _ => None,
        }
    } else {
        None
    }
}

/// Whether the field elements of a node are below the modulus, as those of
/// every node in memory are.
pub open spec fn in_field(node: TrieNode) -> bool {
    match node {
        TrieNode::Leaf { value } => value@ < modulus(),
        TrieNode::Edge { path, length, child } => path@ < modulus() && child@ < modulus(),
        TrieNode::Binary { left, right } => left@ < modulus() && right@ < modulus(),
    }
}

/// A node is read back from the bytes that it is stored as.
pub proof fn lemma_node_roundtrip(node: TrieNode)
    requires
        in_field(node),
    ensures
        decode_spec(encode_spec(node)) == Some(node),
{
    let s = encode_spec(node);
    match node {
        TrieNode::Leaf { value } => {
            Felt::lemma_encode(value);
            assert(s.subrange(1, 33) =~= value.encode());
        },
        TrieNode::Edge { path, length, child } => {
            Felt::lemma_encode(path);
            Felt::lemma_encode(child);
            assert(s.subrange(2, 34) =~= path.encode());
            assert(s.subrange(34, 66) =~= child.encode());
        },
        TrieNode::Binary { left, right } => {
            Felt::lemma_encode(left);
            Felt::lemma_encode(right);
            assert(s.subrange(1, 33) =~= left.encode());
            assert(s.subrange(33, 65) =~= right.encode());
        },
    }
}

/// Appends the 32 bytes of a field element.
fn append_felt(out: &mut Vec<u8>, f: Felt)
    ensures
        final(out)@ == old(out)@ + f.encode(),
{
    let bytes: [u8; 32] = f.to_be_bytes();
    let mut i: usize = 0;
    while i < 32
        invariant
            i <= 32,
            bytes@ == f.encode(),
            out@ == old(out)@ + bytes@.take(i as int),
        decreases 32 - i,
    {
        out.push(bytes[i]);
        proof {
            assert(bytes@.take(i + 1) =~= bytes@.take(i as int).push(bytes@[i as int]));
        }
        i += 1;
    }
    proof {
        assert(bytes@.take(32) =~= bytes@);
    }
}

/// Reads a field element from the 32 bytes at position `at`.
fn read_felt(bytes: &[u8], at: usize) -> (f: Option<Felt>)
    requires
        at + 32 <= bytes@.len(),
    ensures
        f == felt_at(bytes@, at as int),
{
    let end: usize = bytes.len();
    let mut word: [u8; 32] = [0u8; 32];
    let mut i: usize = 0;
    while i < 32
        invariant
            i <= 32,
            at + 32 <= bytes@.len() == end,
            forall|k: int| 0 <= k < i ==> word@[k] == bytes@[at + k],
        decreases 32 - i,
    {
        word[i] = bytes[at + i];
        i += 1;
    }
    proof {
        assert(word@ =~= bytes@.subrange(at as int, at + 32));
    }
    match Felt::from_be_bytes(word) {
        Ok(f) => Some(f),
        Err(_) => None,
    }
}

impl TrieNode {
    /// The bytes that the node is stored as.
    pub fn encode(&self) -> (bytes: Vec<u8>)
        ensures
            bytes@ == encode_spec(*self),
    {
        let mut bytes: Vec<u8> = Vec::new();
        match *self {
            TrieNode::Leaf { value } => {
                bytes.push(0);
                append_felt(&mut bytes, value);
            },
            TrieNode::Edge { path, length, child } => {
                bytes.push(1);
                bytes.push(length);
                append_felt(&mut bytes, path);
                append_felt(&mut bytes, child);
            },
            TrieNode::Binary { left, right } => {
                bytes.push(2);
                append_felt(&mut bytes, left);
                append_felt(&mut bytes, right);
            },
        }
        proof {
            assert(bytes@ =~= encode_spec(*self));
        }
        bytes
    }

    /// The node that `bytes` are the stored form of; `None` unless they have
    /// the tag and the length of a kind of node and hold field elements.
    pub fn decode(bytes: &[u8]) -> (node: Option<TrieNode>)
        ensures
            node == decode_spec(bytes@),
    {
        let n: usize = bytes.len();
        if n == 33 && bytes[0] == 0 {
            match read_felt(bytes, 1) {
                Some(value) => Some(TrieNode::Leaf { value }),
                None => None,
            }
        } else if n == 66 && bytes[0] == 1 {
            match (read_felt(bytes, 2), read_felt(bytes, 34)) {
                (Some(path), Some(child)) => Some(TrieNode::Edge { path, length: bytes[1], child }),
                _ => None,
            }
        } else if n == 65 && bytes[0] == 2 {
            match (read_felt(bytes, 1), read_felt(bytes, 33)) {
                (Some(left), Some(right)) => Some(TrieNode::Binary { left, right }),
                _ => None,
            }
        } else {
            None
        }
    }

    /// The hash that identifies the node.
    pub fn hash(&self) -> (h: Felt)
        ensures
            h == node_hash_spec(*self),
    {
        match *self {
            TrieNode::Leaf { value } => value,
            TrieNode::Edge { path, length, child } => {
                let inner: Felt = pedersen_hash(child, path);
                let len: Felt = Felt::from_u64(length as u64);
                inner.field_add(&len)
            },
            TrieNode::Binary { left, right } => pedersen_hash(left, right),
        }
    }
}

/// Trie nodes keyed by their hashes.
pub struct NodeStore {
    nodes: FeltMap<TrieNode>,
}

impl View for NodeStore {
    type V = Map<Felt, TrieNode>;

    closed spec fn view(&self) -> Map<Felt, TrieNode> {
        self.nodes@
    }
}

impl NodeStore {
    /// The nodes with their hashes, in the order of their arrival.
    pub closed spec fn log(&self) -> Seq<(Felt, TrieNode)> {
        self.nodes.log()
    }

    /// The store always holds what its log denotes.
    pub proof fn lemma_view(&self)
        ensures
            self@ == log_map(self.log()),
    {
    }

    /// The empty store.
    pub fn new() -> (store: NodeStore)
        ensures
            store@ == Map::<Felt, TrieNode>::empty(),
            store.log() == Seq::<(Felt, TrieNode)>::empty(),
    {
        NodeStore { nodes: FeltMap::new() }
    }

    /// The number of nodes held.
    pub fn len(&self) -> (n: usize)
        ensures
            n == self.log().len(),
    {
        self.nodes.len()
    }

    /// The node at position `index` in the order of arrival.
    pub fn entry(&self, index: usize) -> (e: Option<(Felt, TrieNode)>)
        ensures
            e == if index < self.log().len() {
                Some(self.log()[index as int])
            } else {
                None
            },
    {
        match self.nodes.entry(index) {
            Some(e) => Some(*e),
            None => None,
        }
    }

    /// The node stored under `hash`, if any.
    pub fn get(&self, hash: Felt) -> (node: Option<TrieNode>)
        ensures
            node == if self@.contains_key(hash) {
                Some(self@[hash])
            } else {
                None
            },
    {
        match self.nodes.get(hash) {
            Some(node) => Some(*node),
            None => None,
        }
    }

    /// Computes the hash of `node` and stores the node under it, unless a
    /// node is stored there already; returns the hash.
    pub fn put(&mut self, node: TrieNode) -> (hash: Felt)
        ensures
            hash == node_hash_spec(node),
            final(self)@ == if old(self)@.contains_key(hash) {
                old(self)@
            } else {
                old(self)@.insert(hash, node)
            },
            final(self).log() == if old(self)@.contains_key(hash) {
                old(self).log()
            } else {
                old(self).log().push((hash, node))
            },
    {
        let hash: Felt = node.hash();
        self.nodes.insert(hash, node);
        hash
    }

    /// Forgets every node that arrived after the first `len`.
    pub fn rewind(&mut self, len: usize)
        ensures
            final(self).log() == if len <= old(self).log().len() {
                old(self).log().take(len as int)
            } else {
                old(self).log()
            },
    {
        self.nodes.truncate(len);
    }
}

/// A store whose log has been continued holds what it held.
pub proof fn lemma_store_grows(before: NodeStore, after: NodeStore)
    requires
        extends(after.log(), before.log()),
    ensures
        before@.submap_of(after@),
{
    before.lemma_view();
    after.lemma_view();
    lemma_log_map_prefix(after.log(), before.log().len() as int);
}

} // verus!
