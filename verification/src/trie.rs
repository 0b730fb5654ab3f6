//! Tries as they lie in a node store: which trie a hash stands for, and the
//! operations that read one, change one in memory and write it back.

use crate::felt::{bits_value, felt_of, lemma_low_bits_len, lemma_value_roundtrip, low_bits, Felt};
use crate::felt_map::{extends, lemma_extends, lemma_submap};
use crate::node::{node_hash_spec, NodeStore, TrieNode};
use crate::shape::{canonical, ends_edge, extend, join, lookup, shape_set, split, Shape};
use vstd::prelude::*;

verus! {

/// The number of binary digits in a trie key.
pub const HEIGHT: usize = 251;

/// Why a trie operation failed.
#[derive(Clone, Copy, Debug, PartialEq, Eq, Structural)]
pub enum TrieError {
    /// A node that the trie refers to is not in the store.
    MissingNode,
    /// A stored node cannot stand where the trie refers to it.
    MalformedNode,
    /// A new node hashes to zero or to the hash of a different stored node.
    HashCollision,
    /// The key is `2^251` or more.
    KeyOutOfRange,
}

/// The hash of a trie: zero for the empty trie, else the hash of its top
/// node.
pub open spec fn shape_hash(s: Shape) -> Felt
    decreases s,
{
    match s {
        Shape::Empty => felt_of(0),
        Shape::Leaf { value } => value,
        Shape::Edge { path, child } => node_hash_spec(
            TrieNode::Edge {
                path: felt_of(bits_value(path)),
                length: path.len() as u8,
                child: shape_hash(*child),
            },
        ),
        Shape::Binary { left, right } => node_hash_spec(
            TrieNode::Binary { left: shape_hash(*left), right: shape_hash(*right) },
        ),
    }
}

/// The trie over paths of `height` digits that `hash` stands for in
/// `store`; `None` unless the store holds all of it, in canonical form and
/// each node under its own hash.
pub open spec fn resolve(store: Map<Felt, TrieNode>, hash: Felt, height: nat) -> Option<Shape>
    decreases height,
{
    if hash == felt_of(0) {
        Some(Shape::Empty)
    } else if height == 0 {
        Some(Shape::Leaf { value: hash })
    } else if !store.contains_key(hash) || node_hash_spec(store[hash]) != hash {
        None
    } else {
        match store[hash] {
            TrieNode::Leaf { .. } => None,
            TrieNode::Binary { left, right } => match (
                resolve(store, left, (height - 1) as nat),
                resolve(store, right, (height - 1) as nat),
            ) {
                (Some(l), Some(r)) => if l is Empty || r is Empty {
                    None
                } else {
                    Some(Shape::Binary { left: Box::new(l), right: Box::new(r) })
                },
                _ => None,
            },
            TrieNode::Edge { path, length, child } => if 1 <= length <= height && path == felt_of(
                bits_value(low_bits(path@, length as nat)),
            ) {
                match resolve(store, child, (height - length) as nat) {
                    Some(c) => if ends_edge(c) {
                        Some(
                            Shape::Edge { path: low_bits(path@, length as nat), child: Box::new(c) },
                        )
                    } else {
                        None
                    },
                    None => None,
                }
            } else {
                None
            },
        }
    }
}

/// What a hash stands for is canonical and hashes to that hash, and only
/// zero stands for the empty trie.
pub proof fn lemma_resolve(store: Map<Felt, TrieNode>, hash: Felt, height: nat)
    requires
        resolve(store, hash, height) is Some,
    ensures
        canonical(resolve(store, hash, height)->0, height),
        shape_hash(resolve(store, hash, height)->0) == hash,
        resolve(store, hash, height)->0 is Empty <==> hash == felt_of(0),
    decreases height,
{
    if hash != felt_of(0) && height > 0 {
        match store[hash] {
            TrieNode::Leaf { .. } => {},
            TrieNode::Binary { left, right } => {
                lemma_resolve(store, left, (height - 1) as nat);
                lemma_resolve(store, right, (height - 1) as nat);
            },
            TrieNode::Edge { path, length, child } => {
                lemma_resolve(store, child, (height - length) as nat);
                lemma_low_bits_len(path@, length as nat);
            },
        }
    }
}

/// A store that grows keeps what its hashes stand for.
pub proof fn lemma_resolve_grows(
    small: Map<Felt, TrieNode>,
    large: Map<Felt, TrieNode>,
    hash: Felt,
    height: nat,
)
    requires
        small.submap_of(large),
        resolve(small, hash, height) is Some,
    ensures
        resolve(large, hash, height) == resolve(small, hash, height),
    decreases height,
{
    if hash != felt_of(0) && height > 0 {
        assert(small.dom().contains(hash));
        assert(large.dom().contains(hash));
        match small[hash] {
            TrieNode::Leaf { .. } => {},
            TrieNode::Binary { left, right } => {
                lemma_resolve_grows(small, large, left, (height - 1) as nat);
                lemma_resolve_grows(small, large, right, (height - 1) as nat);
            },
            TrieNode::Edge { path, length, child } => {
                lemma_resolve_grows(small, large, child, (height - length) as nat);
            },
        }
    }
}

/// What stands at the top of a trie.
#[derive(Clone, Copy, Debug, PartialEq, Eq, Structural)]
pub enum Kind {
    Empty,
    Leaf,
    Edge,
    Binary,
}

/// What stands at the top of a trie.
pub open spec fn kind_of(s: Shape) -> Kind {
    match s {
        Shape::Empty => Kind::Empty,
        Shape::Leaf { .. } => Kind::Leaf,
        Shape::Edge { .. } => Kind::Edge,
        Shape::Binary { .. } => Kind::Binary,
    }
}

/// Walks through all of the trie that `hash` stands for and says what
/// stands at its top; `None` unless the store holds all of the trie, in
/// canonical form and each node under its own hash.
pub fn inspect(store: &NodeStore, hash: Felt, height: usize) -> (kind: Option<Kind>)
    requires
        height <= HEIGHT,
    ensures
        kind == match resolve(store@, hash, height as nat) {
            Some(s) => Some(kind_of(s)),
            None => None,
        },
    decreases height,
{
    if hash.is_zero() {
        return Some(Kind::Empty);
    }
    if height == 0 {
        return Some(Kind::Leaf);
    }
    let node: TrieNode = match store.get(hash) {
        Some(node) => node,
        None => {
            return None;
        },
    };
    if node.hash() != hash {
        return None;
    }
    match node {
        TrieNode::Leaf { .. } => None,
        TrieNode::Binary { left, right } => {
            match (inspect(store, left, height - 1), inspect(store, right, height - 1)) {
                (Some(l), Some(r)) => {
                    if l == Kind::Empty || r == Kind::Empty {
                        None
                    } else {
                        Some(Kind::Binary)
                    }
                },
                _ => None,
            }
        },
        TrieNode::Edge { path, length, child } => {
            if length == 0 || length as usize > height {
                return None;
            }
            let bits: Vec<bool> = path.low_bits(length as usize);
            proof {
                lemma_low_bits_len(path@, length as nat);
            }
            match Felt::from_bits(&bits) {
                Some(steps) => {
                    if steps != path {
                        return None;
                    }
                },
                None => {
                    return None;
                },
            }
            match inspect(store, child, height - length as usize) {
                Some(Kind::Leaf) => Some(Kind::Edge),
                Some(Kind::Binary) => Some(Kind::Edge),
                _ => None,
            }
        },
    }
}

/// The nodes that a store must hold for a trie: one for each edge and each
/// fork.
pub open spec fn shape_nodes(s: Shape) -> Set<TrieNode>
    decreases s,
{
    match s {
        Shape::Empty => Set::empty(),
        Shape::Leaf { .. } => Set::empty(),
        Shape::Edge { path, child } => shape_nodes(*child).insert(
            TrieNode::Edge {
                path: felt_of(bits_value(path)),
                length: path.len() as u8,
                child: shape_hash(*child),
            },
        ),
        Shape::Binary { left, right } => shape_nodes(*left).union(shape_nodes(*right)).insert(
            TrieNode::Binary { left: shape_hash(*left), right: shape_hash(*right) },
        ),
    }
}

/// Whether nodes can be written to a store without a clash of hashes: none
/// of them hashes to zero, none hashes to the hash under which the store
/// holds another node, and no two of them hash alike.
pub open spec fn fits(store: Map<Felt, TrieNode>, nodes: Set<TrieNode>) -> bool {
    &&& forall|n: TrieNode| #[trigger]
        nodes.contains(n) ==> node_hash_spec(n) != felt_of(0) && (store.contains_key(
            node_hash_spec(n),
        ) ==> store[node_hash_spec(n)] == n)
    &&& forall|n: TrieNode, m: TrieNode|
        #![trigger nodes.contains(n), nodes.contains(m)]
        nodes.contains(n) && nodes.contains(m) && node_hash_spec(n) == node_hash_spec(m) ==> n
            == m
}

/// Whether `later` holds what `earlier` holds and beyond that only nodes
/// out of `nodes`, each under its own hash.
pub open spec fn grown_within(
    later: Map<Felt, TrieNode>,
    earlier: Map<Felt, TrieNode>,
    nodes: Set<TrieNode>,
) -> bool {
    &&& earlier.submap_of(later)
    &&& forall|h: Felt| #[trigger]
        later.contains_key(h) ==> earlier.contains_key(h) || (nodes.contains(later[h])
            && node_hash_spec(later[h]) == h)
}

/// Nodes that fit a store still fit it after some of them have been
/// written.
pub proof fn lemma_fits_grown(
    later: Map<Felt, TrieNode>,
    earlier: Map<Felt, TrieNode>,
    nodes: Set<TrieNode>,
)
    requires
        fits(earlier, nodes),
        grown_within(later, earlier, nodes),
    ensures
        fits(later, nodes),
{
    assert forall|n: TrieNode| #[trigger] nodes.contains(n) implies node_hash_spec(n) != felt_of(0)
        && (later.contains_key(node_hash_spec(n)) ==> later[node_hash_spec(n)] == n) by {
        let h = node_hash_spec(n);
        if later.contains_key(h) {
            if earlier.contains_key(h) {
                assert(earlier.dom().contains(h));
            } else {
                assert(nodes.contains(later[h]));
            }
        }
    }
}

/// Nodes that fit a store fit it in every part of them.
pub proof fn lemma_fits_part(store: Map<Felt, TrieNode>, nodes: Set<TrieNode>, part: Set<TrieNode>)
    requires
        fits(store, nodes),
        part.subset_of(nodes),
    ensures
        fits(store, part),
{
    assert forall|n: TrieNode| #[trigger] part.contains(n) implies node_hash_spec(n) != felt_of(0)
        && (store.contains_key(node_hash_spec(n)) ==> store[node_hash_spec(n)] == n) by {
        assert(nodes.contains(n));
    }
    assert forall|n: TrieNode, m: TrieNode|
        #![trigger part.contains(n), part.contains(m)]
        part.contains(n) && part.contains(m) && node_hash_spec(n) == node_hash_spec(
            m,
        ) implies n == m by {
        assert(nodes.contains(n) && nodes.contains(m));
    }
}

/// Growing within parts of a set, one time after another, is growing
/// within the set.
pub proof fn lemma_grown_within(
    c: Map<Felt, TrieNode>,
    b: Map<Felt, TrieNode>,
    a: Map<Felt, TrieNode>,
    late: Set<TrieNode>,
    early: Set<TrieNode>,
    nodes: Set<TrieNode>,
)
    requires
        grown_within(c, b, late),
        grown_within(b, a, early),
        late.subset_of(nodes),
        early.subset_of(nodes),
    ensures
        grown_within(c, a, nodes),
{
    lemma_submap(a, b, c);
    assert forall|h: Felt| #[trigger] c.contains_key(h) implies a.contains_key(h) || (
    nodes.contains(c[h]) && node_hash_spec(c[h]) == h) by {
        if b.contains_key(h) {
            assert(b.dom().contains(h));
            if !a.contains_key(h) {
                assert(early.contains(b[h]));
            }
        } else {
            assert(late.contains(c[h]));
        }
    }
}

/// A trie that is being changed: the parts that have been touched are held
/// in memory, the rest is named by the hash under which the store has it.
pub enum Node {
    /// An untouched subtrie, or a leaf value at the bottom; zero for none.
    Stored(Felt),
    /// A run of single-child steps.
    Edge(Vec<bool>, Box<Node>),
    /// A fork.
    Binary(Box<Node>, Box<Node>),
}

/// The trie that a node in memory stands for, the store supplying what is
/// named by hash.
pub open spec fn node_shape(store: Map<Felt, TrieNode>, node: Node, height: nat) -> Option<Shape>
    decreases node,
{
    match node {
        Node::Stored(hash) => resolve(store, hash, height),
        Node::Edge(path, child) => if 1 <= path@.len() <= height {
            match node_shape(store, *child, (height - path@.len()) as nat) {
                Some(c) => if ends_edge(c) {
                    Some(Shape::Edge { path: path@, child: Box::new(c) })
                } else {
                    None
                },
                None => None,
            }
        } else {
            None
        },
        Node::Binary(left, right) => if height >= 1 {
            match (
                node_shape(store, *left, (height - 1) as nat),
                node_shape(store, *right, (height - 1) as nat),
            ) {
                (Some(l), Some(r)) => if l is Empty || r is Empty {
                    None
                } else {
                    Some(Shape::Binary { left: Box::new(l), right: Box::new(r) })
                },
                _ => None,
            }
        } else {
            None
        },
    }
}

/// Whether a node in memory names the empty trie.
pub open spec fn names_nothing(node: Node) -> bool {
    node matches Node::Stored(hash) && hash == felt_of(0)
}

/// What a node in memory stands for is canonical, and it is empty exactly
/// when the node names nothing.
pub proof fn lemma_node_shape(store: Map<Felt, TrieNode>, node: Node, height: nat)
    requires
        node_shape(store, node, height) is Some,
    ensures
        canonical(node_shape(store, node, height)->0, height),
        node_shape(store, node, height)->0 is Empty <==> names_nothing(node),
    decreases node,
{
    match node {
        Node::Stored(hash) => {
            lemma_resolve(store, hash, height);
        },
        Node::Edge(path, child) => {
            lemma_node_shape(store, *child, (height - path@.len()) as nat);
        },
        Node::Binary(left, right) => {
            lemma_node_shape(store, *left, (height - 1) as nat);
            lemma_node_shape(store, *right, (height - 1) as nat);
        },
    }
}

/// A store that grows keeps what a node in memory stands for.
pub proof fn lemma_node_shape_grows(
    small: Map<Felt, TrieNode>,
    large: Map<Felt, TrieNode>,
    node: Node,
    height: nat,
)
    requires
        small.submap_of(large),
        node_shape(small, node, height) is Some,
    ensures
        node_shape(large, node, height) == node_shape(small, node, height),
    decreases node,
{
    match node {
        Node::Stored(hash) => {
            lemma_resolve_grows(small, large, hash, height);
        },
        Node::Edge(path, child) => {
            lemma_node_shape_grows(small, large, *child, (height - path@.len()) as nat);
        },
        Node::Binary(left, right) => {
            lemma_node_shape_grows(small, large, *left, (height - 1) as nat);
            lemma_node_shape_grows(small, large, *right, (height - 1) as nat);
        },
    }
}

/// Reads the top node of a stored, non-empty subtrie into memory.
fn unfold(store: &NodeStore, hash: Felt, height: usize) -> (res: Result<Node, TrieError>)
    requires
        1 <= height <= HEIGHT,
        hash != felt_of(0),
    ensures
        res matches Ok(node) ==> !(node is Stored),
        res matches Err(e) ==> e == TrieError::MissingNode || e == TrieError::MalformedNode,
        resolve(store@, hash, height as nat) is Some ==> (res matches Ok(node) && node_shape(
            store@,
            node,
            height as nat,
        ) == resolve(store@, hash, height as nat)),
{
    match store.get(hash) {
        None => Err(TrieError::MissingNode),
        Some(TrieNode::Leaf { .. }) => Err(TrieError::MalformedNode),
        Some(TrieNode::Binary { left, right }) => {
            proof {
                let below = (height - 1) as nat;
                assert(node_shape(store@, Node::Stored(left), below) == resolve(
                    store@,
                    left,
                    below,
                ));
                assert(node_shape(store@, Node::Stored(right), below) == resolve(
                    store@,
                    right,
                    below,
                ));
            }
            Ok(Node::Binary(Box::new(Node::Stored(left)), Box::new(Node::Stored(right))))
        },
        Some(TrieNode::Edge { path, length, child }) => {
            if length == 0 || length as usize > height {
                return Err(TrieError::MalformedNode);
            }
            let bits: Vec<bool> = path.low_bits(length as usize);
            proof {
                lemma_low_bits_len(path@, length as nat);
                let below = (height - length) as nat;
                assert(node_shape(store@, Node::Stored(child), below) == resolve(
                    store@,
                    child,
                    below,
                ));
            }
            Ok(Node::Edge(bits, Box::new(Node::Stored(child))))
        },
    }
}

/// Goes one step down: the subtrie that follows digit 0 and the one that
/// follows digit 1.
fn open(store: &NodeStore, node: Node, height: usize) -> (res: Result<(Node, Node), TrieError>)
    requires
        1 <= height <= HEIGHT,
    ensures
        res matches Err(e) ==> e == TrieError::MissingNode || e == TrieError::MalformedNode,
        node_shape(store@, node, height as nat) matches Some(s) ==> (res matches Ok(sides)
            && node_shape(store@, sides.0, (height - 1) as nat) == Some(split(s).0) && node_shape(
            store@,
            sides.1,
            (height - 1) as nat,
        ) == Some(split(s).1)),
{
    let top: Node = match node {
        Node::Stored(hash) => {
            if hash.is_zero() {
                return Ok((Node::Stored(hash), Node::Stored(hash)));
            }
            match unfold(store, hash, height) {
                Ok(top) => top,
                Err(e) => {
                    return Err(e);
                },
            }
        },
        other => other,
    };
    match top {
        Node::Binary(left, right) => Ok((*left, *right)),
        Node::Edge(path, child) => {
            if path.len() == 0 {
                return Err(TrieError::MalformedNode);
            }
            let first: bool = path[0];
            let mut rest: Vec<bool> = path;
            rest.remove(0);
            proof {
                assert(rest@ =~= path@.skip(1));
            }
            let below: Node = if rest.len() == 0 {
                *child
            } else {
                Node::Edge(rest, child)
            };
            if first {
                Ok((Node::Stored(Felt::zero()), below))
            } else {
                Ok((below, Node::Stored(Felt::zero())))
            }
        },
        Node::Stored(_) => Err(TrieError::MalformedNode),
    }
}

/// Whether a node in memory names the empty trie.
fn is_nothing(node: &Node) -> (nothing: bool)
    ensures
        nothing == names_nothing(*node),
{
    match node {
        Node::Stored(hash) => hash.is_zero(),
        _ => false,
    }
}

/// Puts a non-empty subtrie below one more step.
fn lengthen(store: &NodeStore, bit: bool, node: Node, height: usize) -> (res: Result<
    Node,
    TrieError,
>)
    requires
        1 <= height <= HEIGHT,
    ensures
        res matches Err(e) ==> e == TrieError::MissingNode || e == TrieError::MalformedNode,
        node_shape(store@, node, (height - 1) as nat) matches Some(s) ==> (!(s is Empty) ==> (
        res matches Ok(longer) && node_shape(store@, longer, height as nat) == Some(
            extend(bit, s),
        ))),
{
    let top: Node = match node {
        Node::Stored(hash) => {
            if height == 1 || hash.is_zero() {
                Node::Stored(hash)
            } else {
                match store.get(hash) {
                    Some(TrieNode::Edge { .. }) => match unfold(store, hash, height - 1) {
                        Ok(top) => top,
                        Err(e) => {
                            return Err(e);
                        },
                    },
                    Some(_) => Node::Stored(hash),
                    None => {
                        return Err(TrieError::MissingNode);
                    },
                }
            }
        },
        other => other,
    };
    match top {
        Node::Edge(path, child) => {
            let mut longer: Vec<bool> = path;
            longer.insert(0, bit);
            proof {
                assert(longer@ =~= seq![bit] + path@);
            }
            Ok(Node::Edge(longer, child))
        },
        other => {
            let mut path: Vec<bool> = Vec::new();
            path.push(bit);
            proof {
                assert(path@ =~= seq![bit]);
            }
            Ok(Node::Edge(path, Box::new(other)))
        },
    }
}

/// Goes one step up: the canonical trie whose subtries one step down are
/// `left` and `right`.
fn close(store: &NodeStore, left: Node, right: Node, height: usize) -> (res: Result<
    Node,
    TrieError,
>)
    requires
        1 <= height <= HEIGHT,
    ensures
        res matches Err(e) ==> e == TrieError::MissingNode || e == TrieError::MalformedNode,
        node_shape(store@, left, (height - 1) as nat) matches Some(l) ==> (node_shape(
            store@,
            right,
            (height - 1) as nat,
        ) matches Some(r) ==> (res matches Ok(node) && node_shape(store@, node, height as nat)
            == Some(join(l, r)))),
{
    proof {
        if node_shape(store@, left, (height - 1) as nat) is Some {
            lemma_node_shape(store@, left, (height - 1) as nat);
        }
        if node_shape(store@, right, (height - 1) as nat) is Some {
            lemma_node_shape(store@, right, (height - 1) as nat);
        }
    }
    if is_nothing(&left) {
        if is_nothing(&right) {
            Ok(left)
        } else {
            lengthen(store, true, right, height)
        }
    } else if is_nothing(&right) {
        lengthen(store, false, left, height)
    } else {
        Ok(Node::Binary(Box::new(left), Box::new(right)))
    }
}

/// Gives `key` the value `value` in the subtrie that the first `depth`
/// digits of the key lead to.
pub(crate) fn insert(store: &NodeStore, node: Node, key: &Vec<bool>, depth: usize, value: Felt) -> (res:
    Result<Node, TrieError>)
    requires
        key@.len() == HEIGHT,
        depth <= HEIGHT,
    ensures
        res matches Err(e) ==> e == TrieError::MissingNode || e == TrieError::MalformedNode,
        node_shape(store@, node, (HEIGHT - depth) as nat) matches Some(s) ==> (res matches Ok(
            after,
        ) && node_shape(store@, after, (HEIGHT - depth) as nat) == Some(
            shape_set(s, key@.skip(depth as int), value),
        )),
    decreases HEIGHT - depth,
{
    if depth == HEIGHT {
        return Ok(Node::Stored(value));
    }
    let height: usize = HEIGHT - depth;
    proof {
        assert(key@.skip(depth as int).skip(1) =~= key@.skip(depth + 1));
        assert(key@.skip(depth as int)[0] == key@[depth as int]);
    }
    let (left, right) = match open(store, node, height) {
        Ok(sides) => sides,
        Err(e) => {
            return Err(e);
        },
    };
    if key[depth] {
        match insert(store, right, key, depth + 1, value) {
            Ok(after) => close(store, left, after, height),
            Err(e) => Err(e),
        }
    } else {
        match insert(store, left, key, depth + 1, value) {
            Ok(after) => close(store, after, right, height),
            Err(e) => Err(e),
        }
    }
}

/// Stores a new node and makes sure that its hash names it and nothing
/// else.
fn persist(store: &mut NodeStore, node: TrieNode) -> (res: Result<Felt, TrieError>)
    ensures
        old(store)@.submap_of(final(store)@),
        extends(final(store).log(), old(store).log()),
        final(store)@ == if old(store)@.contains_key(node_hash_spec(node)) {
            old(store)@
        } else {
            old(store)@.insert(node_hash_spec(node), node)
        },
        res is Ok <==> node_hash_spec(node) != felt_of(0) && (old(store)@.contains_key(
            node_hash_spec(node),
        ) ==> old(store)@[node_hash_spec(node)] == node),
        res matches Ok(hash) ==> hash == node_hash_spec(node) && hash != felt_of(0),
        res matches Ok(hash) ==> final(store)@.contains_key(hash) && final(store)@[hash] == node,
        res matches Err(e) ==> e == TrieError::HashCollision,
{
    let hash: Felt = store.put(node);
    proof {
        assert(store.log().take(old(store).log().len() as int) =~= old(store).log());
    }
    if hash.is_zero() {
        return Err(TrieError::HashCollision);
    }
    match store.get(hash) {
        Some(held) => {
            if held == node {
                Ok(hash)
            } else {
                Err(TrieError::HashCollision)
            }
        },
        None => Err(TrieError::HashCollision),
    }
}

/// Writes the parts of a trie that are held in memory to the store, and
/// returns the hash that then stands for the trie.
pub(crate) fn commit(store: &mut NodeStore, node: Node, height: usize) -> (res: Result<
    Felt,
    TrieError,
>)
    requires
        height <= HEIGHT,
    ensures
        old(store)@.submap_of(final(store)@),
        extends(final(store).log(), old(store).log()),
        res matches Err(e) ==> e == TrieError::MalformedNode || e == TrieError::HashCollision,
        node_shape(old(store)@, node, height as nat) matches Some(s) ==> {
            &&& grown_within(final(store)@, old(store)@, shape_nodes(s))
            &&& fits(old(store)@, shape_nodes(s)) ==> res is Ok
            &&& match res {
                Ok(hash) => resolve(final(store)@, hash, height as nat) == Some(s),
                Err(e) => e == TrieError::HashCollision,
            }
        },
    decreases node,
{
    let ghost before = store@;
    let ghost before_log = store.log();
    let ghost shape = node_shape(before, node, height as nat);
    proof {
        assert(store.log().take(store.log().len() as int) =~= store.log());
    }
    match node {
        Node::Stored(hash) => Ok(hash),
        Node::Binary(left, right) => {
            if height == 0 {
                return Err(TrieError::MalformedNode);
            }
            let ghost below = (height - 1) as nat;
            let ghost left_shape = node_shape(before, *left, below);
            let ghost right_shape = node_shape(before, *right, below);
            let ghost whole = shape is Some;
            proof {
                if whole {
                    let s = shape_nodes(shape->0);
                    assert(shape_nodes(left_shape->0).subset_of(s));
                    assert(shape_nodes(right_shape->0).subset_of(s));
                    if fits(before, s) {
                        lemma_fits_part(before, s, shape_nodes(left_shape->0));
                    }
                }
            }
            let left_res = commit(store, *left, height - 1);
            let ghost middle = store@;
            let ghost middle_log = store.log();
            proof {
                if whole {
                    let s = shape_nodes(shape->0);
                    let l = shape_nodes(left_shape->0);
                    lemma_grown_within(middle, before, before, l, l, s);
                }
            }
            let left_hash: Felt = match left_res {
                Ok(hash) => hash,
                Err(e) => {
                    return Err(e);
                },
            };
            proof {
                if whole {
                    let s = shape_nodes(shape->0);
                    lemma_node_shape_grows(before, middle, *right, below);
                    if fits(before, s) {
                        lemma_fits_grown(middle, before, s);
                        lemma_fits_part(middle, s, shape_nodes(right_shape->0));
                    }
                }
            }
            let right_res = commit(store, *right, height - 1);
            let ghost late = store@;
            let ghost late_log = store.log();
            proof {
                lemma_extends(late_log, middle_log, before_log);
                lemma_submap(before, middle, late);
                if whole {
                    let s = shape_nodes(shape->0);
                    lemma_grown_within(
                        late,
                        middle,
                        before,
                        shape_nodes(right_shape->0),
                        shape_nodes(left_shape->0),
                        s,
                    );
                }
            }
            let right_hash: Felt = match right_res {
                Ok(hash) => hash,
                Err(e) => {
                    return Err(e);
                },
            };
            let ghost fork = TrieNode::Binary { left: left_hash, right: right_hash };
            proof {
                if whole {
                    let s = shape_nodes(shape->0);
                    lemma_resolve_grows(middle, late, left_hash, below);
                    lemma_resolve(late, left_hash, below);
                    lemma_resolve(late, right_hash, below);
                    assert(s.contains(fork));
                    if fits(before, s) {
                        lemma_fits_grown(late, before, s);
                    }
                }
            }
            let res = persist(store, TrieNode::Binary { left: left_hash, right: right_hash });
            proof {
                lemma_extends(store.log(), late_log, before_log);
                lemma_submap(before, late, store@);
                if whole {
                    let s = shape_nodes(shape->0);
                    lemma_resolve_grows(late, store@, left_hash, below);
                    lemma_resolve_grows(late, store@, right_hash, below);
                    assert(grown_within(store@, late, s));
                    lemma_grown_within(store@, late, before, s, s, s);
                }
            }
            res
        },
        Node::Edge(path, child) => {
            if path.len() == 0 || path.len() > height {
                return Err(TrieError::MalformedNode);
            }
            let ghost below = (height - path@.len()) as nat;
            let ghost child_shape = node_shape(before, *child, below);
            let ghost whole = shape is Some;
            proof {
                if whole {
                    let s = shape_nodes(shape->0);
                    assert(shape_nodes(child_shape->0).subset_of(s));
                    if fits(before, s) {
                        lemma_fits_part(before, s, shape_nodes(child_shape->0));
                    }
                }
            }
            let child_res = commit(store, *child, height - path.len());
            let ghost middle = store@;
            let ghost middle_log = store.log();
            proof {
                if whole {
                    let s = shape_nodes(shape->0);
                    let c = shape_nodes(child_shape->0);
                    lemma_grown_within(middle, before, before, c, c, s);
                }
            }
            let child_hash: Felt = match child_res {
                Ok(hash) => hash,
                Err(e) => {
                    return Err(e);
                },
            };
            let steps: Felt = match Felt::from_bits(&path) {
                Some(steps) => steps,
                None => {
                    return Err(TrieError::MalformedNode);
                },
            };
            let ghost edge = TrieNode::Edge {
                path: steps,
                length: path@.len() as u8,
                child: child_hash,
            };
            proof {
                if whole {
                    let s = shape_nodes(shape->0);
                    lemma_resolve(middle, child_hash, below);
                    assert(s.contains(edge));
                    if fits(before, s) {
                        lemma_fits_grown(middle, before, s);
                    }
                }
            }
            let res = persist(
                store,
                TrieNode::Edge { path: steps, length: path.len() as u8, child: child_hash },
            );
            proof {
                lemma_extends(store.log(), middle_log, before_log);
                lemma_submap(before, middle, store@);
                lemma_value_roundtrip(path@);
                if whole {
                    let s = shape_nodes(shape->0);
                    lemma_resolve_grows(middle, store@, child_hash, below);
                    assert(grown_within(store@, middle, s));
                    lemma_grown_within(store@, middle, before, s, s, s);
                }
            }
            res
        },
    }
}

/// Whether `key` continues, from position `depth` on, with `bits`.
fn continues_with(key: &Vec<bool>, depth: usize, bits: &Vec<bool>) -> (same: bool)
    requires
        depth + bits@.len() <= key@.len(),
    ensures
        same == (key@.skip(depth as int).take(bits@.len() as int) == bits@),
{
    let end: usize = key.len();
    let mut i: usize = 0;
    while i < bits.len()
        invariant
            i <= bits@.len(),
            depth + bits@.len() <= key@.len() == end,
            forall|j: int| 0 <= j < i ==> key@[depth + j] == bits@[j],
        decreases bits@.len() - i,
    {
        if key[depth + i] != bits[i] {
            proof {
                assert(key@.skip(depth as int).take(bits@.len() as int)[i as int] == key@[depth
                    + i]);
            }
            return false;
        }
        i += 1;
    }
    proof {
        assert(key@.skip(depth as int).take(bits@.len() as int) =~= bits@);
    }
    true
}

/// What reading a key from a store gives, whatever the store holds: the
/// descent from `hash` follows the digits of `key`; it ends with zero
/// where the trie has no entry for the key, with the value at the bottom,
/// or with the first node that is missing or cannot stand where it is.
pub open spec fn descend(
    store: Map<Felt, TrieNode>,
    hash: Felt,
    height: nat,
    key: Seq<bool>,
) -> Result<Felt, TrieError>
    decreases height,
{
    if height == 0 || hash == felt_of(0) {
        Ok(hash)
    } else if !store.contains_key(hash) {
        Err(TrieError::MissingNode)
    } else {
        match store[hash] {
            TrieNode::Leaf { .. } => Err(TrieError::MalformedNode),
            TrieNode::Binary { left, right } => descend(
                store,
                if key[0] {
                    right
                } else {
                    left
                },
                (height - 1) as nat,
                key.skip(1),
            ),
            TrieNode::Edge { path, length, child } => if length == 0 || length > height {
                Err(TrieError::MalformedNode)
            } else if key.take(length as int) == low_bits(path@, length as nat) {
                descend(store, child, (height - length) as nat, key.skip(length as int))
            } else {
                Ok(felt_of(0))
            },
        }
    }
}

/// Where the store has the whole trie, the descent finds what the trie
/// holds for the key.
pub proof fn lemma_descend(store: Map<Felt, TrieNode>, hash: Felt, height: nat, key: Seq<bool>)
    requires
        resolve(store, hash, height) is Some,
        key.len() == height,
    ensures
        descend(store, hash, height, key) == Ok::<Felt, TrieError>(
            lookup(resolve(store, hash, height)->0, key),
        ),
    decreases height,
{
    if height > 0 && hash != felt_of(0) {
        match store[hash] {
            TrieNode::Leaf { .. } => {},
            TrieNode::Binary { left, right } => {
                lemma_descend(store, left, (height - 1) as nat, key.skip(1));
                lemma_descend(store, right, (height - 1) as nat, key.skip(1));
            },
            TrieNode::Edge { path, length, child } => {
                lemma_low_bits_len(path@, length as nat);
                lemma_descend(store, child, (height - length) as nat, key.skip(length as int));
            },
        }
    }
}

/// The value that the trie named by `root` holds for `key`.
pub(crate) fn fetch(store: &NodeStore, root: Felt, key: &Vec<bool>) -> (res: Result<
    Felt,
    TrieError,
>)
    requires
        key@.len() == HEIGHT,
    ensures
        res == descend(store@, root, HEIGHT as nat, key@),
{
    let mut hash: Felt = root;
    let mut depth: usize = 0;
    proof {
        assert(key@.skip(0) =~= key@);
    }
    while depth < HEIGHT
        invariant
            depth <= HEIGHT,
            key@.len() == HEIGHT,
            descend(store@, root, HEIGHT as nat, key@) == descend(
                store@,
                hash,
                (HEIGHT - depth) as nat,
                key@.skip(depth as int),
            ),
        decreases HEIGHT - depth,
    {
        if hash.is_zero() {
            return Ok(hash);
        }
        let ghost rest = key@.skip(depth as int);
        match store.get(hash) {
            None => {
                return Err(TrieError::MissingNode);
            },
            Some(TrieNode::Leaf { .. }) => {
                return Err(TrieError::MalformedNode);
            },
            Some(TrieNode::Binary { left, right }) => {
                proof {
                    assert(rest.skip(1) =~= key@.skip(depth + 1));
                    assert(rest[0] == key@[depth as int]);
                }
                hash = if key[depth] { right } else { left };
                depth += 1;
            },
            Some(TrieNode::Edge { path, length, child }) => {
                if length == 0 || length as usize > HEIGHT - depth {
                    return Err(TrieError::MalformedNode);
                }
                let bits: Vec<bool> = path.low_bits(length as usize);
                proof {
                    lemma_low_bits_len(path@, length as nat);
                    assert(rest.skip(length as int) =~= key@.skip(depth + length));
                }
                if !continues_with(key, depth, &bits) {
                    return Ok(Felt::zero());
                }
                hash = child;
                depth += length as usize;
            },
        }
    }
    Ok(hash)
}

/// A store that has grown within some nodes has grown within any more.
pub proof fn lemma_grown_wider(
    later: Map<Felt, TrieNode>,
    earlier: Map<Felt, TrieNode>,
    part: Set<TrieNode>,
    nodes: Set<TrieNode>,
)
    requires
        grown_within(later, earlier, part),
        part.subset_of(nodes),
    ensures
        grown_within(later, earlier, nodes),
{
    assert forall|h: Felt| #[trigger] later.contains_key(h) implies earlier.contains_key(h) || (
    nodes.contains(later[h]) && node_hash_spec(later[h]) == h) by {
        if !earlier.contains_key(h) {
            assert(part.contains(later[h]));
        }
    }
}

} // verus!
