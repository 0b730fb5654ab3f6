//! The mathematical model of a Merkle-Patricia trie: its canonical shape,
//! what it maps a path to, and how one assignment changes it.

use crate::felt::{felt_of, Felt};
use vstd::prelude::*;

verus! {

/// A trie as a tree of nodes, each subtree held in place.
pub enum Shape {
    /// No entry below this point.
    Empty,
    /// A value at the bottom.
    Leaf { value: Felt },
    /// Every entry below this point continues with `path`.
    Edge { path: Seq<bool>, child: Box<Shape> },
    /// Entries continue both with digit 0 (left) and with digit 1 (right).
    Binary { left: Box<Shape>, right: Box<Shape> },
}

/// Whether a shape may hang below an edge: an edge ends in a fork or in a
/// leaf.
pub open spec fn ends_edge(s: Shape) -> bool {
    s is Leaf || s is Binary
}

/// The canonical form of a trie over paths of `height` digits: leaves sit
/// at the bottom and hold no zero, edges are non-empty and never followed
/// by an edge or by nothing, forks have two non-empty children.
pub open spec fn canonical(s: Shape, height: nat) -> bool
    decreases s,
{
    match s {
        Shape::Empty => true,
        Shape::Leaf { value } => height == 0 && value != felt_of(0),
        Shape::Edge { path, child } => 1 <= path.len() <= height && ends_edge(*child) && canonical(
            *child,
            (height - path.len()) as nat,
        ),
        Shape::Binary { left, right } => height >= 1 && !(*left is Empty) && !(*right is Empty)
            && canonical(*left, (height - 1) as nat) && canonical(*right, (height - 1) as nat),
    }
}

/// The value that a trie holds for a path; zero where it holds none.
pub open spec fn lookup(s: Shape, key: Seq<bool>) -> Felt
    decreases s,
{
    match s {
        Shape::Empty => felt_of(0),
        Shape::Leaf { value } => value,
        Shape::Edge { path, child } => if path.len() <= key.len() && key.take(path.len() as int)
            == path {
            lookup(*child, key.skip(path.len() as int))
        } else {
            felt_of(0)
        },
        Shape::Binary { left, right } => if key.len() == 0 {
            felt_of(0)
        } else if key[0] {
            lookup(*right, key.skip(1))
        } else {
            lookup(*left, key.skip(1))
        },
    }
}

/// What is left of an edge after its first step.
pub open spec fn strip(path: Seq<bool>, child: Shape) -> Shape {
    if path.len() <= 1 {
        child
    } else {
        Shape::Edge { path: path.skip(1), child: Box::new(child) }
    }
}

/// The two subtries one step down: what follows digit 0 and what follows
/// digit 1.
pub open spec fn split(s: Shape) -> (Shape, Shape) {
    match s {
        Shape::Binary { left, right } => (*left, *right),
        Shape::Edge { path, child } => if path.len() > 0 && path[0] {
            (Shape::Empty, strip(path, *child))
        } else {
            (strip(path, *child), Shape::Empty)
        },
        _ => (Shape::Empty, Shape::Empty),
    }
}

/// A non-empty subtrie put below one more step `bit`.
pub open spec fn extend(bit: bool, s: Shape) -> Shape {
    match s {
        Shape::Edge { path, child } => Shape::Edge { path: seq![bit] + path, child },
        _ => Shape::Edge { path: seq![bit], child: Box::new(s) },
    }
}

/// The canonical trie whose subtries one step down are `left` and `right`.
pub open spec fn join(left: Shape, right: Shape) -> Shape {
    if left is Empty {
        if right is Empty {
            Shape::Empty
        } else {
            extend(true, right)
        }
    } else if right is Empty {
        extend(false, left)
    } else {
        Shape::Binary { left: Box::new(left), right: Box::new(right) }
    }
}

/// The trie of height zero that holds `value`.
pub open spec fn leaf_of(value: Felt) -> Shape {
    if value == felt_of(0) {
        Shape::Empty
    } else {
        Shape::Leaf { value }
    }
}

/// The trie after `key` has been given `value`; a zero removes the entry.
pub open spec fn shape_set(s: Shape, key: Seq<bool>, value: Felt) -> Shape
    decreases key.len(),
{
    if key.len() == 0 {
        leaf_of(value)
    } else if key[0] {
        join(split(s).0, shape_set(split(s).1, key.skip(1), value))
    } else {
        join(shape_set(split(s).0, key.skip(1), value), split(s).1)
    }
}

/// The subtrie that a key enters with its first digit.
pub open spec fn side(s: Shape, bit: bool) -> Shape {
    if bit {
        split(s).1
    } else {
        split(s).0
    }
}

/// Going one step down keeps the canonical form and loses nothing: the two
/// subtries join back to the trie, and a lookup continues in the subtrie
/// that the key's first digit selects.
pub proof fn lemma_split(s: Shape, height: nat)
    requires
        canonical(s, height),
        height >= 1,
    ensures
        canonical(split(s).0, (height - 1) as nat),
        canonical(split(s).1, (height - 1) as nat),
        join(split(s).0, split(s).1) == s,
        forall|key: Seq<bool>|
            key.len() >= 1 ==> #[trigger] lookup(s, key) == lookup(side(s, key[0]), key.skip(1)),
{
    match s {
        Shape::Edge { path, child } => {
            let rest = strip(path, *child);
            if path.len() == 1 {
                assert(seq![path[0]] =~= path);
            } else {
                assert(seq![path[0]] + path.skip(1) =~= path);
            }
            assert forall|key: Seq<bool>| key.len() >= 1 implies #[trigger] lookup(s, key)
                == lookup(side(s, key[0]), key.skip(1)) by {
                lemma_edge_step(path, *child, key);
            }
        },
        _ => {},
    }
}

/// A lookup through an edge, taken one step at a time.
proof fn lemma_edge_step(path: Seq<bool>, child: Shape, key: Seq<bool>)
    requires
        path.len() >= 1,
        key.len() >= 1,
    ensures
        lookup(Shape::Edge { path, child: Box::new(child) }, key) == if key[0] == path[0] {
            lookup(strip(path, child), key.skip(1))
        } else {
            felt_of(0)
        },
{
    let n = path.len() as int;
    let tail = key.skip(1);
    if key[0] != path[0] {
        if n <= key.len() {
            assert(key.take(n)[0] == key[0]);
        }
    } else if n == 1 {
        assert(key.take(1) =~= path);
    } else {
        if n <= key.len() {
            assert(tail.skip(n - 1) =~= key.skip(n));
            if key.take(n) == path {
                assert(tail.take(n - 1) =~= path.skip(1));
            }
            if tail.take(n - 1) == path.skip(1) {
                assert forall|i: int| 0 <= i < n implies key.take(n)[i] == path[i] by {
                    if i > 0 {
                        assert(tail.take(n - 1)[i - 1] == path.skip(1)[i - 1]);
                    }
                }
                assert(key.take(n) =~= path);
            }
        }
    }
}

/// Joining two canonical subtries gives the canonical trie one step up,
/// from which `split` gets them back.
pub proof fn lemma_join(left: Shape, right: Shape, height: nat)
    requires
        height >= 1,
        canonical(left, (height - 1) as nat),
        canonical(right, (height - 1) as nat),
    ensures
        canonical(join(left, right), height),
        split(join(left, right)) == (left, right),
{
    if left is Empty && !(right is Empty) {
        lemma_extend(true, right, height);
    } else if right is Empty && !(left is Empty) {
        lemma_extend(false, left, height);
    }
}

proof fn lemma_extend(bit: bool, s: Shape, height: nat)
    requires
        height >= 1,
        canonical(s, (height - 1) as nat),
        !(s is Empty),
    ensures
        canonical(extend(bit, s), height),
        split(extend(bit, s)) == if bit {
            (Shape::Empty, s)
        } else {
            (s, Shape::Empty)
        },
{
    match s {
        Shape::Edge { path, child } => {
            let longer = seq![bit] + path;
            assert(longer.skip(1) =~= path);
            assert(longer[0] == bit);
        },
        _ => {
            assert(seq![bit][0] == bit);
        },
    }
}

/// An assignment keeps the canonical form, gives the key its value and
/// leaves every other path as it was.
pub proof fn lemma_shape_set(s: Shape, key: Seq<bool>, value: Felt)
    requires
        canonical(s, key.len()),
    ensures
        canonical(shape_set(s, key, value), key.len()),
        forall|k: Seq<bool>|
            k.len() == key.len() ==> #[trigger] lookup(shape_set(s, key, value), k) == if k == key {
                value
            } else {
                lookup(s, k)
            },
    decreases key.len(),
{
    let after = shape_set(s, key, value);
    if key.len() == 0 {
        assert forall|k: Seq<bool>| k.len() == key.len() implies #[trigger] lookup(after, k)
            == if k == key {
            value
        } else {
            lookup(s, k)
        } by {
            assert(k =~= key);
        }
    } else {
        let height = key.len();
        let tail = key.skip(1);
        lemma_split(s, height);
        let below = side(s, key[0]);
        let below_after = shape_set(below, tail, value);
        lemma_shape_set(below, tail, value);
        if key[0] {
            lemma_join(split(s).0, below_after, height);
        } else {
            lemma_join(below_after, split(s).1, height);
        }
        lemma_split(after, height);
        assert forall|k: Seq<bool>| k.len() == key.len() implies #[trigger] lookup(after, k)
            == if k == key {
            value
        } else {
            lookup(s, k)
        } by {
            assert(lookup(after, k) == lookup(side(after, k[0]), k.skip(1)));
            assert(lookup(s, k) == lookup(side(s, k[0]), k.skip(1)));
            if k[0] == key[0] {
                assert(side(after, k[0]) == below_after);
                if k.skip(1) == tail {
                    assert(k =~= key) by {
                        assert forall|i: int| 0 <= i < k.len() implies k[i] == key[i] by {
                            if i > 0 {
                                assert(k.skip(1)[i - 1] == tail[i - 1]);
                            }
                        }
                    }
                }
            } else {
                assert(side(after, k[0]) == side(s, k[0]));
            }
        }
    }
}

/// Two canonical tries that agree on every path are the same trie.
pub proof fn lemma_canonical_unique(a: Shape, b: Shape, height: nat)
    requires
        canonical(a, height),
        canonical(b, height),
        forall|k: Seq<bool>| k.len() == height ==> lookup(a, k) == lookup(b, k),
    ensures
        a == b,
    decreases height,
{
    if height == 0 {
        let k = Seq::<bool>::empty();
        assert(lookup(a, k) == lookup(b, k));
    } else {
        lemma_split(a, height);
        lemma_split(b, height);
        assert forall|k: Seq<bool>| k.len() == height - 1 implies lookup(split(a).0, k) == lookup(
            split(b).0,
            k,
        ) by {
            let full = seq![false] + k;
            assert(full.skip(1) =~= k);
            assert(lookup(a, full) == lookup(side(a, full[0]), full.skip(1)));
            assert(lookup(b, full) == lookup(side(b, full[0]), full.skip(1)));
        }
        assert forall|k: Seq<bool>| k.len() == height - 1 implies lookup(split(a).1, k) == lookup(
            split(b).1,
            k,
        ) by {
            let full = seq![true] + k;
            assert(full.skip(1) =~= k);
            assert(lookup(a, full) == lookup(side(a, full[0]), full.skip(1)));
            assert(lookup(b, full) == lookup(side(b, full[0]), full.skip(1)));
        }
        lemma_canonical_unique(split(a).0, split(b).0, (height - 1) as nat);
        lemma_canonical_unique(split(a).1, split(b).1, (height - 1) as nat);
    }
}

} // verus!
