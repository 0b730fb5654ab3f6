//! An append-only map keyed by field elements, kept as a log of entries so
//! that a caller can undo everything after a remembered length.

use crate::felt::Felt;
use vstd::prelude::*;

verus! {

/// The map that a log of entries denotes: an entry whose key occurred
/// earlier in the log is ignored.
pub open spec fn log_map<V>(log: Seq<(Felt, V)>) -> Map<Felt, V>
    decreases log.len(),
{
    if log.len() == 0 {
        Map::empty()
    } else {
        let earlier = log_map(log.drop_last());
        if earlier.contains_key(log.last().0) {
            earlier
        } else {
            earlier.insert(log.last().0, log.last().1)
        }
    }
}

/// A key is mapped exactly when some entry of the log carries it.
pub proof fn lemma_log_map_keys<V>(log: Seq<(Felt, V)>, key: Felt)
    ensures
        log_map(log).contains_key(key) <==> exists|i: int| 0 <= i < log.len() && log[i].0 == key,
    decreases log.len(),
{
    if log.len() > 0 {
        let front = log.drop_last();
        let last = log.len() - 1;
        lemma_log_map_keys(front, key);
        if log_map(log).contains_key(key) {
            if log_map(front).contains_key(key) {
                let w = choose|i: int| 0 <= i < front.len() && front[i].0 == key;
                assert(log[w].0 == key);
            } else {
                assert(log[last].0 == key);
            }
        }
        if exists|i: int| 0 <= i < log.len() && log[i].0 == key {
            let w = choose|i: int| 0 <= i < log.len() && log[i].0 == key;
            if w < last {
                assert(front[w].0 == key);
            }
        }
    }
}

/// A key is mapped to the value of the first entry that carries it.
pub proof fn lemma_log_map_first<V>(log: Seq<(Felt, V)>, key: Felt, at: int)
    requires
        0 <= at < log.len(),
        log[at].0 == key,
        forall|j: int| 0 <= j < at ==> log[j].0 != key,
    ensures
        log_map(log).contains_key(key),
        log_map(log)[key] == log[at].1,
    decreases log.len(),
{
    let front = log.drop_last();
    let last = log.len() - 1;
    if at < last {
        assert(front[at] == log[at]);
        assert forall|j: int| 0 <= j < at implies front[j].0 != key by {
            assert(front[j] == log[j]);
        }
        lemma_log_map_first(front, key, at);
    } else {
        lemma_log_map_keys(front, key);
        if log_map(front).contains_key(key) {
            let w = choose|i: int| 0 <= i < front.len() && front[i].0 == key;
            assert(log[w].0 == key);
        }
    }
}

/// A key that is mapped is mapped to the value of one of its entries.
pub proof fn lemma_log_map_entry<V>(log: Seq<(Felt, V)>, key: Felt)
    requires
        log_map(log).contains_key(key),
    ensures
        exists|i: int| 0 <= i < log.len() && log[i] == (key, log_map(log)[key]),
    decreases log.len(),
{
    let front = log.drop_last();
    let last = log.len() - 1;
    if log_map(front).contains_key(key) {
        lemma_log_map_entry(front, key);
        let w = choose|i: int| 0 <= i < front.len() && front[i] == (key, log_map(front)[key]);
        assert(log[w] == (key, log_map(log)[key]));
    } else {
        assert(log[last] == (key, log_map(log)[key]));
    }
}

/// A prefix of a log denotes a part of the map that the whole log denotes.
pub proof fn lemma_log_map_prefix<V>(log: Seq<(Felt, V)>, n: int)
    requires
        0 <= n <= log.len(),
    ensures
        log_map(log.take(n)).submap_of(log_map(log)),
    decreases log.len() - n,
{
    if n < log.len() {
        lemma_log_map_prefix(log, n + 1);
        let longer = log.take(n + 1);
        assert(longer.drop_last() =~= log.take(n));
        assert(longer.len() > 0);
        assert(log_map(log.take(n)).submap_of(log_map(longer)));
        assert forall|k: Felt| #[trigger]
            log_map(log.take(n)).dom().contains(k) implies log_map(log).dom().contains(k)
            && log_map(log.take(n))[k] == log_map(log)[k] by {
            assert(log_map(longer).dom().contains(k));
        }
    } else {
        assert(log.take(n) =~= log);
    }
}

/// A map from field elements to values that only grows, unless it is cut
/// back to an earlier length.
pub struct FeltMap<V> {
    entries: Vec<(Felt, V)>,
}

impl<V> View for FeltMap<V> {
    type V = Map<Felt, V>;

    open spec fn view(&self) -> Map<Felt, V> {
        log_map(self.log())
    }
}

impl<V> FeltMap<V> {
    /// The entries in the order in which they were inserted.
    pub closed spec fn log(&self) -> Seq<(Felt, V)> {
        self.entries@
    }

    /// The empty map.
    pub fn new() -> (map: FeltMap<V>)
        ensures
            map.log() == Seq::<(Felt, V)>::empty(),
            map@ == Map::<Felt, V>::empty(),
    {
        FeltMap { entries: Vec::new() }
    }

    /// The number of entries.
    pub fn len(&self) -> (n: usize)
        ensures
            n == self.log().len(),
    {
        self.entries.len()
    }

    /// The entry at position `index` of the log.
    pub fn entry(&self, index: usize) -> (e: Option<&(Felt, V)>)
        ensures
            e == if index < self.log().len() {
                Some(&self.log()[index as int])
            } else {
                None
            },
    {
        if index < self.entries.len() {
            Some(&self.entries[index])
        } else {
            None
        }
    }

    /// The value stored under `key`, if any.
    pub fn get(&self, key: Felt) -> (value: Option<&V>)
        ensures
            value == if self@.contains_key(key) {
                Some(&self@[key])
            } else {
                None
            },
    {
        let mut i: usize = 0;
        while i < self.entries.len()
            invariant
                i <= self.entries.len(),
                forall|j: int| 0 <= j < i ==> self.entries@[j].0 != key,
            decreases self.entries.len() - i,
        {
            if self.entries[i].0 == key {
                proof {
                    lemma_log_map_first(self.entries@, key, i as int);
                }
                return Some(&self.entries[i].1);
            }
            i += 1;
        }
        proof {
            lemma_log_map_keys(self.entries@, key);
        }
        None
    }

    /// Stores `value` under `key` unless the key is already mapped; says
    /// whether it stored.
    pub fn insert(&mut self, key: Felt, value: V) -> (stored: bool)
        ensures
            stored == !old(self)@.contains_key(key),
            final(self).log() == if stored {
                old(self).log().push((key, value))
            } else {
                old(self).log()
            },
            final(self)@ == if stored {
                old(self)@.insert(key, value)
            } else {
                old(self)@
            },
    {
        if self.get(key).is_some() {
            return false;
        }
        self.entries.push((key, value));
        proof {
            assert(self.entries@.drop_last() =~= old(self).entries@);
        }
        true
    }

    /// Cuts the log back to its first `len` entries; does nothing when it
    /// is no longer than that.
    pub fn truncate(&mut self, len: usize)
        ensures
            final(self).log() == if len <= old(self).log().len() {
                old(self).log().take(len as int)
            } else {
                old(self).log()
            },
    {
        if len <= self.entries.len() {
            self.entries.truncate(len);
        }
    }
}

/// Whether `later` continues the log `earlier`.
pub open spec fn extends<T>(later: Seq<T>, earlier: Seq<T>) -> bool {
    earlier.len() <= later.len() && later.take(earlier.len() as int) == earlier
}

/// Continuing a log is transitive.
pub proof fn lemma_extends<T>(c: Seq<T>, b: Seq<T>, a: Seq<T>)
    requires
        extends(c, b),
        extends(b, a),
    ensures
        extends(c, a),
{
    assert(c.take(a.len() as int) =~= b.take(a.len() as int)) by {
        assert forall|i: int| 0 <= i < a.len() implies c[i] == b[i] by {
            assert(c.take(b.len() as int)[i] == b[i]);
        }
    }
}

/// Being part of a map is transitive.
pub proof fn lemma_submap<K, V>(a: Map<K, V>, b: Map<K, V>, c: Map<K, V>)
    requires
        a.submap_of(b),
        b.submap_of(c),
    ensures
        a.submap_of(c),
{
    assert forall|k: K| #[trigger] a.dom().contains(k) implies c.dom().contains(k) && a[k]
        == c[k] by {
        assert(b.dom().contains(k));
    }
}

} // verus!
