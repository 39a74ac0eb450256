//! Delay keys, and the ordered index that files values under them.

use vstd::prelude::*;
use std::collections::BTreeMap;
use crate::types::{InputIdx, OutputIdx};

verus! {

broadcast use vstd::laws_cmp::group_laws_cmp;

/// The sort key of the delay indexes: first the slot until which an entity
/// is held back, then the input position that breaks ties.
#[derive(Clone, Copy, Debug, PartialEq, Eq, Structural)]
pub struct DelayKey {
    pub try_delay_till: OutputIdx,
    pub input_idx: InputIdx,
}

impl DelayKey {
    pub fn new(try_delay_till: OutputIdx, input_idx: InputIdx) -> (key: Self)
        ensures
            key == (DelayKey { try_delay_till, input_idx }),
    {
        DelayKey { try_delay_till, input_idx }
    }

    /// The lexicographic order of delay keys.
    pub open spec fn le(self, other: DelayKey) -> bool {
        self.try_delay_till < other.try_delay_till || (self.try_delay_till
            == other.try_delay_till && self.input_idx <= other.input_idx)
    }
}

/// `key` is in `m`, and no key of `m` comes before it.
pub open spec fn is_first<V>(m: Map<DelayKey, V>, key: DelayKey) -> bool {
    &&& m.contains_key(key)
    &&& forall|other: DelayKey| #[trigger] m.contains_key(other) ==> key.le(other)
}

/// A map has at most one first key.
pub proof fn lemma_first_is_unique<V>(m: Map<DelayKey, V>, a: DelayKey, b: DelayKey)
    requires
        is_first(m, a),
        is_first(m, b),
    ensures
        a == b,
{
}

/// The order of pairs of integers: by the first component, then by the second.
pub open spec fn pair_le(a: (usize, usize), b: (usize, usize)) -> bool {
    a.0 < b.0 || (a.0 == b.0 && a.1 <= b.1)
}

/// The least key of `entries`, as `BTreeMap::first_key_value` finds it.
///
/// This contract is taken on trust. It says what the standard library
/// documents of that call and of the order of pairs: the call finds
/// nothing in an empty map, and else the entry with the minimum key; and
/// pairs are ordered by their first components, then by their second.
#[verifier::external_body]
fn least_key<V>(entries: &BTreeMap<(usize, usize), V>) -> (least: Option<(usize, usize)>)
    ensures
        match least {
            Some(k) => entries@.contains_key(k) && forall|j: (usize, usize)| #[trigger]
                entries@.contains_key(j) ==> pair_le(k, j),
            None => forall|j: (usize, usize)| !entries@.contains_key(j),
        },
{
    entries.first_key_value().map(|(key, _)| *key)
}

/// An ordered index from delay keys to values.
pub struct DelayIndex<V> {
    entries: BTreeMap<(usize, usize), V>,
}

impl<V> View for DelayIndex<V> {
    type V = Map<DelayKey, V>;

    closed spec fn view(&self) -> Map<DelayKey, V> {
        Map::new(
            |k: DelayKey| self.entries@.contains_key((k.try_delay_till, k.input_idx)),
            |k: DelayKey| self.entries@[(k.try_delay_till, k.input_idx)],
        )
    }
}

impl<V> DelayIndex<V> {
    /// The number of entries.
    pub closed spec fn count(&self) -> nat {
        self.entries@.len()
    }

    pub fn new() -> (index: Self)
        ensures
            index@ == Map::<DelayKey, V>::empty(),
    {
        let index = DelayIndex { entries: BTreeMap::new() };
        assert(index@ =~= Map::<DelayKey, V>::empty());
        index
    }

    pub fn is_empty(&self) -> (empty: bool)
        ensures
            empty <==> forall|k: DelayKey| !self@.contains_key(k),
    {
        let least = least_key(&self.entries);
        match least {
            Some(k) => {
                assert(self@.contains_key(DelayKey { try_delay_till: k.0, input_idx: k.1 }));
                false
            },
            None => true,
        }
    }

    pub fn contains_key(&self, key: &DelayKey) -> (found: bool)
        ensures
            found == self@.contains_key(*key),
    {
        let raw = (key.try_delay_till, key.input_idx);
        self.entries.contains_key(&raw)
    }

    pub fn get(&self, key: &DelayKey) -> (value: Option<&V>)
        ensures
            match value {
                Some(v) => self@.contains_key(*key) && self@[*key] == *v,
                None => !self@.contains_key(*key),
            },
    {
        let raw = (key.try_delay_till, key.input_idx);
        self.entries.get(&raw)
    }

    /// The first key of the index, if it has any.
    pub fn first_key(&self) -> (first: Option<DelayKey>)
        ensures
            match first {
                Some(k) => is_first(self@, k),
                None => forall|k: DelayKey| !self@.contains_key(k),
            },
    {
        match least_key(&self.entries) {
            Some(raw) => Some(DelayKey::new(raw.0, raw.1)),
            None => None,
        }
    }

    /// Adds an entry under a key that the index does not hold yet.
    pub fn strict_insert(&mut self, key: DelayKey, value: V)
        requires
            !old(self)@.contains_key(key),
        ensures
            final(self)@ == old(self)@.insert(key, value),
    {
        self.entries.insert((key.try_delay_till, key.input_idx), value);
        assert(self@ =~= old(self)@.insert(key, value));
    }

    /// Takes out the entry under a key that the index holds.
    pub fn strict_remove(&mut self, key: &DelayKey) -> (value: V)
        requires
            old(self)@.contains_key(*key),
        ensures
            final(self)@ == old(self)@.remove(*key),
            value == old(self)@[*key],
            final(self).count() + 1 == old(self).count(),
    {
        let raw = (key.try_delay_till, key.input_idx);
        proof {
            old(self).entries@.lemma_remove_key_len(raw);
        }
        let removed = self.entries.remove(&raw);
        assert(self@ =~= old(self)@.remove(*key));
        removed.unwrap()
    }

    /// Takes out the entry under the first key, if the index has any.
    pub fn pop_first(&mut self) -> (first: Option<(DelayKey, V)>)
        ensures
            match first {
                Some((k, v)) => is_first(old(self)@, k) && v == old(self)@[k] && final(self)@
                    == old(self)@.remove(k) && final(self).count() + 1 == old(self).count(),
                None => final(self)@ == old(self)@ && forall|k: DelayKey|
                    !old(self)@.contains_key(k),
            },
    {
        match self.first_key() {
            Some(key) => {
                let value = self.strict_remove(&key);
                Some((key, value))
            },
            None => None,
        }
    }
}

} // verus!
