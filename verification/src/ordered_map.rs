//! A map from numbers to values that hands its entries out in ascending order.

use std::collections::VecDeque;
use vstd::prelude::*;

verus! {

/// A map whose entries are kept sorted by key.
pub struct OrderedMap<T> {
    entries: VecDeque<(u64, T)>,
}

/// The keys ascend, and none occurs twice.
pub open spec fn ascending<T>(entries: Seq<(u64, T)>) -> bool {
    forall|i: int, j: int|
        0 <= i < j < entries.len() ==> (#[trigger] entries[i]).0 < (#[trigger] entries[j]).0
}

/// `key` is one of the keys.
pub open spec fn has_key<T>(entries: Seq<(u64, T)>, key: u64) -> bool {
    exists|i: int| 0 <= i < entries.len() && (#[trigger] entries[i]).0 == key
}

/// The value that belongs to `key`.
pub open spec fn value_of<T>(entries: Seq<(u64, T)>, key: u64) -> T {
    let i = choose|i: int| 0 <= i < entries.len() && (#[trigger] entries[i]).0 == key;
    entries[i].1
}

/// The map that a list of entries stands for.
pub open spec fn map_of<T>(entries: Seq<(u64, T)>) -> Map<u64, T> {
    Map::new(|key: u64| has_key(entries, key), |key: u64| value_of(entries, key))
}

/// `key` is the smallest key of the map.
pub open spec fn is_first_key<T>(map: Map<u64, T>, key: u64) -> bool {
    &&& map.dom().contains(key)
    &&& forall|other: u64| #[trigger] map.dom().contains(other) ==> key <= other
}

proof fn lemma_entry_in_map<T>(entries: Seq<(u64, T)>, i: int)
    requires
        ascending(entries),
        0 <= i < entries.len(),
    ensures
        map_of(entries).dom().contains(entries[i].0),
        map_of(entries)[entries[i].0] == entries[i].1,
{
    let key = entries[i].0;
    assert(has_key(entries, key));
    let j = choose|j: int| 0 <= j < entries.len() && (#[trigger] entries[j]).0 == key;
    if i < j {
        assert(entries[i].0 < entries[j].0);
    }
    if j < i {
        assert(entries[j].0 < entries[i].0);
    }
}

proof fn lemma_key_in_entries<T>(entries: Seq<(u64, T)>, key: u64) -> (i: int)
    requires
        ascending(entries),
        map_of(entries).dom().contains(key),
    ensures
        0 <= i < entries.len(),
        entries[i].0 == key,
        entries[i].1 == map_of(entries)[key],
{
    assert(has_key(entries, key));
    let i = choose|i: int| 0 <= i < entries.len() && (#[trigger] entries[i]).0 == key;
    lemma_entry_in_map(entries, i);
    i
}

impl<T> View for OrderedMap<T> {
    type V = Map<u64, T>;

    closed spec fn view(&self) -> Map<u64, T> {
        map_of(self.entries@)
    }
}

impl<T> OrderedMap<T> {
    /// The entries in ascending order of their keys.
    pub closed spec fn sorted(self) -> Seq<(u64, T)> {
        self.entries@
    }

    pub closed spec fn wf(self) -> bool {
        ascending(self.entries@)
    }

    pub fn new() -> (r: Self)
        ensures
            r.wf(),
            r@ == Map::<u64, T>::empty(),
            r.sorted().len() == 0,
    {
        let r = OrderedMap { entries: VecDeque::new() };
        assert(r@ =~= Map::<u64, T>::empty());
        r
    }

    /// The number of entries.
    pub fn len(&self) -> (r: usize)
        ensures
            r == self.sorted().len(),
    {
        self.entries.len()
    }

    /// The entry at a place in ascending order.
    pub fn entry(&self, i: usize) -> (r: &(u64, T))
        requires
            self.wf(),
            i < self.sorted().len(),
        ensures
            *r == self.sorted()[i as int],
            self@.dom().contains(r.0),
            self@[r.0] == r.1,
    {
        proof {
            lemma_entry_in_map(self.entries@, i as int);
        }
        &self.entries[i]
    }

    /// Puts a value under a key. What the key held before is dropped.
    pub fn insert(&mut self, key: u64, value: T)
        requires
            old(self).wf(),
        ensures
            final(self).wf(),
            final(self)@ == old(self)@.insert(key, value),
    {
        let ghost before = self.entries@;
        let mut i: usize = 0;
        while i < self.entries.len() && self.entries[i].0 < key
            invariant
                self.entries@ == before,
                i <= before.len(),
                forall|k: int| 0 <= k < i ==> (#[trigger] before[k]).0 < key,
            decreases before.len() - i,
        {
            i = i + 1;
        }
        if i < self.entries.len() && self.entries[i].0 == key {
            let _ = self.entries.remove(i);
            self.entries.insert(i, (key, value));
            assert(self.entries@ =~= before.update(i as int, (key, value)));
            assert forall|other: u64| has_key(self.entries@, other) == (has_key(before, other)
                || other == key) by {
                if has_key(self.entries@, other) && other != key {
                    let k = choose|k: int|
                        0 <= k < self.entries@.len() && (#[trigger] self.entries@[k]).0 == other;
                    assert(before[k].0 == other);
                }
                if has_key(before, other) {
                    let k = choose|k: int|
                        0 <= k < before.len() && (#[trigger] before[k]).0 == other;
                    assert(self.entries@[k].0 == other);
                }
                if other == key {
                    assert(self.entries@[i as int].0 == key);
                }
            }
        } else {
            self.entries.insert(i, (key, value));
            assert(self.entries@ =~= before.insert(i as int, (key, value)));
            assert(i < before.len() ==> before[i as int].0 > key);
            assert forall|other: u64| has_key(self.entries@, other) == (has_key(before, other)
                || other == key) by {
                if has_key(self.entries@, other) && other != key {
                    let k = choose|k: int|
                        0 <= k < self.entries@.len() && (#[trigger] self.entries@[k]).0 == other;
                    if k < i {
                        assert(before[k].0 == other);
                    } else {
                        assert(before[k - 1].0 == other);
                    }
                }
                if has_key(before, other) {
                    let k = choose|k: int|
                        0 <= k < before.len() && (#[trigger] before[k]).0 == other;
                    if k < i {
                        assert(self.entries@[k].0 == other);
                    } else {
                        assert(self.entries@[k + 1].0 == other);
                    }
                }
                if other == key {
                    assert(self.entries@[i as int].0 == key);
                }
            }
        }
        proof {
            let after = self.entries@;
            assert(ascending(after));
            lemma_entry_in_map(after, i as int);
            assert forall|other: u64| has_key(before, other) && other != key implies value_of(
                after,
                other,
            ) == value_of(before, other) by {
                let k = lemma_key_in_entries(before, other);
                let place = if k < i || after.len() == before.len() {
                    k
                } else {
                    k + 1
                };
                assert(after[place] == before[k]);
                lemma_entry_in_map(after, place);
                lemma_entry_in_map(before, k);
            }
            assert(self@ =~= map_of(before).insert(key, value));
        }
    }

    /// Takes out the entry with the smallest key.
    pub fn pop_first(&mut self) -> (r: Option<(u64, T)>)
        requires
            old(self).wf(),
        ensures
            final(self).wf(),
            match r {
                None => old(self)@ == Map::<u64, T>::empty() && final(self)@ == old(self)@,
                Some((key, value)) => {
                    &&& is_first_key(old(self)@, key)
                    &&& value == old(self)@[key]
                    &&& final(self)@ == old(self)@.remove(key)
                },
            },
    {
        let ghost before = self.entries@;
        if self.entries.len() == 0 {
            assert(self@ =~= Map::<u64, T>::empty());
            return None;
        }
        let first = self.entries.pop_front();
        proof {
            let after = self.entries@;
            assert(after =~= before.drop_first());
            assert(ascending(after));
            let key = before[0].0;
            lemma_entry_in_map(before, 0);
            assert forall|other: u64| #[trigger] map_of(before).dom().contains(other) implies key
                <= other by {
                let k = lemma_key_in_entries(before, other);
                if k > 0 {
                    assert(before[0].0 < before[k].0);
                }
            }
            assert forall|other: u64| has_key(after, other) == (has_key(before, other) && other
                != key) by {
                if has_key(after, other) {
                    let k = choose|k: int|
                        0 <= k < after.len() && (#[trigger] after[k]).0 == other;
                    assert(before[k + 1].0 == other);
                    assert(before[0].0 < before[k + 1].0);
                }
                if has_key(before, other) && other != key {
                    let k = choose|k: int|
                        0 <= k < before.len() && (#[trigger] before[k]).0 == other;
                    assert(after[k - 1].0 == other);
                }
            }
            assert forall|other: u64| has_key(after, other) implies value_of(after, other)
                == value_of(before, other) by {
                let k = lemma_key_in_entries(after, other);
                assert(before[k + 1] == after[k]);
                lemma_entry_in_map(before, k + 1);
            }
            assert(self@ =~= map_of(before).remove(key));
        }
        first
    }

    /// The entry with the smallest key.
    pub fn first(&self) -> (r: Option<&(u64, T)>)
        requires
            self.wf(),
        ensures
            match r {
                None => self@ == Map::<u64, T>::empty(),
                Some(entry) => is_first_key(self@, entry.0) && entry.1 == self@[entry.0],
            },
    {
        if self.entries.len() == 0 {
            assert(self@ =~= Map::<u64, T>::empty());
            return None;
        }
        proof {
            let entries = self.entries@;
            lemma_entry_in_map(entries, 0);
            assert forall|other: u64| #[trigger] self@.dom().contains(other) implies entries[0].0
                <= other by {
                let k = lemma_key_in_entries(entries, other);
                if k > 0 {
                    assert(entries[0].0 < entries[k].0);
                }
            }
        }
        Some(&self.entries[0])
    }
}

/// Every key of the map has a place in the sorted list.
pub proof fn lemma_key_has_place<T>(map: OrderedMap<T>, key: u64) -> (i: int)
    requires
        map.wf(),
        map@.dom().contains(key),
    ensures
        0 <= i < map.sorted().len(),
        map.sorted()[i] == (key, map@[key]),
{
    lemma_key_in_entries(map.entries@, key)
}

} // verus!
