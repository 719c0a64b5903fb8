//! Flat rows: one record that maps tag names to values.

use std::sync::Arc;
use vstd::prelude::*;
use crate::text::{same, share};

verus! {

/// Whether some entry of `entries` has the key `key`.
pub open spec fn has_key(entries: Seq<(String, Arc<String>)>, key: Seq<char>) -> bool {
    exists|i: int| 0 <= i < entries.len() && (#[trigger] entries[i]).0@ == key
}

/// The index of an entry with the key `key`.
pub open spec fn index_of_key(entries: Seq<(String, Arc<String>)>, key: Seq<char>) -> int {
    choose|i: int| 0 <= i < entries.len() && (#[trigger] entries[i]).0@ == key
}

/// No two entries have the same key.
pub open spec fn distinct_keys(entries: Seq<(String, Arc<String>)>) -> bool {
    forall|i: int, j: int|
        0 <= i < entries.len() && 0 <= j < entries.len() && i != j ==> (#[trigger] entries[i]).0@
            != (#[trigger] entries[j]).0@
}

/// The mapping that entries with distinct keys stand for.
pub open spec fn entries_map(entries: Seq<(String, Arc<String>)>) -> Map<Seq<char>, Seq<char>> {
    Map::new(
        |key: Seq<char>| has_key(entries, key),
        |key: Seq<char>| entries[index_of_key(entries, key)].1@,
    )
}

/// The keys of the entries, in their order.
pub open spec fn keys_of(entries: Seq<(String, Arc<String>)>) -> Seq<Seq<char>> {
    entries.map_values(|e: (String, Arc<String>)| e.0@)
}

/// One flat record: a mapping from tag names to values.
///
/// The entries are kept in the order in which their keys first came; no key
/// occurs twice.
#[derive(Debug)]
pub struct FlatRow {
    entries: Vec<(String, Arc<String>)>,
}

impl View for FlatRow {
    type V = Map<Seq<char>, Seq<char>>;

    closed spec fn view(&self) -> Map<Seq<char>, Seq<char>> {
        entries_map(self.entries@)
    }
}

impl FlatRow {
    #[verifier::type_invariant]
    spec fn well_formed(&self) -> bool {
        distinct_keys(self.entries@)
    }

    /// The keys of the row, in the order in which they first came.
    pub closed spec fn keys_in_order(&self) -> Seq<Seq<char>> {
        keys_of(self.entries@)
    }

    /// The row without entries.
    pub fn new() -> (r: FlatRow)
        ensures
            r@ == Map::<Seq<char>, Seq<char>>::empty(),
            r.keys_in_order() == Seq::<Seq<char>>::empty(),
    {
        let r = FlatRow { entries: Vec::new() };
        assert(r@ =~= Map::<Seq<char>, Seq<char>>::empty());
        assert(r.keys_in_order() =~= Seq::<Seq<char>>::empty());
        r
    }

    fn position(&self, key: &str) -> (r: Option<usize>)
        ensures
            match r {
                Some(i) => i < self.entries@.len() && self.entries@[i as int].0@ == key@,
                None => !has_key(self.entries@, key@),
            },
    {
        let mut i: usize = 0;
        while i < self.entries.len()
            invariant
                i <= self.entries.len(),
                forall|j: int| 0 <= j < i ==> (#[trigger] self.entries@[j]).0@ != key@,
            decreases self.entries.len() - i,
        {
            if same(self.entries[i].0.as_str(), key) {
                return Some(i);
            }
            i += 1;
        }
        None
    }

    /// Whether the row has an entry for `key`.
    pub fn contains_key(&self, key: &str) -> (r: bool)
        ensures
            r == self@.contains_key(key@),
    {
        self.position(key).is_some()
    }

    /// The value that the row holds for `key`.
    pub fn get(&self, key: &str) -> (r: Option<&Arc<String>>)
        ensures
            match r {
                Some(value) => self@.contains_key(key@) && value@ == self@[key@],
                None => !self@.contains_key(key@),
            },
    {
        proof {
            use_type_invariant(self);
        }
        match self.position(key) {
            Some(i) => Some(&self.entries[i].1),
            None => None,
        }
    }

    /// Sets the value for `key`, in place of the value that the row held for it
    /// before, if any.
    pub fn insert(&mut self, key: String, value: Arc<String>)
        ensures
            final(self)@ == old(self)@.insert(key@, value@),
            final(self).keys_in_order() == if old(self)@.contains_key(key@) {
                old(self).keys_in_order()
            } else {
                old(self).keys_in_order().push(key@)
            },
    {
        proof {
            use_type_invariant(&*self);
        }
        let ghost before = self.entries@;
        let found = self.position(key.as_str());
        let mut entries: Vec<(String, Arc<String>)> = Vec::new();
        std::mem::swap(&mut entries, &mut self.entries);
        match found {
            Some(i) => {
                entries.set(i, (key, value));
                proof {
                    let after = entries@;
                    assert forall|k: Seq<char>| has_key(after, k) == has_key(before, k) by {
                        if has_key(before, k) {
                            let j = index_of_key(before, k);
                            assert(after[j].0@ == k);
                        }
                        if has_key(after, k) {
                            let j = index_of_key(after, k);
                            assert(before[j].0@ == k);
                        }
                    }
                    assert(after[i as int].0@ == key@);
                    assert(has_key(after, key@));
                    assert(entries_map(after) =~= entries_map(before).insert(key@, value@));
                    assert(keys_of(after) =~= keys_of(before));
                }
            },
            None => {
                entries.push((key, value));
                proof {
                    let after = entries@;
                    let last = before.len() as int;
                    assert(after[last].0@ == key@);
                    assert forall|k: Seq<char>| has_key(after, k) == (has_key(before, k) || k
                        == key@) by {
                        if has_key(before, k) {
                            let j = index_of_key(before, k);
                            assert(after[j].0@ == k);
                        }
                        if has_key(after, k) {
                            let j = index_of_key(after, k);
                            if j < last {
                                assert(before[j].0@ == k);
                            }
                        }
                    }
                    assert forall|k: Seq<char>| has_key(before, k) implies entries_map(after)[k]
                        == entries_map(before)[k] by {
                        let j = index_of_key(before, k);
                        assert(after[j].0@ == k);
                    }
                    assert(entries_map(after) =~= entries_map(before).insert(key@, value@));
                    assert(keys_of(after) =~= keys_of(before).push(key@));
                }
            },
        }
        self.entries = entries;
    }

    /// A row with the same entries.
    pub fn duplicate(&self) -> (r: FlatRow)
        ensures
            r@ == self@,
            r.keys_in_order() == self.keys_in_order(),
    {
        proof {
            use_type_invariant(self);
        }
        let mut entries: Vec<(String, Arc<String>)> = Vec::new();
        let mut i: usize = 0;
        while i < self.entries.len()
            invariant
                i <= self.entries@.len(),
                entries@.len() == i,
                forall|j: int|
                    0 <= j < i ==> (#[trigger] entries@[j]).0@ == self.entries@[j].0@
                        && entries@[j].1@ == self.entries@[j].1@,
            decreases self.entries@.len() - i,
        {
            let e = &self.entries[i];
            entries.push((e.0.clone(), share(&e.1)));
            i += 1;
        }
        proof {
            let mine = self.entries@;
            let copy = entries@;
            assert forall|k: Seq<char>| has_key(copy, k) == has_key(mine, k) by {
                if has_key(mine, k) {
                    let j = index_of_key(mine, k);
                    assert(copy[j].0@ == k);
                }
                if has_key(copy, k) {
                    let j = index_of_key(copy, k);
                    assert(mine[j].0@ == k);
                }
            }
            assert forall|k: Seq<char>| has_key(mine, k) implies entries_map(copy)[k]
                == entries_map(mine)[k] by {
                let j = index_of_key(mine, k);
                assert(copy[j].0@ == k);
                let c = index_of_key(copy, k);
                assert(mine[c].0@ == k);
            }
            assert(entries_map(copy) =~= entries_map(mine));
            assert(keys_of(copy) =~= keys_of(mine));
        }
        FlatRow { entries }
    }

    /// The number of entries. The keys in order are the keys of the mapping,
    /// each once.
    pub fn len(&self) -> (r: usize)
        ensures
            r == self.keys_in_order().len(),
            r == self@.len(),
            self@.dom().finite(),
            self.keys_in_order().no_duplicates(),
            self.keys_in_order().to_set() == self@.dom(),
    {
        proof {
            use_type_invariant(self);
            let keys = self.keys_in_order();
            assert forall|k: Seq<char>| keys.contains(k) == has_key(self.entries@, k) by {
                if keys.contains(k) {
                    let i = choose|i: int| 0 <= i < keys.len() && keys[i] == k;
                    assert(self.entries@[i].0@ == k);
                }
                if has_key(self.entries@, k) {
                    let i = index_of_key(self.entries@, k);
                    assert(keys[i] == k);
                }
            }
            assert(keys.to_set() =~= self@.dom());
            keys.unique_seq_to_set();
            vstd::seq_lib::seq_to_set_is_finite(keys);
        }
        self.entries.len()
    }

    /// The key and the value of the entry at `index`, counted in the order in
    /// which the keys first came.
    pub fn entry(&self, index: usize) -> (r: Option<(&String, &Arc<String>)>)
        ensures
            match r {
                Some((key, value)) => {
                    &&& index < self.keys_in_order().len()
                    &&& key@ == self.keys_in_order()[index as int]
                    &&& self@.contains_key(key@)
                    &&& value@ == self@[key@]
                },
                None => index >= self.keys_in_order().len(),
            },
    {
        proof {
            use_type_invariant(self);
        }
        if index < self.entries.len() {
            let e = &self.entries[index];
            assert(has_key(self.entries@, e.0@));
            Some((&e.0, &e.1))
        } else {
            None
        }
    }
}

} // verus!
