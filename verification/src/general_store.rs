//! A small key-value store: byte-string keys, 128-bit integer values.

use vstd::prelude::*;
use crate::identity::bytes_equal;
use crate::identity::Address;

verus! {

/// Why an operation on the store was refused.
#[derive(Clone, Copy, Debug, PartialEq, Eq, Structural)]
pub enum StoreError {
    /// The key to update has no value yet.
    MissingKey,
}

/// One stored value under its key.
#[derive(Debug, PartialEq, Eq)]
pub struct Entry {
    pub key: Vec<u8>,
    pub value: i128,
}

/// What an [`Entry`] stands for.
pub struct EntryView {
    pub key: Seq<u8>,
    pub value: int,
}

impl View for Entry {
    type V = EntryView;

    open spec fn view(&self) -> EntryView {
        EntryView { key: self.key@, value: self.value as int }
    }
}

/// What a list of entries stands for, entry by entry.
pub open spec fn entry_views(entries: Seq<Entry>) -> Seq<EntryView> {
    entries.map_values(|e: Entry| e@)
}

/// `key` has an entry in `es`.
pub open spec fn has_key(es: Seq<EntryView>, key: Seq<u8>) -> bool {
    exists|i: int| 0 <= i < es.len() && (#[trigger] es[i]).key == key
}

/// The position of the entry of `key`, where it has one.
pub open spec fn key_slot(es: Seq<EntryView>, key: Seq<u8>) -> int {
    choose|i: int| 0 <= i < es.len() && (#[trigger] es[i]).key == key
}

/// No key has two entries.
pub open spec fn unique_keys(es: Seq<EntryView>) -> bool {
    forall|i: int, j: int| 0 <= i < j < es.len() ==> (#[trigger] es[i]).key != (#[trigger] es[j]).key
}

/// The mapping that a list of entries with unique keys stands for.
pub open spec fn as_map(es: Seq<EntryView>) -> Map<Seq<u8>, int> {
    Map::new(|key: Seq<u8>| has_key(es, key), |key: Seq<u8>| es[key_slot(es, key)].value)
}

/// Where no key has two entries, an entry's position is the slot of its key,
/// and the mapping gives its value.
pub proof fn lemma_key_slot(es: Seq<EntryView>, i: int)
    requires
        unique_keys(es),
        0 <= i < es.len(),
    ensures
        has_key(es, es[i].key),
        key_slot(es, es[i].key) == i,
        as_map(es).contains_key(es[i].key),
        as_map(es)[es[i].key] == es[i].value,
{
    let key = es[i].key;
    let s = key_slot(es, key);
    assert(0 <= s < es.len() && es[s].key == key);
    if s < i {
        assert(es[s].key != es[i].key);
    } else if i < s {
        assert(es[i].key != es[s].key);
    }
}

/// Replacing the value at position `i` is inserting it under the key there.
pub proof fn lemma_store_update(es: Seq<EntryView>, i: int, value: int)
    requires
        unique_keys(es),
        0 <= i < es.len(),
    ensures
        unique_keys(es.update(i, EntryView { key: es[i].key, value })),
        as_map(es.update(i, EntryView { key: es[i].key, value })) == as_map(es).insert(
            es[i].key,
            value,
        ),
{
    let after = es.update(i, EntryView { key: es[i].key, value });
    assert forall|a: int, b: int| 0 <= a < b < after.len() implies (#[trigger] after[a]).key != (
    #[trigger] after[b]).key by {
        assert(after[a].key == es[a].key);
        assert(after[b].key == es[b].key);
    }
    assert forall|key: Seq<u8>| has_key(after, key) == has_key(es, key) by {
        if has_key(es, key) {
            let k = key_slot(es, key);
            assert(after[k].key == key);
        }
        if has_key(after, key) {
            let k = key_slot(after, key);
            assert(es[k].key == key);
        }
    }
    assert forall|key: Seq<u8>| has_key(after, key) implies #[trigger] as_map(after)[key] == as_map(
        es,
    ).insert(es[i].key, value)[key] by {
        let k = key_slot(after, key);
        lemma_key_slot(after, k);
        assert(es[k].key == key);
        lemma_key_slot(es, k);
    }
    lemma_key_slot(es, i);
    assert(as_map(after) =~= as_map(es).insert(es[i].key, value));
}

/// Appending an entry under a new key is inserting it.
pub proof fn lemma_store_push(es: Seq<EntryView>, entry: EntryView)
    requires
        unique_keys(es),
        !has_key(es, entry.key),
    ensures
        unique_keys(es.push(entry)),
        as_map(es.push(entry)) == as_map(es).insert(entry.key, entry.value),
{
    let after = es.push(entry);
    assert forall|a: int, b: int| 0 <= a < b < after.len() implies (#[trigger] after[a]).key != (
    #[trigger] after[b]).key by {
        assert(after[a] == es[a]);
        if b < es.len() {
            assert(after[b] == es[b]);
        }
    }
    assert forall|key: Seq<u8>| has_key(after, key) == (has_key(es, key) || key == entry.key) by {
        if has_key(es, key) {
            let k = key_slot(es, key);
            assert(after[k].key == key);
        }
        if key == entry.key {
            assert(after[es.len() as int].key == key);
        }
        if has_key(after, key) {
            let k = key_slot(after, key);
            if k < es.len() {
                assert(es[k].key == key);
            }
        }
    }
    assert forall|key: Seq<u8>| has_key(after, key) implies #[trigger] as_map(after)[key] == as_map(
        es,
    ).insert(entry.key, entry.value)[key] by {
        let k = key_slot(after, key);
        lemma_key_slot(after, k);
        if k < es.len() {
            assert(es[k] == after[k]);
            lemma_key_slot(es, k);
        }
    }
    assert(as_map(after) =~= as_map(es).insert(entry.key, entry.value));
}

/// Taking out the entry at position `i` is removing its key.
pub proof fn lemma_store_remove(es: Seq<EntryView>, i: int)
    requires
        unique_keys(es),
        0 <= i < es.len(),
    ensures
        unique_keys(es.remove(i)),
        as_map(es.remove(i)) == as_map(es).remove(es[i].key),
{
    let after = es.remove(i);
    let place = |a: int| if a < i { a } else { a + 1 };
    assert forall|a: int| 0 <= a < after.len() implies #[trigger] after[a] == es[place(a)] by {}
    assert forall|a: int, b: int| 0 <= a < b < after.len() implies (#[trigger] after[a]).key != (
    #[trigger] after[b]).key by {
        assert(after[a] == es[place(a)]);
        assert(after[b] == es[place(b)]);
        assert(es[place(a)].key != es[place(b)].key);
    }
    assert forall|key: Seq<u8>| has_key(after, key) == (has_key(es, key) && key != es[i].key) by {
        if has_key(es, key) && key != es[i].key {
            let k = key_slot(es, key);
            if k < i {
                assert(after[k].key == key);
            } else {
                assert(after[k - 1] == es[place(k - 1)]);
                assert(after[k - 1].key == key);
            }
        }
        if has_key(after, key) {
            let k = key_slot(after, key);
            assert(after[k] == es[place(k)]);
            assert(es[place(k)].key == key);
            if place(k) < i {
                assert(es[place(k)].key != es[i].key);
            } else {
                assert(es[i].key != es[place(k)].key);
            }
        }
    }
    assert forall|key: Seq<u8>| has_key(after, key) implies #[trigger] as_map(after)[key] == as_map(
        es,
    ).remove(es[i].key)[key] by {
        let k = key_slot(after, key);
        lemma_key_slot(after, k);
        assert(after[k] == es[place(k)]);
        lemma_key_slot(es, place(k));
    }
    assert(as_map(after) =~= as_map(es).remove(es[i].key));
}

/// The store.
#[derive(Debug)]
pub struct GeneralStore {
    entries: Vec<Entry>,
}

impl View for GeneralStore {
    type V = Map<Seq<u8>, int>;

    closed spec fn view(&self) -> Map<Seq<u8>, int> {
        as_map(entry_views(self.entries@))
    }
}

impl GeneralStore {
    /// No key is stored twice.
    pub closed spec fn wf(&self) -> bool {
        unique_keys(entry_views(self.entries@))
    }

    /// The empty store.
    pub fn new() -> (store: GeneralStore)
        ensures
            store@ == Map::<Seq<u8>, int>::empty(),
            store.wf(),
    {
        let store = GeneralStore { entries: Vec::new() };
        assert(store@ =~= Map::<Seq<u8>, int>::empty());
        store
    }

    /// Takes `entries` as a store, where no key has two entries.
    pub fn from_entries(entries: Vec<Entry>) -> (store: Option<GeneralStore>)
        ensures
            match store {
                Some(s) => s.wf() && unique_keys(entry_views(entries@)) && s@ == as_map(
                    entry_views(entries@),
                ),
                None => !unique_keys(entry_views(entries@)),
            },
    {
        let ghost es = entry_views(entries@);
        let mut j: usize = 0;
        while j < entries.len()
            invariant
                j <= entries.len(),
                es == entry_views(entries@),
                forall|a: int, b: int| 0 <= a < b < j ==> (#[trigger] es[a]).key != (#[trigger] es[b]).key,
            decreases entries.len() - j,
        {
            let mut i: usize = 0;
            while i < j
                invariant
                    i <= j < entries.len(),
                    es == entry_views(entries@),
                    forall|a: int| 0 <= a < i ==> (#[trigger] es[a]).key != es[j as int].key,
                decreases j - i,
            {
                if bytes_equal(&entries[i].key, &entries[j].key) {
                    assert(es[i as int].key == es[j as int].key);
                    return None;
                }
                i += 1;
            }
            j += 1;
        }
        Some(GeneralStore { entries })
    }

    /// The entries, in the order in which their keys were first set.
    pub fn entries(&self) -> (entries: &Vec<Entry>)
        requires
            self.wf(),
        ensures
            unique_keys(entry_views(entries@)),
            as_map(entry_views(entries@)) == self@,
    {
        &self.entries
    }

    /// Looks `key` up by scanning the entries.
    fn find(&self, key: &Vec<u8>) -> (slot: Option<usize>)
        requires
            self.wf(),
        ensures
            match slot {
                Some(i) => i < self.entries@.len() && entry_views(self.entries@)[i as int].key
                    == key@ && self@.contains_key(key@) && self@[key@] == self.entries@[i as int].value,
                None => !self@.contains_key(key@) && !has_key(entry_views(self.entries@), key@),
            },
    {
        let ghost es = entry_views(self.entries@);
        let mut i: usize = 0;
        while i < self.entries.len()
            invariant
                i <= self.entries.len(),
                es == entry_views(self.entries@),
                forall|k: int| 0 <= k < i ==> (#[trigger] es[k]).key != key@,
                self.wf(),
            decreases self.entries.len() - i,
        {
            if bytes_equal(&self.entries[i].key, key) {
                proof {
                    assert(es[i as int].key == key@);
                    lemma_key_slot(es, i as int);
                }
                return Some(i);
            }
            i += 1;
        }
        None
    }

    /// Stores `value` under `key`, in place of what was there. Any caller may
    /// write: `caller` is whoever asked.
    pub fn set(&mut self, caller: &Address, key: Vec<u8>, value: i128)
        requires
            old(self).wf(),
        ensures
            final(self).wf(),
            final(self)@ == old(self)@.insert(key@, value as int),
    {
        let ghost es = entry_views(self.entries@);
        match self.find(&key) {
            Some(i) => {
                proof {
                    lemma_store_update(es, i as int, value as int);
                }
                self.entries.set(i, Entry { key, value });
                assert(entry_views(self.entries@) == es.update(
                    i as int,
                    EntryView { key: es[i as int].key, value: value as int },
                ));
            },
            None => {
                proof {
                    lemma_store_push(es, EntryView { key: key@, value: value as int });
                }
                self.entries.push(Entry { key, value });
                assert(entry_views(self.entries@) == es.push(
                    EntryView { key: key@, value: value as int },
                ));
            },
        }
    }

    /// The value under `key`: zero where there is none.
    pub fn get(&self, key: &Vec<u8>) -> (value: i128)
        requires
            self.wf(),
        ensures
            value == if self@.contains_key(key@) {
                self@[key@]
            } else {
                0
            },
    {
        match self.find(key) {
            Some(i) => self.entries[i].value,
            None => 0,
        }
    }

    /// Tells whether there is a value under `key`.
    pub fn has(&self, key: &Vec<u8>) -> (present: bool)
        requires
            self.wf(),
        ensures
            present == self@.contains_key(key@),
    {
        self.find(key).is_some()
    }

    /// Deletes what is under `key`, if anything. Any caller may delete:
    /// `caller` is whoever asked.
    pub fn remove(&mut self, caller: &Address, key: &Vec<u8>)
        requires
            old(self).wf(),
        ensures
            final(self).wf(),
            final(self)@ == old(self)@.remove(key@),
    {
        let ghost es = entry_views(self.entries@);
        match self.find(key) {
            Some(i) => {
                proof {
                    lemma_store_remove(es, i as int);
                }
                let _ = self.entries.remove(i);
                assert(entry_views(self.entries@) == es.remove(i as int));
            },
            None => {
                assert(self@ =~= self@.remove(key@));
            },
        }
    }

    /// Stores `value` under `key` where there is a value already, and
    /// refuses with `MissingKey` where there is none. Any caller may update:
    /// `caller` is whoever asked.
    pub fn update(&mut self, caller: &Address, key: Vec<u8>, value: i128) -> (outcome: Result<
        (),
        StoreError,
    >)
        requires
            old(self).wf(),
        ensures
            final(self).wf(),
            old(self)@.contains_key(key@) ==> outcome is Ok && final(self)@ == old(self)@.insert(
                key@,
                value as int,
            ),
            !old(self)@.contains_key(key@) ==> outcome == Err::<(), StoreError>(
                StoreError::MissingKey,
            ) && final(self)@ == old(self)@,
    {
        if !self.has(&key) {
            return Err(StoreError::MissingKey);
        }
        self.set(caller, key, value);
        Ok(())
    }
}

} // verus!
