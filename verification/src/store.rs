//! The store: a mapping from keys to values, both text, without expiry,
//! capacity bound or removal.

use vstd::prelude::*;

verus! {

/// One key with the value last stored under it.
struct Entry {
    key: String,
    value: String,
}

/// The mapping that a sequence of entries stands for: each entry in turn is
/// stored under its key, a later one replacing an earlier one of the same key.
spec fn mapping(entries: Seq<Entry>) -> Map<Seq<char>, Seq<char>>
    decreases entries.len(),
{
    if entries.len() == 0 {
        Map::empty()
    } else {
        mapping(entries.drop_last()).insert(entries.last().key@, entries.last().value@)
    }
}

/// No entry behind position `from` has the key `key`.
spec fn absent_after(entries: Seq<Entry>, from: int, key: Seq<char>) -> bool {
    forall|j: int| from <= j < entries.len() ==> (#[trigger] entries[j]).key@ != key
}

/// A key that no entry has is no key of the mapping.
proof fn lemma_mapping_absent(entries: Seq<Entry>, key: Seq<char>)
    requires
        absent_after(entries, 0, key),
    ensures
        !mapping(entries).contains_key(key),
    decreases entries.len(),
{
    if entries.len() > 0 {
        let front = entries.drop_last();
        assert forall|j: int| 0 <= j < front.len() implies (#[trigger] front[j]).key@ != key by {
            assert(entries[j].key@ != key);
        }
        lemma_mapping_absent(front, key);
        assert(entries[entries.len() - 1].key@ != key);
    }
}

/// The mapping holds under a key the value of the last entry with that key.
proof fn lemma_mapping_last(entries: Seq<Entry>, i: int)
    requires
        0 <= i < entries.len(),
        absent_after(entries, i + 1, entries[i].key@),
    ensures
        mapping(entries).contains_key(entries[i].key@),
        mapping(entries)[entries[i].key@] == entries[i].value@,
    decreases entries.len(),
{
    if i < entries.len() - 1 {
        let front = entries.drop_last();
        assert forall|j: int| i + 1 <= j < front.len() implies (#[trigger] front[j]).key@
            != front[i].key@ by {
            assert(entries[j].key@ != entries[i].key@);
        }
        lemma_mapping_last(front, i);
        assert(entries[entries.len() - 1].key@ != entries[i].key@);
    }
}

/// Putting a new value into the last entry of a key stores that value under
/// the key and leaves every other key as it was.
proof fn lemma_mapping_update(entries: Seq<Entry>, i: int, entry: Entry)
    requires
        0 <= i < entries.len(),
        entry.key@ == entries[i].key@,
        absent_after(entries, i + 1, entry.key@),
    ensures
        mapping(entries.update(i, entry)) == mapping(entries).insert(entry.key@, entry.value@),
    decreases entries.len(),
{
    let after = entries.update(i, entry);
    let front = entries.drop_last();
    if i == entries.len() - 1 {
        assert(after.drop_last() =~= front);
        assert(mapping(after) =~= mapping(entries).insert(entry.key@, entry.value@));
    } else {
        assert forall|j: int| i + 1 <= j < front.len() implies (#[trigger] front[j]).key@
            != entry.key@ by {
            assert(entries[j].key@ != entry.key@);
        }
        lemma_mapping_update(front, i, entry);
        assert(after.drop_last() =~= front.update(i, entry));
        assert(entries[entries.len() - 1].key@ != entry.key@);
        assert(mapping(after) =~= mapping(entries).insert(entry.key@, entry.value@));
    }
}

/// The keys and values of the cache.
pub struct Store {
    entries: Vec<Entry>,
}

impl View for Store {
    type V = Map<Seq<char>, Seq<char>>;

    closed spec fn view(&self) -> Map<Seq<char>, Seq<char>> {
        mapping(self.entries@)
    }
}

impl Store {
    /// A store that holds nothing.
    pub fn new() -> (store: Store)
        ensures
            store@ == Map::<Seq<char>, Seq<char>>::empty(),
    {
        Store { entries: Vec::new() }
    }

    /// The position of the last entry with the key `key`, if there is one.
    fn position(&self, key: &String) -> (found: Option<usize>)
        ensures
            match found {
                Some(i) => i < self.entries@.len() && self.entries@[i as int].key@ == key@
                    && absent_after(self.entries@, i + 1, key@),
                None => absent_after(self.entries@, 0, key@),
            },
    {
        let mut i: usize = self.entries.len();
        while i > 0
            invariant
                i <= self.entries.len(),
                absent_after(self.entries@, i as int, key@),
            decreases i,
        {
            i -= 1;
            if self.entries[i].key == *key {
                return Some(i);
            }
        }
        None
    }

    /// The value stored under `key`, if there is one.
    pub fn get(&self, key: &String) -> (found: Option<&String>)
        ensures
            found is Some <==> self@.contains_key(key@),
            found matches Some(value) ==> value@ == self@[key@],
    {
        match self.position(key) {
            Some(i) => {
                proof {
                    lemma_mapping_last(self.entries@, i as int);
                }
                Some(&self.entries[i].value)
            },
            None => {
                proof {
                    lemma_mapping_absent(self.entries@, key@);
                }
                None
            },
        }
    }

    /// Stores `value` under `key`, in place of what was stored there before.
    pub fn insert(&mut self, key: String, value: String)
        ensures
            final(self)@ == old(self)@.insert(key@, value@),
    {
        match self.position(&key) {
            Some(i) => {
                proof {
                    lemma_mapping_update(self.entries@, i as int, Entry { key, value });
                }
                self.entries.set(i, Entry { key, value });
            },
            None => {
                proof {
                    assert(self.entries@.push(Entry { key, value }).drop_last() =~= self.entries@);
                }
                self.entries.push(Entry { key, value });
            },
        }
    }
}

} // verus!
