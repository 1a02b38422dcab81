//! A small map keyed by fixed-length byte strings.

use crate::bytes;
use vstd::prelude::*;

verus! {

/// The map that a list of entries spells, later entries winning.
pub open spec fn entries_map<const N: usize, V>(entries: Seq<([u8; N], V)>) -> Map<Seq<u8>, V>
    decreases entries.len(),
{
    if entries.len() == 0 {
        Map::empty()
    } else {
        entries_map(entries.drop_last()).insert(entries.last().0@, entries.last().1)
    }
}

/// No key occurs twice.
pub open spec fn distinct_keys<const N: usize, V>(entries: Seq<([u8; N], V)>) -> bool {
    forall|i: int, j: int|
        0 <= i < j < entries.len() ==> (#[trigger] entries[i]).0@ != (#[trigger] entries[j]).0@
}

/// The map has exactly the listed keys, each with its listed value.
proof fn lemma_entries_map<const N: usize, V>(entries: Seq<([u8; N], V)>)
    requires
        distinct_keys(entries),
    ensures
        entries_map(entries).dom().finite(),
        entries_map(entries).dom().len() == entries.len(),
        forall|i: int|
            0 <= i < entries.len() ==> entries_map(entries).contains_key(
                (#[trigger] entries[i]).0@,
            ) && entries_map(entries)[entries[i].0@] == entries[i].1,
        forall|k: Seq<u8>| #[trigger]
            entries_map(entries).contains_key(k) ==> exists|i: int|
                0 <= i < entries.len() && (#[trigger] entries[i]).0@ == k,
    decreases entries.len(),
{
    if entries.len() > 0 {
        let front = entries.drop_last();
        let last = entries.last();
        assert(distinct_keys(front)) by {
            assert forall|i: int, j: int| 0 <= i < j < front.len() implies (
            #[trigger] front[i]).0@ != (#[trigger] front[j]).0@ by {
                assert(front[i] == entries[i] && front[j] == entries[j]);
            }
        }
        lemma_entries_map(front);
        assert(!entries_map(front).contains_key(last.0@)) by {
            if entries_map(front).contains_key(last.0@) {
                let i = choose|i: int| 0 <= i < front.len() && (#[trigger] front[i]).0@ == last.0@;
                assert(front[i] == entries[i]);
                assert(entries[i].0@ != entries[entries.len() - 1].0@);
            }
        }
        let m = entries_map(entries);
        assert(m.dom() =~= entries_map(front).dom().insert(last.0@));
        assert forall|i: int| 0 <= i < entries.len() implies m.contains_key(
            (#[trigger] entries[i]).0@,
        ) && m[entries[i].0@] == entries[i].1 by {
            if i < front.len() {
                assert(entries[i] == front[i]);
                assert(entries[i].0@ != entries[entries.len() - 1].0@);
            }
        }
        assert forall|k: Seq<u8>| #[trigger] m.contains_key(k) implies exists|i: int|
            0 <= i < entries.len() && (#[trigger] entries[i]).0@ == k by {
            if k == last.0@ {
                assert(entries[entries.len() - 1].0@ == k);
            } else {
                assert(entries_map(front).contains_key(k));
                let i = choose|i: int| 0 <= i < front.len() && (#[trigger] front[i]).0@ == k;
                assert(entries[i].0@ == k);
            }
        }
    }
}

/// A map keyed by `N`-byte strings, in the order the keys first came.
pub struct Table<const N: usize, V> {
    entries: Vec<([u8; N], V)>,
}

impl<const N: usize, V> View for Table<N, V> {
    type V = Map<Seq<u8>, V>;

    closed spec fn view(&self) -> Map<Seq<u8>, V> {
        entries_map(self.entries@)
    }
}

impl<const N: usize, V> Table<N, V> {
    #[verifier::type_invariant]
    spec fn keys_are_distinct(self) -> bool {
        distinct_keys(self.entries@)
    }

    /// An empty table.
    pub fn new() -> (table: Self)
        ensures
            table@ == Map::<Seq<u8>, V>::empty(),
    {
        Table { entries: Vec::new() }
    }

    /// How many keys there are.
    pub fn len(&self) -> (len: usize)
        ensures
            self@.dom().finite(),
            len as nat == self@.dom().len(),
    {
        proof {
            use_type_invariant(self);
            lemma_entries_map(self.entries@);
        }
        self.entries.len()
    }

    fn find(&self, key: &[u8; N]) -> (at: Option<usize>)
        ensures
            match at {
                Some(i) => i < self.entries@.len() && self.entries@[i as int].0@ == key@,
                None => forall|i: int|
                    0 <= i < self.entries@.len() ==> (#[trigger] self.entries@[i]).0@ != key@,
            },
    {
        let mut i: usize = 0;
        while i < self.entries.len()
            invariant
                i <= self.entries@.len(),
                forall|j: int| 0 <= j < i ==> (#[trigger] self.entries@[j]).0@ != key@,
            decreases self.entries@.len() - i,
        {
            if bytes::same_bytes(&self.entries[i].0, key) {
                return Some(i);
            }
            i += 1;
        }
        None
    }

    /// The value of `key`, if there is one.
    pub fn get(&self, key: &[u8; N]) -> (value: Option<&V>)
        ensures
            match value {
                Some(v) => self@.contains_key(key@) && self@[key@] == *v,
                None => !self@.contains_key(key@),
            },
    {
        proof {
            use_type_invariant(self);
            lemma_entries_map(self.entries@);
        }
        match self.find(key) {
            Some(i) => Some(&self.entries[i].1),
            None => None,
        }
    }

    /// Whether `key` has a value.
    pub fn contains(&self, key: &[u8; N]) -> (found: bool)
        ensures
            found == self@.contains_key(key@),
    {
        self.get(key).is_some()
    }

    /// Give `key` a value, in place of any it had.
    pub fn insert(&mut self, key: [u8; N], value: V)
        ensures
            final(self)@ == old(self)@.insert(key@, value),
    {
        let found = self.find(&key);
        let mut entries: Vec<([u8; N], V)> = Vec::new();
        proof {
            use_type_invariant(&*self);
            lemma_entries_map(self.entries@);
        }
        let ghost before = self.entries@;
        std::mem::swap(&mut entries, &mut self.entries);
        match found {
            Some(i) => {
                entries.set(i, (key, value));
                proof {
                    let after = entries@;
                    assert(distinct_keys(after)) by {
                        assert forall|a: int, b: int| 0 <= a < b < after.len() implies (
                        #[trigger] after[a]).0@ != (#[trigger] after[b]).0@ by {
                            assert(before[a].0@ != before[b].0@);
                        }
                    }
                    lemma_entries_map(after);
                    lemma_same_map_after_update(before, i as int, (key, value));
                }
            },
            None => {
                entries.push((key, value));
                proof {
                    let after = entries@;
                    assert(after.drop_last() =~= before);
                    assert(distinct_keys(after)) by {
                        assert forall|a: int, b: int| 0 <= a < b < after.len() implies (
                        #[trigger] after[a]).0@ != (#[trigger] after[b]).0@ by {
                            if b < before.len() {
                                assert(before[a].0@ != before[b].0@);
                            } else {
                                assert(before[a].0@ != key@);
                            }
                        }
                    }
                }
            },
        }
        self.entries = entries;
    }

    /// Take `key` out, and give its value back if it had one.
    pub fn remove(&mut self, key: &[u8; N]) -> (value: Option<V>)
        ensures
            match value {
                Some(v) => old(self)@.contains_key(key@) && old(self)@[key@] == v,
                None => !old(self)@.contains_key(key@),
            },
            final(self)@ == old(self)@.remove(key@),
    {
        let found = self.find(key);
        let mut entries: Vec<([u8; N], V)> = Vec::new();
        proof {
            use_type_invariant(&*self);
            lemma_entries_map(self.entries@);
        }
        let ghost before = self.entries@;
        match found {
            Some(i) => {
                std::mem::swap(&mut entries, &mut self.entries);
                let entry = entries.remove(i);
                proof {
                    let after = entries@;
                    assert(distinct_keys(after)) by {
                        assert forall|a: int, b: int| 0 <= a < b < after.len() implies (
                        #[trigger] after[a]).0@ != (#[trigger] after[b]).0@ by {
                            let x = if a < i { a } else { a + 1 };
                            let y = if b < i { b } else { b + 1 };
                            assert(before[x].0@ != before[y].0@);
                        }
                    }
                    lemma_map_after_removal(before, i as int);
                }
                self.entries = entries;
                Some(entry.1)
            },
            None => {
                assert(self@ =~= self@.remove(key@));
                None
            },
        }
    }

    /// Every key once, in the order the keys first came.
    pub fn keys(&self) -> (keys: Vec<[u8; N]>)
        ensures
            self@.dom().finite(),
            keys@.len() == self@.dom().len(),
            forall|i: int, j: int|
                0 <= i < j < keys@.len() ==> (#[trigger] keys@[i])@ != (#[trigger] keys@[j])@,
            forall|i: int| 0 <= i < keys@.len() ==> self@.contains_key((#[trigger] keys@[i])@),
            forall|k: Seq<u8>| #[trigger]
                self@.contains_key(k) ==> exists|i: int|
                    0 <= i < keys@.len() && (#[trigger] keys@[i])@ == k,
    {
        proof {
            use_type_invariant(self);
            lemma_entries_map(self.entries@);
        }
        let mut keys: Vec<[u8; N]> = Vec::new();
        let mut i: usize = 0;
        while i < self.entries.len()
            invariant
                i <= self.entries@.len(),
                keys@.len() == i,
                forall|j: int| 0 <= j < i ==> #[trigger] keys@[j] == self.entries@[j].0,
            decreases self.entries@.len() - i,
        {
            keys.push(self.entries[i].0);
            i += 1;
        }
        proof {
            assert forall|i: int, j: int| 0 <= i < j < keys@.len() implies (
            #[trigger] keys@[i])@ != (#[trigger] keys@[j])@ by {
                assert(self.entries@[i].0@ != self.entries@[j].0@);
            }
            assert forall|i: int| 0 <= i < keys@.len() implies self@.contains_key(
                (#[trigger] keys@[i])@,
            ) by {
                assert(self@.contains_key(self.entries@[i].0@));
            }
            assert forall|k: Seq<u8>| #[trigger] self@.contains_key(k) implies exists|i: int|
                0 <= i < keys@.len() && (#[trigger] keys@[i])@ == k by {
                let i = choose|i: int|
                    0 <= i < self.entries@.len() && (#[trigger] self.entries@[i]).0@ == k;
                assert(keys@[i]@ == k);
            }
        }
        keys
    }
}

/// Replacing the value of one entry replaces it in the map.
proof fn lemma_same_map_after_update<const N: usize, V>(
    entries: Seq<([u8; N], V)>,
    i: int,
    entry: ([u8; N], V),
)
    requires
        distinct_keys(entries),
        0 <= i < entries.len(),
        entries[i].0@ == entry.0@,
    ensures
        entries_map(entries.update(i, entry)) == entries_map(entries).insert(entry.0@, entry.1),
    decreases entries.len(),
{
    let front = entries.drop_last();
    let after = entries.update(i, entry);
    if i == entries.len() - 1 {
        assert(after.drop_last() =~= front);
        assert(entries_map(after) =~= entries_map(entries).insert(entry.0@, entry.1));
    } else {
        assert(distinct_keys(front)) by {
            assert forall|a: int, b: int| 0 <= a < b < front.len() implies (
            #[trigger] front[a]).0@ != (#[trigger] front[b]).0@ by {
                assert(front[a] == entries[a] && front[b] == entries[b]);
            }
        }
        assert(after.drop_last() =~= front.update(i, entry));
        lemma_same_map_after_update(front, i, entry);
        assert(entries[i].0@ != entries[entries.len() - 1].0@);
        assert(entries_map(after) =~= entries_map(entries).insert(entry.0@, entry.1));
    }
}

/// Removing one entry removes its key from the map.
proof fn lemma_map_after_removal<const N: usize, V>(entries: Seq<([u8; N], V)>, i: int)
    requires
        distinct_keys(entries),
        0 <= i < entries.len(),
    ensures
        entries_map(entries.remove(i)) == entries_map(entries).remove(entries[i].0@),
    decreases entries.len(),
{
    let front = entries.drop_last();
    let after = entries.remove(i);
    assert(distinct_keys(front)) by {
        assert forall|a: int, b: int| 0 <= a < b < front.len() implies (
        #[trigger] front[a]).0@ != (#[trigger] front[b]).0@ by {
            assert(front[a] == entries[a] && front[b] == entries[b]);
        }
    }
    lemma_entries_map(entries);
    lemma_entries_map(front);
    if i == entries.len() - 1 {
        assert(after =~= front);
        assert(!entries_map(front).contains_key(entries[i].0@)) by {
            if entries_map(front).contains_key(entries[i].0@) {
                let j = choose|j: int|
                    0 <= j < front.len() && (#[trigger] front[j]).0@ == entries[i].0@;
                assert(entries[j].0@ != entries[i].0@);
            }
        }
        assert(entries_map(after) =~= entries_map(entries).remove(entries[i].0@));
    } else {
        assert(after.drop_last() =~= front.remove(i));
        lemma_map_after_removal(front, i);
        assert(entries[i].0@ != entries[entries.len() - 1].0@);
        assert(entries_map(after) =~= entries_map(entries).remove(entries[i].0@));
    }
}

} // verus!
