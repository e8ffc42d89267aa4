//! Maps from text to values, kept in the order in which keys came.

use vstd::prelude::*;

use crate::text;

verus! {

/// Values of which a second one with the same meaning can be made.
pub trait Duplicate: View + Sized {
    /// A second value that means the same.
    fn duplicate(&self) -> (copy: Self)
        ensures
            copy@ == self@,
    ;
}

impl Duplicate for String {
    fn duplicate(&self) -> (copy: Self) {
        self.clone()
    }
}

/// The map that entries make up, where a later entry counts before an earlier one.
pub open spec fn map_of<V: View>(entries: Seq<(String, V)>) -> Map<Seq<char>, V::V>
    decreases entries.len(),
{
    if entries.len() == 0 {
        Map::empty()
    } else {
        map_of(entries.drop_last()).insert(entries.last().0@, entries.last().1@)
    }
}

/// The keys of entries, in order.
pub open spec fn keys_of<V: View>(entries: Seq<(String, V)>) -> Seq<Seq<char>> {
    Seq::new(entries.len(), |i: int| entries[i].0@)
}

/// A map from text to values. Each key stands in it once.
pub struct TextMap<V: View> {
    entries: Vec<(String, V)>,
}

/// A key of the map is the key of an entry.
pub proof fn lemma_map_key<V: View>(entries: Seq<(String, V)>, key: Seq<char>)
    requires
        map_of(entries).contains_key(key),
    ensures
        exists|i: int| 0 <= i < entries.len() && (#[trigger] entries[i]).0@ == key,
    decreases entries.len(),
{
    if entries.len() > 0 {
        if entries.last().0@ == key {
            assert(entries[entries.len() - 1].0@ == key);
        } else {
            lemma_map_key(entries.drop_last(), key);
            let i = choose|i: int|
                0 <= i < entries.drop_last().len() && (#[trigger] entries.drop_last()[i]).0@ == key;
            assert(entries[i].0@ == key);
        }
    }
}

/// An entry whose key comes in no later entry gives the map's value for that key.
pub proof fn lemma_map_entry<V: View>(entries: Seq<(String, V)>, i: int)
    requires
        0 <= i < entries.len(),
        forall|j: int| i < j < entries.len() ==> (#[trigger] entries[j]).0@ != entries[i].0@,
    ensures
        map_of(entries).contains_key(entries[i].0@),
        map_of(entries)[entries[i].0@] == entries[i].1@,
    decreases entries.len(),
{
    if i < entries.len() - 1 {
        let shorter = entries.drop_last();
        assert(shorter[i] == entries[i]);
        assert forall|j: int| i < j < shorter.len() implies (#[trigger] shorter[j]).0@
            != shorter[i].0@ by {
            assert(shorter[j] == entries[j]);
        }
        lemma_map_entry(shorter, i);
        assert(entries[entries.len() - 1].0@ != entries[i].0@);
    }
}

/// Another value in an entry, where keys are distinct, is another value in the map.
proof fn lemma_map_update<V: View>(entries: Seq<(String, V)>, i: int, entry: (String, V))
    requires
        0 <= i < entries.len(),
        entry.0@ == entries[i].0@,
        keys_of(entries).no_duplicates(),
    ensures
        map_of(entries.update(i, entry)) == map_of(entries).insert(entry.0@, entry.1@),
    decreases entries.len(),
{
    let shorter = entries.drop_last();
    if i == entries.len() - 1 {
        assert(entries.update(i, entry).drop_last() =~= shorter);
        assert(map_of(entries.update(i, entry)) =~= map_of(entries).insert(entry.0@, entry.1@));
    } else {
        assert(entries.update(i, entry).drop_last() =~= shorter.update(i, entry));
        assert(shorter[i] == entries[i]);
        assert(keys_of(shorter).no_duplicates()) by {
            assert forall|a: int, b: int|
                0 <= a < keys_of(shorter).len() && 0 <= b < keys_of(shorter).len() && a
                    != b implies keys_of(shorter)[a] != keys_of(shorter)[b] by {
                assert(keys_of(shorter)[a] == keys_of(entries)[a]);
                assert(keys_of(shorter)[b] == keys_of(entries)[b]);
            }
        }
        lemma_map_update(shorter, i, entry);
        assert(entries.last().0@ != entry.0@) by {
            assert(keys_of(entries)[entries.len() - 1] == entries.last().0@);
            assert(keys_of(entries)[i] == entry.0@);
        }
        assert(map_of(entries.update(i, entry)) =~= map_of(entries).insert(entry.0@, entry.1@));
    }
}

impl<V: View> View for TextMap<V> {
    type V = Map<Seq<char>, V::V>;

    closed spec fn view(&self) -> Map<Seq<char>, V::V> {
        map_of(self.entries@)
    }
}

impl<V: View> TextMap<V> {
    #[verifier::type_invariant]
    spec fn keys_are_distinct(self) -> bool {
        keys_of(self.entries@).no_duplicates()
    }

    /// The keys in the order in which they came.
    pub closed spec fn keys(&self) -> Seq<Seq<char>> {
        keys_of(self.entries@)
    }

    /// A map without entries.
    pub fn new() -> (map: Self)
        ensures
            map@ == Map::<Seq<char>, V::V>::empty(),
            map.keys() == Seq::<Seq<char>>::empty(),
    {
        let map = TextMap { entries: Vec::new() };
        assert(map.keys() =~= Seq::<Seq<char>>::empty());
        map
    }

    fn position(&self, key: &str) -> (res: Option<usize>)
        ensures
            match res {
                Some(i) => i < self.entries@.len() && self.entries@[i as int].0@ == key@,
                None => !map_of(self.entries@).contains_key(key@),
            },
    {
        let length: usize = self.entries.len();
        let mut i: usize = 0;
        while i < length
            invariant
                length == self.entries@.len(),
                i <= length,
                forall|j: int| 0 <= j < i ==> (#[trigger] self.entries@[j]).0@ != key@,
            decreases length - i,
        {
            if text::same(self.entries[i].0.as_str(), key) {
                return Some(i);
            }
            i += 1;
        }
        proof {
            if map_of(self.entries@).contains_key(key@) {
                lemma_map_key(self.entries@, key@);
            }
        }
        None
    }

    /// The value of `key`.
    pub fn get(&self, key: &str) -> (res: Option<&V>)
        ensures
            res is Some <==> self@.contains_key(key@),
            res matches Some(value) ==> value@ == self@[key@],
    {
        proof {
            use_type_invariant(self);
        }
        match self.position(key) {
            Some(i) => {
                proof {
                    assert forall|j: int| i < j < self.entries@.len() implies (
                    #[trigger] self.entries@[j]).0@ != self.entries@[i as int].0@ by {
                        assert(keys_of(self.entries@)[j] != keys_of(self.entries@)[i as int]);
                    }
                    lemma_map_entry(self.entries@, i as int);
                }
                Some(&self.entries[i].1)
            },
            None => None,
        }
    }

    /// Whether `key` has a value.
    pub fn contains_key(&self, key: &str) -> (res: bool)
        ensures
            res == self@.contains_key(key@),
    {
        self.get(key).is_some()
    }

    /// Gives `key` a value, in place of the one it had.
    pub fn insert(&mut self, key: String, value: V)
        ensures
            final(self)@ == old(self)@.insert(key@, value@),
            old(self)@.contains_key(key@) ==> final(self).keys() == old(self).keys(),
            !old(self)@.contains_key(key@) ==> final(self).keys() == old(self).keys().push(key@),
    {
        proof {
            use_type_invariant(&*self);
        }
        let place = self.position(key.as_str());
        let mut entries: Vec<(String, V)> = Vec::new();
        let ghost before = self.entries@;
        proof {
            assert(keys_of(entries@) =~= Seq::<Seq<char>>::empty());
        }
        std::mem::swap(&mut entries, &mut self.entries);
        match place {
            Some(i) => {
                let entry = (key, value);
                proof {
                    assert forall|j: int| i < j < before.len() implies (#[trigger] before[j]).0@
                        != before[i as int].0@ by {
                        assert(keys_of(before)[j] != keys_of(before)[i as int]);
                    }
                    lemma_map_entry(before, i as int);
                    lemma_map_update(before, i as int, entry);
                    assert(keys_of(before.update(i as int, entry)) =~= keys_of(before));
                }
                entries.set(i, entry);
            },
            None => {
                let ghost shown = key@;
                let ghost entry = (key, value);
                entries.push((key, value));
                proof {
                    assert(entries@.drop_last() =~= before);
                    assert(keys_of(entries@) =~= keys_of(before).push(shown));
                    assert forall|a: int, b: int|
                        0 <= a < keys_of(entries@).len() && 0 <= b < keys_of(entries@).len() && a
                            != b implies keys_of(entries@)[a] != keys_of(entries@)[b] by {
                        if a == before.len() {
                            lemma_absent(before, shown, b);
                        } else if b == before.len() {
                            lemma_absent(before, shown, a);
                        }
                    }
                }
            },
        }
        self.entries = entries;
    }

    /// How many keys there are. The keys are those of the map, each once.
    pub fn len(&self) -> (n: usize)
        ensures
            n == self.keys().len(),
            self.keys().no_duplicates(),
            self.keys().to_set() == self@.dom(),
    {
        proof {
            use_type_invariant(self);
            lemma_keys(self.entries@);
        }
        self.entries.len()
    }

    /// Whether there is no key.
    pub fn is_empty(&self) -> (res: bool)
        ensures
            res == (self@ =~= Map::<Seq<char>, V::V>::empty()),
    {
        proof {
            if self.entries@.len() > 0 {
                assert(map_of(self.entries@).contains_key(self.entries@.last().0@));
            }
        }
        self.entries.len() == 0
    }

    /// The key and the value at place `i`.
    pub fn entry(&self, i: usize) -> (entry: (&String, &V))
        requires
            i < self.keys().len(),
        ensures
            entry.0@ == self.keys()[i as int],
            self@.contains_key(entry.0@),
            entry.1@ == self@[entry.0@],
    {
        proof {
            use_type_invariant(self);
            assert forall|j: int| i < j < self.entries@.len() implies (
            #[trigger] self.entries@[j]).0@ != self.entries@[i as int].0@ by {
                assert(keys_of(self.entries@)[j] != keys_of(self.entries@)[i as int]);
            }
            lemma_map_entry(self.entries@, i as int);
        }
        (&self.entries[i].0, &self.entries[i].1)
    }
}

/// Distinct keys are those of the map.
proof fn lemma_keys<V: View>(entries: Seq<(String, V)>)
    requires
        keys_of(entries).no_duplicates(),
    ensures
        keys_of(entries).to_set() == map_of(entries).dom(),
{
    let keys = keys_of(entries);
    assert forall|k: Seq<char>| keys.contains(k) == map_of(entries).contains_key(k) by {
        if map_of(entries).contains_key(k) {
            lemma_map_key(entries, k);
            let i = choose|i: int| 0 <= i < entries.len() && (#[trigger] entries[i]).0@ == k;
            assert(keys[i] == k);
        }
        if keys.contains(k) {
            let i = keys.index_of(k);
            assert forall|j: int| i < j < entries.len() implies (#[trigger] entries[j]).0@
                != entries[i].0@ by {
                assert(keys[j] != keys[i]);
            }
            lemma_map_entry(entries, i);
        }
    }
    assert(keys.to_set() =~= map_of(entries).dom());
}

/// No entry has a key that the map lacks.
proof fn lemma_absent<V: View>(entries: Seq<(String, V)>, key: Seq<char>, i: int)
    requires
        !map_of(entries).contains_key(key),
        0 <= i < entries.len(),
    ensures
        entries[i].0@ != key,
    decreases entries.len(),
{
    if i < entries.len() - 1 {
        assert(entries.drop_last()[i] == entries[i]);
        lemma_absent(entries.drop_last(), key, i);
    }
}

impl<V: Duplicate> Duplicate for TextMap<V> {
    fn duplicate(&self) -> (copy: Self) {
        let mut copy: TextMap<V> = TextMap::new();
        let length: usize = self.entries.len();
        let mut i: usize = 0;
        assert(self.entries@.take(0) =~= Seq::<(String, V)>::empty());
        while i < length
            invariant
                length == self.entries@.len(),
                i <= length,
                copy@ == map_of(self.entries@.take(i as int)),
            decreases length - i,
        {
            proof {
                assert(self.entries@.take(i + 1).drop_last() =~= self.entries@.take(i as int));
            }
            let value = self.entries[i].1.duplicate();
            copy.insert(self.entries[i].0.clone(), value);
            i += 1;
        }
        assert(self.entries@.take(length as int) =~= self.entries@);
        copy
    }
}

} // verus!
