//! A small map from placeholder text to a value, kept as a list of entries in
//! which no key occurs twice.

use vstd::prelude::*;

verus! {

/// The map that a list of entries stands for: the entries inserted one after
/// the other, a later entry replacing an earlier one with the same key.
pub open spec fn table<V>(entries: Seq<(String, V)>) -> Map<Seq<char>, V>
    decreases entries.len(),
{
    if entries.len() == 0 {
        Map::empty()
    } else {
        table(entries.drop_last()).insert(entries.last().0@, entries.last().1)
    }
}

/// No two entries have the same key.
pub open spec fn distinct_keys<V>(entries: Seq<(String, V)>) -> bool {
    forall|i: int, j: int|
        0 <= i < j < entries.len() ==> (#[trigger] entries[i]).0@ != (#[trigger] entries[j]).0@
}

/// A key is in the table exactly if some entry has it.
pub proof fn lemma_table_dom<V>(entries: Seq<(String, V)>, key: Seq<char>)
    ensures
        table(entries).dom().contains(key) <==> exists|i: int|
            0 <= i < entries.len() && (#[trigger] entries[i]).0@ == key,
        table(entries).dom().finite(),
    decreases entries.len(),
{
    if entries.len() > 0 {
        let front = entries.drop_last();
        lemma_table_dom(front, key);
        if table(entries).dom().contains(key) {
            if entries.last().0@ == key {
                assert(entries[entries.len() - 1].0@ == key);
            } else {
                let i = choose|i: int| 0 <= i < front.len() && (#[trigger] front[i]).0@ == key;
                assert(entries[i].0@ == key);
            }
        }
        if exists|i: int| 0 <= i < entries.len() && (#[trigger] entries[i]).0@ == key {
            let i = choose|i: int| 0 <= i < entries.len() && (#[trigger] entries[i]).0@ == key;
            if i < front.len() {
                assert(front[i].0@ == key);
            }
        }
    }
}

/// Where no key occurs twice, the table maps each entry's key to that entry's value.
pub proof fn lemma_table_entry<V>(entries: Seq<(String, V)>, i: int)
    requires
        distinct_keys(entries),
        0 <= i < entries.len(),
    ensures
        table(entries).dom().contains(entries[i].0@),
        table(entries)[entries[i].0@] == entries[i].1,
    decreases entries.len(),
{
    let front = entries.drop_last();
    if i < entries.len() - 1 {
        assert(distinct_keys(front)) by {
            assert forall|a: int, b: int| 0 <= a < b < front.len() implies (#[trigger] front[a]).0@
                != (#[trigger] front[b]).0@ by {
                assert(entries[a].0@ != entries[b].0@);
            }
        }
        lemma_table_entry(front, i);
        assert(front[i] == entries[i]);
        assert(entries[i].0@ != entries[entries.len() - 1].0@);
    }
}

/// Where no key occurs twice, the table has as many keys as there are entries.
pub proof fn lemma_table_len<V>(entries: Seq<(String, V)>)
    requires
        distinct_keys(entries),
    ensures
        table(entries).dom().finite(),
        table(entries).dom().len() == entries.len(),
    decreases entries.len(),
{
    if entries.len() > 0 {
        let front = entries.drop_last();
        let key = entries.last().0@;
        assert(distinct_keys(front)) by {
            assert forall|a: int, b: int| 0 <= a < b < front.len() implies (#[trigger] front[a]).0@
                != (#[trigger] front[b]).0@ by {
                assert(entries[a].0@ != entries[b].0@);
            }
        }
        lemma_table_len(front);
        lemma_table_dom(front, key);
        if table(front).dom().contains(key) {
            let i = choose|i: int| 0 <= i < front.len() && (#[trigger] front[i]).0@ == key;
            assert(entries[i].0@ == entries[entries.len() - 1].0@);
        }
    }
}

/// A map from placeholder text to a value. It holds a handful of entries, and
/// looks a key up by walking them.
#[derive(Debug)]
pub struct AttributeMap<V> {
    entries: Vec<(String, V)>,
}

impl<V> View for AttributeMap<V> {
    type V = Map<Seq<char>, V>;

    closed spec fn view(&self) -> Map<Seq<char>, V> {
        table(self.entries@)
    }
}

impl<V> AttributeMap<V> {
    #[verifier::type_invariant]
    spec fn well_formed(self) -> bool {
        distinct_keys(self.entries@)
    }

    /// The empty map.
    pub fn new() -> (map: Self)
        ensures
            map@ == Map::<Seq<char>, V>::empty(),
    {
        AttributeMap { entries: Vec::new() }
    }

    /// The number of keys.
    pub fn len(&self) -> (n: usize)
        ensures
            self@.dom().finite(),
            n == self@.dom().len(),
    {
        proof {
            use_type_invariant(self);
            lemma_table_len(self.entries@);
        }
        self.entries.len()
    }

    /// The position of the entry with the given key, if there is one.
    fn position(&self, key: &str) -> (found: Option<usize>)
        ensures
            match found {
                Some(i) => i < self.entries.len() && self.entries[i as int].0@ == key@,
                None => forall|i: int|
                    0 <= i < self.entries.len() ==> (#[trigger] self.entries[i]).0@ != key@,
            },
    {
        let wanted = String::from_str(key);
        let mut i: usize = 0;
        while i < self.entries.len()
            invariant
                i <= self.entries.len(),
                wanted@ == key@,
                forall|j: int| 0 <= j < i ==> (#[trigger] self.entries[j]).0@ != key@,
            decreases self.entries.len() - i,
        {
            if self.entries[i].0 == wanted {
                return Some(i);
            }
            i += 1;
        }
        None
    }

    /// The value under `key`, if the map has that key.
    pub fn get(&self, key: &str) -> (found: Option<&V>)
        ensures
            match found {
                Some(value) => self@.contains_key(key@) && *value == self@[key@],
                None => !self@.contains_key(key@),
            },
    {
        proof {
            use_type_invariant(self);
            lemma_table_dom(self.entries@, key@);
        }
        match self.position(key) {
            Some(i) => {
                proof {
                    lemma_table_entry(self.entries@, i as int);
                }
                Some(&self.entries[i].1)
            },
            None => None,
        }
    }

    /// Whether the map has `key`.
    pub fn contains_key(&self, key: &str) -> (found: bool)
        ensures
            found == self@.contains_key(key@),
    {
        self.get(key).is_some()
    }

    /// Puts `value` under `key`, in place of what was there.
    pub fn insert(&mut self, key: String, value: V)
        ensures
            final(self)@ == old(self)@.insert(key@, value),
    {
        let mut held = AttributeMap::new();
        core::mem::swap(self, &mut held);
        *self = held.with(key, value);
    }

    /// Puts every entry of `other` into this map; where both have a key, the
    /// value of `other` stays.
    pub fn extend(&mut self, other: AttributeMap<V>)
        ensures
            final(self)@ == old(self)@.union_prefer_right(other@),
    {
        let mut held = AttributeMap::new();
        core::mem::swap(self, &mut held);
        let ghost start = held@;
        let incoming = other.into_entries();
        let ghost all = incoming@;
        proof {
            assert(start.union_prefer_right(table(all.take(0))) =~= start);
        }
        for entry in it: incoming.into_iter()
            invariant
                it.seq() == all,
                held@ == start.union_prefer_right(table(all.take(it.index() as int))),
        {
            proof {
                let done = it.index() as int;
                assert(all.take(done + 1).drop_last() =~= all.take(done));
                assert(start.union_prefer_right(table(all.take(done))).insert(entry.0@, entry.1)
                    =~= start.union_prefer_right(table(all.take(done + 1))));
            }
            held = held.with(entry.0, entry.1);
        }
        proof {
            assert(all.take(all.len() as int) =~= all);
        }
        *self = held;
    }

    /// This map with `value` under `key`.
    fn with(self, key: String, value: V) -> (map: Self)
        ensures
            map@ == self@.insert(key@, value),
    {
        proof {
            use_type_invariant(&self);
        }
        let found = self.position(key.as_str());
        let mut entries = self.entries;
        let ghost before = entries@;
        match found {
            Some(i) => {
                entries.set(i, (key, value));
                proof {
                    let after = entries@;
                    assert(distinct_keys(after)) by {
                        assert forall|a: int, b: int| 0 <= a < b < after.len() implies (
                        #[trigger] after[a]).0@ != (#[trigger] after[b]).0@ by {
                            assert(before[a].0@ != before[b].0@);
                        }
                    }
                    assert forall|k: Seq<char>| #[trigger]
                        table(after).dom().contains(k) <==> table(before).insert(
                            key@,
                            value,
                        ).dom().contains(k) by {
                        lemma_table_dom(after, k);
                        lemma_table_dom(before, k);
                        if table(after).dom().contains(k) {
                            let j = choose|j: int|
                                0 <= j < after.len() && (#[trigger] after[j]).0@ == k;
                            assert(before[j].0@ == k);
                        }
                        if table(before).dom().contains(k) {
                            let j = choose|j: int|
                                0 <= j < before.len() && (#[trigger] before[j]).0@ == k;
                            assert(after[j].0@ == k);
                        }
                        if k == key@ {
                            assert(after[i as int].0@ == k);
                        }
                    }
                    assert forall|k: Seq<char>| #[trigger]
                        table(after).dom().contains(k) implies table(after)[k] == table(
                        before,
                    ).insert(key@, value)[k] by {
                        lemma_table_dom(after, k);
                        let j = choose|j: int|
                            0 <= j < after.len() && (#[trigger] after[j]).0@ == k;
                        lemma_table_entry(after, j);
                        if j != i {
                            assert(before[j].0@ != before[i as int].0@);
                            lemma_table_entry(before, j);
                        }
                    }
                    assert(table(after) =~= table(before).insert(key@, value));
                }
            },
            None => {
                entries.push((key, value));
                proof {
                    let after = entries@;
                    assert(after.drop_last() =~= before);
                    assert(distinct_keys(after)) by {
                        assert forall|a: int, b: int| 0 <= a < b < after.len() implies (
                        #[trigger] after[a]).0@ != (#[trigger] after[b]).0@ by {
                            if b < before.len() {
                                assert(before[a].0@ != before[b].0@);
                            } else {
                                assert(before[a].0@ != key@);
                            }
                        }
                    }
                }
            },
        }
        AttributeMap { entries }
    }

    /// The entries, in no particular order; no key occurs twice among them.
    pub fn into_entries(self) -> (entries: Vec<(String, V)>)
        ensures
            table(entries@) == self@,
            distinct_keys(entries@),
    {
        proof {
            use_type_invariant(&self);
        }
        self.entries
    }
}

} // verus!
