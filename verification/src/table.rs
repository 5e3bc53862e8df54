//! A string-keyed table that remembers the order in which its keys came.

use vstd::prelude::*;
use vstd::string::*;

verus! {

/// The keys of a list of entries, in order.
pub open spec fn entry_keys<V>(entries: Seq<(String, V)>) -> Seq<Seq<char>> {
    Seq::new(entries.len(), |i: int| entries[i].0@)
}

/// The map that a list of entries with distinct keys stands for.
pub open spec fn entry_map<V>(entries: Seq<(String, V)>) -> Map<Seq<char>, V> {
    Map::new(
        |k: Seq<char>| entry_keys(entries).contains(k),
        |k: Seq<char>| entries[entry_keys(entries).index_of(k)].1,
    )
}

/// A table from strings to values. A key occurs once; the keys are kept in the
/// order of their first insertion.
pub struct Table<V> {
    entries: Vec<(String, V)>,
}

impl<V> View for Table<V> {
    type V = Map<Seq<char>, V>;

    closed spec fn view(&self) -> Map<Seq<char>, V> {
        entry_map(self.entries@)
    }
}

impl<V> Table<V> {
    #[verifier::type_invariant]
    spec fn keys_are_distinct(self) -> bool {
        entry_keys(self.entries@).no_duplicates()
    }

    /// The keys, in the order of their first insertion.
    pub closed spec fn order(&self) -> Seq<Seq<char>> {
        entry_keys(self.entries@)
    }

    /// An empty table.
    pub fn new() -> (t: Self)
        ensures
            t@ == Map::<Seq<char>, V>::empty(),
            t.order() == Seq::<Seq<char>>::empty(),
    {
        let t = Table { entries: Vec::new() };
        assert(t@ =~= Map::<Seq<char>, V>::empty());
        assert(t.order() =~= Seq::<Seq<char>>::empty());
        t
    }

    /// The number of keys. The keys in `order()` are the keys of the map, each
    /// once.
    pub fn len(&self) -> (n: usize)
        ensures
            n == self.order().len(),
            self.order().no_duplicates(),
            forall|k: Seq<char>| #[trigger] self.order().contains(k) <==> self@.contains_key(k),
    {
        proof {
            use_type_invariant(self);
        }
        self.entries.len()
    }

    /// The key at position `i` of the insertion order.
    pub fn key_at(&self, i: usize) -> (k: &String)
        requires
            i < self.order().len(),
        ensures
            k@ == self.order()[i as int],
            self@.contains_key(k@),
    {
        assert(self.order()[i as int] == self.entries@[i as int].0@);
        &self.entries[i].0
    }

    /// The value whose key is at position `i` of the insertion order.
    pub fn value_at(&self, i: usize) -> (v: &V)
        requires
            i < self.order().len(),
        ensures
            self@.contains_key(self.order()[i as int]),
            *v == self@[self.order()[i as int]],
    {
        proof {
            use_type_invariant(self);
            assert(self.order()[i as int] == self.entries@[i as int].0@);
        }
        &self.entries[i].1
    }

    fn position(&self, key: &str) -> (r: Option<usize>)
        ensures
            match r {
                Some(i) => {
                    &&& i < self.entries@.len()
                    &&& self.entries@[i as int].0@ == key@
                    &&& self@.contains_key(key@)
                    &&& self@[key@] == self.entries@[i as int].1
                },
                None => !self@.contains_key(key@),
            },
    {
        proof {
            use_type_invariant(self);
        }
        let mut i: usize = 0;
        while i < self.entries.len()
            invariant
                i <= self.entries.len(),
                forall|j: int| 0 <= j < i ==> #[trigger] entry_keys(self.entries@)[j] != key@,
                entry_keys(self.entries@).no_duplicates(),
            decreases self.entries.len() - i,
        {
            if crate::text::same(self.entries[i].0.as_str(), key) {
                assert(entry_keys(self.entries@)[i as int] == key@);
                return Some(i);
            }
            i = i + 1;
        }
        None
    }

    /// Look a key up.
    pub fn get(&self, key: &str) -> (r: Option<&V>)
        ensures
            match r {
                Some(v) => self@.contains_key(key@) && *v == self@[key@],
                None => !self@.contains_key(key@),
            },
    {
        match self.position(key) {
            Some(i) => Some(&self.entries[i].1),
            None => None,
        }
    }

    /// Whether the table holds a key.
    pub fn contains_key(&self, key: &str) -> (r: bool)
        ensures
            r == self@.contains_key(key@),
    {
        match self.position(key) {
            Some(_) => true,
            None => false,
        }
    }

    /// Give `key` the value `value`: a key that is there keeps its place, a new
    /// one goes to the end.
    pub fn insert(&mut self, key: String, value: V)
        ensures
            final(self)@ == old(self)@.insert(key@, value),
            final(self).order() == if old(self)@.contains_key(key@) {
                old(self).order()
            } else {
                old(self).order().push(key@)
            },
    {
        proof {
            use_type_invariant(&*self);
        }
        let found = self.position(key.as_str());
        let ghost before = self.entries@;
        let mut entries: Vec<(String, V)> = Vec::new();
        std::mem::swap(&mut entries, &mut self.entries);
        match found {
            Some(i) => {
                entries.set(i, (key, value));
                assert(entry_keys(entries@) =~= entry_keys(before));
                proof {
                    assert forall|k: Seq<char>|
                        entry_map(before).insert(key@, value).contains_key(k) implies #[trigger] entry_map(
                        entries@,
                    )[k] == entry_map(before).insert(key@, value)[k] by {
                        assert(entry_keys(before)[i as int] == key@);
                    }
                    assert(entry_map(entries@) =~= entry_map(before).insert(key@, value));
                }
            },
            None => {
                entries.push((key, value));
                proof {
                    let keys = entry_keys(entries@);
                    assert(keys =~= entry_keys(before).push(key@));
                    assert forall|k: Seq<char>| #[trigger] keys.contains(k) <==> (entry_keys(
                        before,
                    ).contains(k) || k == key@) by {
                        if entry_keys(before).contains(k) {
                            assert(keys[entry_keys(before).index_of(k)] == k);
                        }
                        assert(keys[before.len() as int] == key@);
                    }
                    assert(entry_map(entries@) =~= entry_map(before).insert(key@, value));
                }
            },
        }
        self.entries = entries;
    }

    /// Take a key's value out of the table.
    pub fn remove(&mut self, key: &str) -> (r: Option<V>)
        ensures
            final(self)@ == old(self)@.remove(key@),
            match r {
                Some(v) => old(self)@.contains_key(key@) && v == old(self)@[key@],
                None => !old(self)@.contains_key(key@),
            },
    {
        proof {
            use_type_invariant(&*self);
        }
        let found = self.position(key);
        let ghost before = self.entries@;
        match found {
            Some(i) => {
                let mut entries: Vec<(String, V)> = Vec::new();
                std::mem::swap(&mut entries, &mut self.entries);
                let (_, value) = entries.remove(i);
                proof {
                    let keys = entry_keys(before);
                    let left = entry_keys(entries@);
                    let at = |j: int| if j < i {
                        j
                    } else {
                        j + 1
                    };
                    assert forall|j: int| 0 <= j < left.len() implies #[trigger] left[j] == keys[at(
                        j,
                    )] by {}
                    assert forall|k: Seq<char>| #[trigger] left.contains(k) <==> keys.contains(k)
                        && k != key@ by {
                        assert(keys[i as int] == key@);
                        if left.contains(k) {
                            let j = choose|j: int| 0 <= j < left.len() && left[j] == k;
                            assert(keys[at(j)] == k);
                        }
                        if keys.contains(k) && k != key@ {
                            let j = choose|j: int| 0 <= j < keys.len() && keys[j] == k;
                            let x = if j < i {
                                j
                            } else {
                                j - 1
                            };
                            assert(left[x] == k);
                        }
                    }
                    assert(left.no_duplicates());
                    assert forall|k: Seq<char>| left.contains(k) implies #[trigger] entry_map(
                        entries@,
                    )[k] == entry_map(before)[k] by {
                        let j = left.index_of(k);
                        assert(keys[at(j)] == k);
                        assert(keys.contains(k));
                        assert(keys.index_of(k) == at(j));
                    }
                    assert(entry_map(entries@) =~= entry_map(before).remove(key@));
                }
                self.entries = entries;
                Some(value)
            },
            None => {
                assert(self@ =~= self@.remove(key@));
                None
            },
        }
    }

    /// The entries, in the order of the keys.
    pub fn into_entries(self) -> (r: Vec<(String, V)>)
        ensures
            entry_keys(r@) == self.order(),
            entry_keys(r@).no_duplicates(),
            entry_map(r@) == self@,
    {
        proof {
            use_type_invariant(&self);
        }
        self.entries
    }

    /// Add all entries of another table: its values win.
    pub fn extend(&mut self, other: Table<V>)
        ensures
            final(self)@ == old(self)@.union_prefer_right(other@),
    {
        let ghost base = self@;
        let ghost given = other@;
        let mut entries = other.into_entries();
        let ghost all = entries@;
        let ghost keys = entry_keys(all);
        let ghost mut done: int = 0;
        proof {
            assert(all.skip(0) =~= all);
            assert(self@ =~= base.union_prefer_right(given.restrict(keys.take(0).to_set())));
        }
        while entries.len() > 0
            invariant
                0 <= done <= all.len(),
                entries@ == all.skip(done),
                keys == entry_keys(all),
                keys.no_duplicates(),
                entry_map(all) == given,
                self@ == base.union_prefer_right(given.restrict(keys.take(done).to_set())),
            decreases entries@.len(),
        {
            let (key, value) = entries.remove(0);
            proof {
                assert(entries@ =~= all.skip(done + 1));
                assert(all[done].0 == key && all[done].1 == value);
                assert(keys[done] == key@);
                assert(keys.contains(key@));
                assert(keys.index_of(key@) == done);
                assert(given.contains_key(key@) && given[key@] == value);
                lemma_take_push(keys, done);
            }
            let ghost name = key@;
            self.insert(key, value);
            proof {
                assert(given.restrict(keys.take(done + 1).to_set()) =~= given.restrict(
                    keys.take(done).to_set(),
                ).insert(name, given[name]));
                assert(self@ =~= base.union_prefer_right(
                    given.restrict(keys.take(done + 1).to_set()),
                ));
                done = done + 1;
            }
        }
        proof {
            assert(keys.take(done) =~= keys);
            assert(given.restrict(keys.to_set()) =~= given);
        }
    }
}

/// One more key.
pub proof fn lemma_take_push(keys: Seq<Seq<char>>, i: int)
    requires
        0 <= i < keys.len(),
    ensures
        keys.take(i + 1).to_set() == keys.take(i).to_set().insert(keys[i]),
        keys.no_duplicates() ==> !keys.take(i).to_set().contains(keys[i]),
{
    let short = keys.take(i);
    let long = keys.take(i + 1);
    assert forall|k: Seq<char>| long.to_set().contains(k) <==> short.to_set().insert(
        keys[i],
    ).contains(k) by {
        if short.contains(k) {
            let j = choose|j: int| 0 <= j < short.len() && short[j] == k;
            assert(long[j] == k);
        }
        if k == keys[i] {
            assert(long[i] == k);
        }
        if long.contains(k) {
            let j = choose|j: int| 0 <= j < long.len() && long[j] == k;
            if j < i {
                assert(short[j] == k);
            }
        }
    }
    assert(long.to_set() =~= short.to_set().insert(keys[i]));
    if keys.no_duplicates() && short.contains(keys[i]) {
        let j = choose|j: int| 0 <= j < short.len() && short[j] == keys[i];
        assert(keys[j] == keys[i]);
    }
}

/// The keys in insertion order are the keys of the map.
pub proof fn lemma_order_is_the_keys<V>(t: Table<V>)
    ensures
        forall|k: Seq<char>| #[trigger] t.order().contains(k) <==> t@.contains_key(k),
        forall|i: int| 0 <= i < t.order().len() ==> t@.contains_key(#[trigger] t.order()[i]),
{
    assert forall|i: int| 0 <= i < t.order().len() implies t@.contains_key(
        #[trigger] t.order()[i],
    ) by {
        assert(t.order().contains(t.order()[i]));
    }
}

} // verus!
