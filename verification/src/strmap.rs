//! A map keyed by strings, kept as a list of distinct keys with their values
//! in insertion order.

use vstd::prelude::*;

verus! {

/// A map from strings to values. Inserting a key that is present replaces its
/// value in place; a new key goes to the end.
#[derive(Debug)]
pub struct StrMap<V> {
    entries: Vec<(String, V)>,
}

/// The keys of a list of entries, as character sequences.
pub open spec fn entry_keys<V>(entries: Seq<(String, V)>) -> Seq<Seq<char>> {
    entries.map_values(|e: (String, V)| e.0@)
}

/// The map that a list of entries with distinct keys stands for.
pub open spec fn entries_map<V>(entries: Seq<(String, V)>) -> Map<Seq<char>, V> {
    Map::new(
        |k: Seq<char>| entry_keys(entries).contains(k),
        |k: Seq<char>| entries[entry_keys(entries).index_of(k)].1,
    )
}

impl<V> View for StrMap<V> {
    type V = Map<Seq<char>, V>;

    closed spec fn view(&self) -> Map<Seq<char>, V> {
        entries_map(self.entries@)
    }
}

impl<V> StrMap<V> {
    #[verifier::type_invariant]
    spec fn wf(self) -> bool {
        entry_keys(self.entries@).no_duplicates()
    }

    /// The entries, in insertion order.
    pub closed spec fn entry_seq(&self) -> Seq<(String, V)> {
        self.entries@
    }

    /// The entries have distinct keys and stand for the map's contents.
    proof fn lemma_entries(&self)
        requires
            self.wf(),
        ensures
            entry_keys(self.entry_seq()).no_duplicates(),
            self@ == entries_map(self.entry_seq()),
            self@.dom().finite(),
            self@.len() == self.entry_seq().len(),
    {
        let ks = entry_keys(self.entries@);
        ks.unique_seq_to_set();
        assert(self@.dom() =~= ks.to_set());
    }

    /// An empty map.
    pub fn new() -> (m: Self)
        ensures
            m@ == Map::<Seq<char>, V>::empty(),
            m.entry_seq().len() == 0,
    {
        let m = StrMap { entries: Vec::new() };
        assert(m@ =~= Map::<Seq<char>, V>::empty());
        m
    }

    /// The position of `k` among the entries.
    fn position(&self, k: &String) -> (r: Option<usize>)
        ensures
            match r {
                Some(i) => i < self.entries@.len() && self.entries@[i as int].0@ == k@,
                None => !entry_keys(self.entries@).contains(k@),
            },
    {
        let mut i: usize = 0;
        while i < self.entries.len()
            invariant
                i <= self.entries@.len(),
                forall|j: int| 0 <= j < i ==> self.entries@[j].0@ != k@,
            decreases self.entries@.len() - i,
        {
            if self.entries[i].0 == *k {
                return Some(i);
            }
            i = i + 1;
        }
        proof {
            if entry_keys(self.entries@).contains(k@) {
                let j = choose|j: int|
                    0 <= j < entry_keys(self.entries@).len() && entry_keys(self.entries@)[j]
                        == k@;
                assert(self.entries@[j].0@ == k@);
            }
        }
        None
    }

    /// Inserts `k` with value `v`, replacing any earlier value of `k`.
    pub fn insert(&mut self, k: String, v: V)
        ensures
            final(self)@ == old(self)@.insert(k@, v),
    {
        proof {
            use_type_invariant(&*self);
        }
        let ghost old_entries = self.entries@;
        let ghost ks = entry_keys(old_entries);
        let pos = self.position(&k);
        let mut entries: Vec<(String, V)> = Vec::new();
        std::mem::swap(&mut entries, &mut self.entries);
        match pos {
            Some(i) => {
                entries.set(i, (k, v));
                assert(entry_keys(entries@) =~= ks);
                self.entries = entries;
                proof {
                    let nks = entry_keys(self.entries@);
                    assert(nks =~= ks);
                    assert(self.entries@[i as int].0@ == k@);
                    assert(nks[i as int] == k@);
                    assert(nks.no_duplicates());
                    assert forall|key: Seq<char>| nks.contains(key) implies self.entries@[nks.index_of(
                        key,
                    )].1 == old(self)@.insert(k@, v)[key] by {
                        let a = nks.index_of(key);
                        assert(nks[a] == key);
                        if key == k@ {
                            assert(a == i);
                        } else {
                            assert(a != i);
                        }
                    }
                    assert(self@ =~= old(self)@.insert(k@, v));
                }
            },
            None => {
                let ghost kv = k@;
                entries.push((k, v));
                proof {
                    let nks = entry_keys(entries@);
                    assert(nks =~= ks.push(kv));
                    assert forall|a: int, b: int|
                        0 <= a < nks.len() && 0 <= b < nks.len() && a != b implies nks[a]
                        != nks[b] by {
                        if a < ks.len() && b < ks.len() {
                        } else if a == ks.len() {
                            assert(!ks.contains(kv));
                            assert(nks[b] == ks[b]);
                        } else {
                            assert(!ks.contains(kv));
                            assert(nks[a] == ks[a]);
                        }
                    }
                }
                self.entries = entries;
                proof {
                    let nks = entry_keys(self.entries@);
                    assert(nks =~= ks.push(kv));
                    assert(nks.no_duplicates());
                    assert forall|key: Seq<char>| nks.contains(key) implies self.entries@[nks.index_of(
                        key,
                    )].1 == old(self)@.insert(kv, v)[key] by {
                        let a = nks.index_of(key);
                        assert(nks[a] == key);
                        if key == kv {
                            assert(a == ks.len());
                        } else {
                            let j = choose|j: int| 0 <= j < nks.len() && nks[j] == key;
                            assert(j < ks.len());
                            assert(ks.contains(key));
                            assert(a < ks.len());
                            assert(ks.index_of(key) == a);
                        }
                    }
                    assert forall|key: Seq<char>| #[trigger]
                        old(self)@.insert(kv, v).dom().contains(key) implies nks.contains(key) by {
                        if key == kv {
                            assert(nks[ks.len() as int] == kv);
                        } else {
                            let j = choose|j: int| 0 <= j < ks.len() && ks[j] == key;
                            assert(nks[j] == key);
                        }
                    }
                    assert(self@ =~= old(self)@.insert(kv, v));
                }
            },
        }
    }

    /// The value of `k`, if present.
    pub fn get(&self, k: &str) -> (r: Option<&V>)
        ensures
            match r {
                Some(v) => self@.contains_key(k@) && *v == self@[k@],
                None => !self@.contains_key(k@),
            },
    {
        proof {
            use_type_invariant(self);
        }
        let key = crate::text::owned(k);
        match self.position(&key) {
            Some(i) => {
                proof {
                    let ks = entry_keys(self.entries@);
                    assert(ks[i as int] == k@);
                    assert(ks.contains(k@));
                    assert(ks.index_of(k@) == i);
                }
                Some(&self.entries[i].1)
            },
            None => None,
        }
    }

    /// Whether `k` is present.
    pub fn contains_key(&self, k: &str) -> (r: bool)
        ensures
            r == self@.contains_key(k@),
    {
        match self.get(k) {
            Some(_) => true,
            None => false,
        }
    }

    /// The number of keys.
    pub fn len(&self) -> (r: usize)
        ensures
            r == self@.len(),
    {
        proof {
            use_type_invariant(self);
            self.lemma_entries();
        }
        self.entries.len()
    }

    /// Whether the map has no keys.
    pub fn is_empty(&self) -> (r: bool)
        ensures
            r == (self@.len() == 0),
    {
        self.len() == 0
    }

    /// The entries in insertion order: distinct keys, standing for the map's
    /// contents.
    pub fn entries(&self) -> (r: &Vec<(String, V)>)
        ensures
            r@ == self.entry_seq(),
            entry_keys(r@).no_duplicates(),
            self@ == entries_map(r@),
    {
        proof {
            use_type_invariant(self);
            self.lemma_entries();
        }
        &self.entries
    }
}

} // verus!
