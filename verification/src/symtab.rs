//! A table from symbol names to values: each name occurs at most once, and a
//! later insertion under a name replaces the earlier value in place.
use vstd::prelude::*;

verus! {

/// Entries keyed by symbol name, each name at most once (see `wf`).
pub struct SymbolTable<V> {
    pub entries: Vec<(String, V)>,
}

/// The map that a sequence of entries denotes, later entries winning.
pub open spec fn entries_map<V: DeepView>(e: Seq<(String, V)>) -> Map<Seq<char>, V::V>
    decreases e.len(),
{
    if e.len() == 0 {
        Map::empty()
    } else {
        entries_map(e.drop_last()).insert(e.last().0@, e.last().1.deep_view())
    }
}

/// The names of a sequence of entries, in order.
pub open spec fn entry_keys<V>(e: Seq<(String, V)>) -> Seq<Seq<char>> {
    e.map_values(|p: (String, V)| p.0@)
}

impl<V: DeepView> SymbolTable<V> {
    /// No name occurs twice.
    pub open spec fn wf(&self) -> bool {
        forall|i: int, j: int|
            0 <= i < j < self.entries@.len() ==> #[trigger] self.entries@[i].0@
                != #[trigger] self.entries@[j].0@
    }

    /// The map from names to values that the table holds.
    pub open spec fn map(&self) -> Map<Seq<char>, V::V> {
        entries_map(self.entries@)
    }

    /// The names in the table, in order.
    pub open spec fn keys(&self) -> Seq<Seq<char>> {
        entry_keys(self.entries@)
    }

    /// An empty table.
    pub fn new() -> (t: Self)
        ensures
            t.wf(),
            t.entries@.len() == 0,
            t.map() == Map::<Seq<char>, V::V>::empty(),
    {
        SymbolTable { entries: Vec::new() }
    }

    /// Number of names in the table.
    pub fn len(&self) -> (n: usize)
        ensures
            n == self.entries@.len(),
    {
        self.entries.len()
    }

    /// The position of `key`, if it is in the table.
    pub fn find(&self, key: &String) -> (r: Option<usize>)
        requires
            self.wf(),
        ensures
            match r {
                Some(i) => i < self.entries@.len() && self.entries@[i as int].0@ == key@,
                None => forall|i: int|
                    0 <= i < self.entries@.len() ==> self.entries@[i].0@ != key@,
            },
            r is Some <==> self.map().contains_key(key@),
            r matches Some(i) ==> self.map()[key@] == self.entries@[i as int].1.deep_view(),
    {
        proof {
            lemma_entries_map(self.entries@);
        }
        let mut i: usize = 0;
        while i < self.entries.len()
            invariant
                self.wf(),
                i <= self.entries@.len(),
                forall|j: int| 0 <= j < i ==> self.entries@[j].0@ != key@,
            decreases self.entries@.len() - i,
        {
            if self.entries[i].0 == *key {
                proof {
                    lemma_entries_map(self.entries@);
                }
                return Some(i);
            }
            i += 1;
        }
        proof {
            lemma_entries_map(self.entries@);
        }
        None
    }

    /// Puts `value` under `key`: in place of the old value where `key` is in the
    /// table, else as a new last entry.
    #[verifier::spinoff_prover]
    pub fn insert(&mut self, key: String, value: V)
        requires
            old(self).wf(),
        ensures
            final(self).wf(),
            final(self).map() == old(self).map().insert(key@, value.deep_view()),
            old(self).map().contains_key(key@) ==> final(self).keys() == old(self).keys(),
            !old(self).map().contains_key(key@) ==> final(self).keys() == old(self).keys().push(
                key@,
            ),
    {
        proof {
            lemma_entries_map(self.entries@);
        }
        match self.find(&key) {
            Some(i) => {
                let ghost e0 = self.entries@;
                let ghost k = key@;
                let ghost dv = value.deep_view();
                self.entries.set(i, (key, value));
                proof {
                    let e1 = self.entries@;
                    assert(e1 == e0.update(i as int, e1[i as int]));
                    assert(e1[i as int].0@ == k);
                    lemma_entries_map(e1);
                    assert(entries_map(e1) =~= entries_map(e0).insert(k, dv)) by {
                        assert forall|x: Seq<char>|
                            #![auto]
                            entries_map(e1).contains_key(x) == entries_map(e0).insert(
                                k,
                                dv,
                            ).contains_key(x) by {
                            if x != k {
                                if entries_map(e0).contains_key(x) {
                                    let j = choose|j: int| 0 <= j < e0.len() && e0[j].0@ == x;
                                    assert(e1[j].0@ == x);
                                }
                                if entries_map(e1).contains_key(x) {
                                    let j = choose|j: int| 0 <= j < e1.len() && e1[j].0@ == x;
                                    assert(e0[j].0@ == x);
                                }
                            }
                        }
                        assert forall|x: Seq<char>|
                            #![auto]
                            entries_map(e1).contains_key(x) implies entries_map(e1)[x]
                                == entries_map(e0).insert(k, dv)[x] by {
                            if x != k {
                                let j = choose|j: int| 0 <= j < e1.len() && e1[j].0@ == x;
                                assert(e0[j].0@ == x);
                            }
                        }
                    }
                    assert(entry_keys(e1) =~= entry_keys(e0));
                }
            },
            None => {
                let ghost e0 = self.entries@;
                let ghost k = key@;
                self.entries.push((key, value));
                proof {
                    assert(self.entries@.drop_last() =~= e0);
                    assert(entry_keys(self.entries@) =~= entry_keys(e0).push(k));
                }
            },
        }
    }

    /// The value under `key`, if any.
    pub fn get(&self, key: &String) -> (r: Option<&V>)
        requires
            self.wf(),
        ensures
            r is Some <==> self.map().contains_key(key@),
            r matches Some(v) ==> v.deep_view() == self.map()[key@],
    {
        match self.find(key) {
            Some(i) => Some(&self.entries[i].1),
            None => None,
        }
    }
}

/// With distinct names, the map holds exactly the entries.
pub proof fn lemma_entries_map<V: DeepView>(e: Seq<(String, V)>)
    requires
        forall|i: int, j: int| 0 <= i < j < e.len() ==> #[trigger] e[i].0@ != #[trigger] e[j].0@,
    ensures
        forall|k: Seq<char>|
            #[trigger] entries_map(e).contains_key(k) <==> exists|i: int|
                0 <= i < e.len() && e[i].0@ == k,
        forall|i: int|
            0 <= i < e.len() ==> #[trigger] entries_map(e)[e[i].0@] == e[i].1.deep_view(),
        entries_map(e).dom().finite(),
    decreases e.len(),
{
    if e.len() > 0 {
        let p = e.drop_last();
        lemma_entries_map(p);
        assert forall|k: Seq<char>|
            #[trigger] entries_map(e).contains_key(k) <==> exists|i: int|
                0 <= i < e.len() && e[i].0@ == k by {
            if entries_map(p).contains_key(k) {
                let i = choose|i: int| 0 <= i < p.len() && p[i].0@ == k;
                assert(e[i].0@ == k);
            }
            if exists|i: int| 0 <= i < e.len() && e[i].0@ == k {
                let i = choose|i: int| 0 <= i < e.len() && e[i].0@ == k;
                if i < e.len() - 1 {
                    assert(p[i].0@ == k);
                }
            }
        }
        assert forall|i: int| 0 <= i < e.len() implies #[trigger] entries_map(e)[e[i].0@]
            == e[i].1.deep_view() by {
            if i < e.len() - 1 {
                assert(p[i] == e[i]);
                assert(e[i].0@ != e.last().0@);
            }
        }
    }
}

} // verus!
