//! String-keyed association tables.
//!
//! `StrTable` stores key/value pairs with unique keys and is viewed as a
//! `Map<Seq<char>, T>`. Inserting under an existing key replaces its
//! value, as a hash map would. The pair sequence is exposed so callers
//! can walk the distinct keys in storage order.

use vstd::prelude::*;
use crate::text::str_eq;

verus! {

/// The map described by a pair sequence: later pairs override earlier
/// ones.
pub open spec fn table_map<T>(entries: Seq<(String, T)>) -> Map<Seq<char>, T>
    decreases entries.len(),
{
    if entries.len() == 0 {
        Map::empty()
    } else {
        table_map(entries.drop_last()).insert(entries.last().0@, entries.last().1)
    }
}

proof fn lemma_table_map_last_match<T>(entries: Seq<(String, T)>, i: int, k: Seq<char>)
    requires
        0 <= i < entries.len(),
        entries[i].0@ == k,
        forall|j: int| i < j < entries.len() ==> entries[j].0@ != k,
    ensures
        table_map(entries).contains_key(k),
        table_map(entries)[k] == entries[i].1,
    decreases entries.len(),
{
    if i < entries.len() - 1 {
        assert(forall|j: int|
            i < j < entries.drop_last().len() ==> entries.drop_last()[j].0@ != k);
        lemma_table_map_last_match(entries.drop_last(), i, k);
        assert(entries.last().0@ != k);
    }
}

proof fn lemma_table_map_no_match<T>(entries: Seq<(String, T)>, k: Seq<char>)
    requires
        forall|j: int| 0 <= j < entries.len() ==> entries[j].0@ != k,
    ensures
        !table_map(entries).contains_key(k),
    decreases entries.len(),
{
    if entries.len() > 0 {
        assert(forall|j: int|
            0 <= j < entries.drop_last().len() ==> entries.drop_last()[j].0@ != k);
        lemma_table_map_no_match(entries.drop_last(), k);
    }
}

proof fn lemma_table_map_update<T>(entries: Seq<(String, T)>, i: int, kv: (String, T))
    requires
        0 <= i < entries.len(),
        entries[i].0@ == kv.0@,
        forall|a: int, b: int|
            0 <= a < b < entries.len() ==> entries[a].0@ != entries[b].0@,
    ensures
        table_map(entries.update(i, kv)) == table_map(entries).insert(kv.0@, kv.1),
    decreases entries.len(),
{
    let u = entries.update(i, kv);
    if i == entries.len() - 1 {
        assert(u.drop_last() =~= entries.drop_last());
        assert(u.last() == kv);
        assert(table_map(u) =~= table_map(entries).insert(kv.0@, kv.1));
    } else {
        assert(u.drop_last() =~= entries.drop_last().update(i, kv));
        assert(u.last() == entries.last());
        lemma_table_map_update(entries.drop_last(), i, kv);
        assert(entries.last().0@ != kv.0@);
        assert(table_map(u) =~= table_map(entries).insert(kv.0@, kv.1));
    }
}

/// Key/value pairs with unique keys, read as a map.
pub struct StrTable<T> {
    entries: Vec<(String, T)>,
}

impl<T> View for StrTable<T> {
    type V = Map<Seq<char>, T>;

    closed spec fn view(&self) -> Map<Seq<char>, T> {
        table_map(self.entries@)
    }
}

impl<T> StrTable<T> {
    /// The stored pairs, in storage order.
    pub closed spec fn pairs(&self) -> Seq<(String, T)> {
        self.entries@
    }

    /// Keys are pairwise distinct.
    pub open spec fn wf(&self) -> bool {
        forall|a: int, b: int|
            0 <= a < b < self.pairs().len() ==> self.pairs()[a].0@ != self.pairs()[b].0@
    }

    pub fn new() -> (t: Self)
        ensures
            t@ == Map::<Seq<char>, T>::empty(),
            t.pairs() == Seq::<(String, T)>::empty(),
            t.wf(),
    {
        let t = StrTable { entries: Vec::new() };
        proof {
            assert(t.pairs() =~= Seq::<(String, T)>::empty());
        }
        t
    }

    pub fn len(&self) -> (n: usize)
        ensures
            n == self.pairs().len(),
    {
        self.entries.len()
    }

    pub fn key_at(&self, i: usize) -> (k: &String)
        requires
            i < self.pairs().len(),
        ensures
            k == self.pairs()[i as int].0,
    {
        &self.entries[i].0
    }

    pub fn val_at(&self, i: usize) -> (v: &T)
        requires
            i < self.pairs().len(),
        ensures
            v == self.pairs()[i as int].1,
    {
        &self.entries[i].1
    }

    /// A stored pair names a key of the map and carries its value.
    pub proof fn lemma_index_to_map(&self, i: int)
        requires
            self.wf(),
            0 <= i < self.pairs().len(),
        ensures
            self@.contains_key(self.pairs()[i].0@),
            self@[self.pairs()[i].0@] == self.pairs()[i].1,
    {
        lemma_table_map_last_match(self.entries@, i, self.pairs()[i].0@);
    }

    /// Every key of the map sits in some stored pair.
    pub proof fn lemma_contains_to_index(&self, k: Seq<char>)
        requires
            self@.contains_key(k),
        ensures
            exists|i: int| 0 <= i < self.pairs().len() && self.pairs()[i].0@ == k,
    {
        if !(exists|i: int| 0 <= i < self.pairs().len() && self.pairs()[i].0@ == k) {
            lemma_table_map_no_match(self.entries@, k);
        }
    }

    /// Inserts a pair, replacing the value under an existing key.
    #[verifier::loop_isolation(false)]
    pub fn insert(&mut self, k: String, v: T)
        requires
            old(self).wf(),
        ensures
            final(self).wf(),
            final(self)@ == old(self)@.insert(k@, v),
            final(self).pairs().len() <= old(self).pairs().len() + 1,
    {
        let n = self.entries.len();
        let mut i: usize = 0;
        while i < n
            invariant
                0 <= i <= n,
                n == self.entries@.len(),
                self == old(self),
                forall|j: int| 0 <= j < i ==> self.entries@[j].0@ != k@,
            decreases n - i,
        {
            if str_eq(self.entries[i].0.as_str(), k.as_str()) {
                proof {
                    assert forall|a: int, b: int|
                        0 <= a < b < self.entries@.len() implies self.entries@[a].0@
                        != self.entries@[b].0@ by {
                        assert(self.pairs()[a] == self.entries@[a]);
                        assert(self.pairs()[b] == self.entries@[b]);
                    }
                    lemma_table_map_update(self.entries@, i as int, (k, v));
                }
                let ghost prior = self.entries@;
                self.entries.set(i, (k, v));
                proof {
                    assert forall|a: int, b: int|
                        0 <= a < b < self.pairs().len() implies self.pairs()[a].0@
                        != self.pairs()[b].0@ by {
                        assert(prior[i as int].0@ == k@);
                        assert(self.pairs()[a].0@ == prior[a].0@);
                        assert(self.pairs()[b].0@ == prior[b].0@);
                        assert(old(self).pairs()[a] == prior[a]);
                        assert(old(self).pairs()[b] == prior[b]);
                    }
                }
                return ;
            }
            i += 1;
        }
        proof {
            lemma_table_map_no_match(self.entries@, k@);
        }
        let ghost prior = self.entries@;
        self.entries.push((k, v));
        proof {
            assert(self.entries@.drop_last() =~= prior);
            assert(self.entries@.last() == (k, v));
            assert forall|a: int, b: int|
                0 <= a < b < self.pairs().len() implies self.pairs()[a].0@
                != self.pairs()[b].0@ by {
                if b == self.pairs().len() - 1 {
                    assert(self.pairs()[a] == prior[a]);
                    assert(self.pairs()[b].0@ == k@);
                    assert(prior[a].0@ != k@);
                } else {
                    assert(self.pairs()[a] == prior[a]);
                    assert(self.pairs()[b] == prior[b]);
                    assert(old(self).pairs()[a] == prior[a]);
                    assert(old(self).pairs()[b] == prior[b]);
                }
            }
            assert(self@ == old(self)@.insert(k@, v));
        }
    }

    /// Looks a key up.
    #[verifier::loop_isolation(false)]
    pub fn get(&self, k: &str) -> (r: Option<&T>)
        requires
            self.wf(),
        ensures
            match r {
                Some(v) => self@.contains_key(k@) && *v == self@[k@],
                None => !self@.contains_key(k@),
            },
    {
        let n = self.entries.len();
        let mut i: usize = 0;
        while i < n
            invariant
                0 <= i <= n,
                forall|j: int| 0 <= j < i ==> self.entries@[j].0@ != k@,
            decreases n - i,
        {
            if str_eq(self.entries[i].0.as_str(), k) {
                proof {
                    assert forall|j: int|
                        i < j < self.entries@.len() implies self.entries@[j].0@ != k@ by {
                        assert(self.pairs()[i as int] == self.entries@[i as int]);
                        assert(self.pairs()[j] == self.entries@[j]);
                    }
                    lemma_table_map_last_match(self.entries@, i as int, k@);
                }
                return Some(&self.entries[i].1);
            }
            i += 1;
        }
        proof {
            lemma_table_map_no_match(self.entries@, k@);
        }
        None
    }
}

} // verus!
