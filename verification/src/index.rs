//! The in-memory index: a mapping from each live key to the log pointer of
//! its most recent put record, kept as an association list with distinct
//! keys so that compaction can walk the live entries one by one.
use crate::assoc::{
    lemma_assoc_contains, lemma_assoc_len, lemma_assoc_lookup, lemma_assoc_remove, spec_assoc_map,
    spec_keys_distinct,
};
use crate::txlog::{LogPointer, SpecPtr};
use vstd::prelude::*;

verus! {

/// Maps live keys to log pointers; keys appear at most once.
pub struct Index {
    entries: Vec<(String, LogPointer)>,
}

impl View for Index {
    type V = Map<Seq<char>, SpecPtr>;

    closed spec fn view(&self) -> Map<Seq<char>, SpecPtr> {
        spec_assoc_map(self.entries@)
    }
}

impl Index {
    /// The entries in iteration order.
    pub closed spec fn spec_seq(self) -> Seq<(String, LogPointer)> {
        self.entries@
    }

    /// Every key is bound by at most one entry.
    pub open spec fn wf(self) -> bool {
        spec_keys_distinct(self.spec_seq())
    }

    /// A key is in the map exactly when an entry binds it, and with
    /// distinct keys that entry gives its pointer; the map has one mapping
    /// per entry.
    pub proof fn lemma_entries(self)
        requires
            self.wf(),
        ensures
            forall|k: Seq<char>|
                self@.contains_key(k) <==> exists|i: int|
                    0 <= i < self.spec_seq().len() && (#[trigger] self.spec_seq()[i]).0@ == k,
            forall|i: int|
                0 <= i < self.spec_seq().len() ==> self@.contains_key(
                    (#[trigger] self.spec_seq()[i]).0@,
                ) && self@[self.spec_seq()[i].0@] == self.spec_seq()[i].1@,
            self@.dom().finite(),
            self@.dom().len() == self.spec_seq().len(),
    {
        assert forall|k: Seq<char>|
            self@.contains_key(k) <==> exists|i: int|
                0 <= i < self.spec_seq().len() && (#[trigger] self.spec_seq()[i]).0@ == k by {
            lemma_assoc_contains(self.entries@, k);
        }
        assert forall|i: int| 0 <= i < self.spec_seq().len() implies self@.contains_key(
            (#[trigger] self.spec_seq()[i]).0@,
        ) && self@[self.spec_seq()[i].0@] == self.spec_seq()[i].1@ by {
            lemma_assoc_lookup(self.entries@, i);
        }
        lemma_assoc_len(self.entries@);
    }

    /// An empty index.
    pub fn new() -> (r: Index)
        ensures
            r@ == Map::<Seq<char>, SpecPtr>::empty(),
            r.wf(),
            r.spec_seq().len() == 0,
    {
        Index { entries: Vec::new() }
    }

    /// The number of live keys.
    pub fn len(&self) -> (n: usize)
        ensures
            n == self.spec_seq().len(),
    {
        self.entries.len()
    }

    /// The key of the `i`-th entry.
    pub fn key_at(&self, i: usize) -> (k: &String)
        requires
            i < self.spec_seq().len(),
        ensures
            k@ == self.spec_seq()[i as int].0@,
    {
        &self.entries[i].0
    }

    /// The pointer of the `i`-th entry.
    pub fn ptr_at(&self, i: usize) -> (p: LogPointer)
        requires
            i < self.spec_seq().len(),
        ensures
            p == self.spec_seq()[i as int].1,
    {
        self.entries[i].1
    }

    /// The pointer a key maps to, if the key is live.
    pub fn get(&self, key: &String) -> (r: Option<LogPointer>)
        requires
            self.wf(),
        ensures
            r is Some <==> self@.contains_key(key@),
            r matches Some(p) ==> self@[key@] == p@,
    {
        let n = self.entries.len();
        let mut i: usize = 0;
        while i < n
            invariant
                i <= n,
                n == self.spec_seq().len(),
                self.wf(),
                forall|j: int| 0 <= j < i ==> (#[trigger] self.spec_seq()[j]).0@ != key@,
            decreases n - i,
        {
            if self.entries[i].0 == *key {
                proof {
                    lemma_assoc_lookup(self.entries@, i as int);
                }
                return Some(self.entries[i].1);
            }
            i += 1;
        }
        proof {
            lemma_assoc_contains(self.entries@, key@);
        }
        None
    }

    /// Unbinds a key; says whether it was bound.
    pub fn delete(&mut self, key: &String) -> (was: bool)
        requires
            old(self).wf(),
        ensures
            final(self).wf(),
            was == old(self)@.contains_key(key@),
            final(self)@ == old(self)@.remove(key@),
            !was ==> final(self)@ == old(self)@ && *final(self) == *old(self),
    {
        let n = self.entries.len();
        let mut i: usize = 0;
        while i < n
            invariant
                i <= n,
                n == self.spec_seq().len(),
                self.wf(),
                *self == *old(self),
                forall|j: int| 0 <= j < i ==> (#[trigger] self.spec_seq()[j]).0@ != key@,
            decreases n - i,
        {
            if self.entries[i].0 == *key {
                proof {
                    lemma_assoc_lookup(self.entries@, i as int);
                    lemma_assoc_remove(self.entries@, i as int);
                }
                self.entries.remove(i);
                return true;
            }
            i += 1;
        }
        proof {
            lemma_assoc_contains(self.entries@, key@);
            assert(old(self)@.remove(key@) =~= old(self)@);
        }
        false
    }

    /// Binds a key to a pointer, shadowing nothing: any earlier binding is
    /// dropped first.
    pub fn put(&mut self, key: String, ptr: LogPointer)
        requires
            old(self).wf(),
        ensures
            final(self).wf(),
            final(self)@ == old(self)@.insert(key@, ptr@),
            !old(self)@.contains_key(key@) ==> final(self).spec_seq()
                == old(self).spec_seq().push((key, ptr)),
    {
        self.delete(&key);
        let ghost mid = self.entries@;
        self.entries.push((key, ptr));
        proof {
            assert(self.entries@.drop_last() =~= mid);
            assert forall|a: int, b: int| 0 <= a < b < self.entries@.len() implies (
            #[trigger] self.entries@[a]).0@ != (#[trigger] self.entries@[b]).0@ by {
                if b < self.entries@.len() - 1 {
                    assert(mid[a] == self.entries@[a] && mid[b] == self.entries@[b]);
                } else {
                    lemma_assoc_contains(mid, key@);
                    assert(mid[a] == self.entries@[a]);
                }
            }
            assert(old(self)@.remove(key@).insert(key@, ptr@) =~= old(self)@.insert(key@, ptr@));
        }
    }
}

} // verus!
