//! A minimal in-memory key-value store: the same mapping the log-backed
//! engine maintains, without persistence.
use crate::assoc::{
    lemma_assoc_contains, lemma_assoc_lookup, lemma_assoc_remove, spec_assoc_map,
    spec_keys_distinct,
};
use vstd::prelude::*;

verus! {

/// Maps keys to values, with each key bound at most once.
pub struct KvStore {
    entries: Vec<(String, String)>,
}

impl View for KvStore {
    type V = Map<Seq<char>, Seq<char>>;

    closed spec fn view(&self) -> Map<Seq<char>, Seq<char>> {
        spec_assoc_map(self.entries@)
    }
}

impl KvStore {
    /// Every key is bound by at most one entry.
    pub closed spec fn wf(self) -> bool {
        spec_keys_distinct(self.entries@)
    }

    /// An empty store.
    pub fn new() -> (r: KvStore)
        ensures
            r@ == Map::<Seq<char>, Seq<char>>::empty(),
            r.wf(),
    {
        KvStore { entries: Vec::new() }
    }

    /// The value a key maps to, if any.
    pub fn get(&self, key: String) -> (r: Option<String>)
        requires
            self.wf(),
        ensures
            r is Some <==> self@.contains_key(key@),
            r matches Some(v) ==> v@ == self@[key@],
    {
        let n = self.entries.len();
        let mut i: usize = 0;
        while i < n
            invariant
                i <= n,
                n == self.entries@.len(),
                self.wf(),
                forall|j: int| 0 <= j < i ==> (#[trigger] self.entries@[j]).0@ != key@,
            decreases n - i,
        {
            if self.entries[i].0 == key {
                proof {
                    lemma_assoc_lookup(self.entries@, i as int);
                }
                return Some(self.entries[i].1.clone());
            }
            i += 1;
        }
        proof {
            lemma_assoc_contains(self.entries@, key@);
        }
        None
    }

    /// Binds a key to a value, shadowing nothing: any earlier binding is
    /// dropped first.
    pub fn set(&mut self, key: String, val: String)
        requires
            old(self).wf(),
        ensures
            final(self).wf(),
            final(self)@ == old(self)@.insert(key@, val@),
    {
        self.remove(key.clone());
        let ghost mid = self.entries@;
        self.entries.push((key, val));
        proof {
            assert(self.entries@.drop_last() =~= mid);
            assert forall|a: int, b: int| 0 <= a < b < self.entries@.len() implies (
            #[trigger] self.entries@[a]).0@ != (#[trigger] self.entries@[b]).0@ by {
                if b < self.entries@.len() - 1 {
                    assert(mid[a] == self.entries@[a] && mid[b] == self.entries@[b]);
                } else {
                    lemma_assoc_contains(mid, key@);
                    assert(mid[a] == self.entries@[a]);
                }
            }
            assert(old(self)@.remove(key@).insert(key@, val@) =~= old(self)@.insert(key@, val@));
        }
    }

    /// Unbinds a key; a no-op when the key is not bound.
    pub fn remove(&mut self, key: String)
        requires
            old(self).wf(),
        ensures
            final(self).wf(),
            final(self)@ == old(self)@.remove(key@),
    {
        let n = self.entries.len();
        let mut i: usize = 0;
        while i < n
            invariant
                i <= n,
                n == self.entries@.len(),
                self.wf(),
                *self == *old(self),
                forall|j: int| 0 <= j < i ==> (#[trigger] self.entries@[j]).0@ != key@,
            decreases n - i,
        {
            if self.entries[i].0 == key {
                proof {
                    lemma_assoc_lookup(self.entries@, i as int);
                    lemma_assoc_remove(self.entries@, i as int);
                }
                self.entries.remove(i);
                return;
            }
            i += 1;
        }
        proof {
            lemma_assoc_contains(self.entries@, key@);
            assert(old(self)@.remove(key@) =~= old(self)@);
        }
    }
}

} // verus!
