//! A string-keyed map stored as a vector of pairs.  Insertion keeps
//! the first position of a key and overwrites its value (last write
//! wins); iteration order is insertion order, which keeps response
//! serialization deterministic.

use vstd::prelude::*;

use crate::text::{
    StrPairs, distinct_keys, has_key, key_idx, lemma_insert_distinct, lemma_insert_lookup,
    lemma_key_idx_is, lookup, seq_insert, str_eq,
};

verus! {

#[derive(Debug)]
pub struct StringMap {
    pairs: Vec<(String, String)>,
}

impl View for StringMap {
    type V = StrPairs;

    closed spec fn view(&self) -> StrPairs {
        self.pairs.deep_view()
    }
}

impl StringMap {
    /// No two pairs share a key.
    pub open spec fn wf(self) -> bool {
        distinct_keys(self@)
    }

    pub fn new() -> (r: StringMap)
        ensures
            r@ == Seq::<(Seq<char>, Seq<char>)>::empty(),
            r.wf(),
    {
        let r = StringMap { pairs: Vec::new() };
        proof {
            assert(r@ =~= Seq::<(Seq<char>, Seq<char>)>::empty());
        }
        r
    }

    pub fn len(&self) -> (n: usize)
        ensures
            n == self@.len(),
    {
        self.pairs.len()
    }

    /// Store `v` under `k`: an existing pair for `k` is overwritten in
    /// place, a fresh key is appended at the end.  The last write for
    /// a key wins, every other key keeps its value, and distinct keys
    /// stay distinct.
    pub fn insert(&mut self, k: String, v: String)
        ensures
            final(self)@ == seq_insert(old(self)@, k@, v@),
            lookup(final(self)@, k@) == Some(v@),
            forall|k2: Seq<char>|
                k2 != k@ ==> lookup(final(self)@, k2) == lookup(old(self)@, k2),
            old(self).wf() ==> final(self).wf(),
    {
        let n = self.pairs.len();
        let mut i: usize = 0;
        while i < n
            invariant
                i <= n,
                n == self.pairs.len(),
                n == old(self)@.len(),
                self@ == old(self)@,
                forall|j: int| 0 <= j < i ==> old(self)@[j].0 != k@,
            decreases n - i,
        {
            if str_eq(self.pairs[i].0.as_str(), k.as_str()) {
                proof {
                    assert(old(self)@[i as int].0 == k@);
                    lemma_key_idx_is(old(self)@, k@, i as int);
                }
                self.pairs.set(i, (k, v));
                proof {
                    assert(self@ =~= old(self)@.update(i as int, (k@, v@)));
                    lemma_insert_lookup(old(self)@, k@, v@);
                    if old(self).wf() {
                        lemma_insert_distinct(old(self)@, k@, v@);
                    }
                }
                return;
            }
            i += 1;
        }
        proof {
            lemma_key_idx_is(old(self)@, k@, n as int);
        }
        self.pairs.push((k, v));
        proof {
            assert(self@ =~= old(self)@.push((k@, v@)));
            lemma_insert_lookup(old(self)@, k@, v@);
            if old(self).wf() {
                lemma_insert_distinct(old(self)@, k@, v@);
            }
        }
    }

    /// The value stored under `k`, if any.
    pub fn get(&self, k: &str) -> (r: Option<&String>)
        ensures
            match r {
                Some(v) => lookup(self@, k@) == Some(v@),
                None => lookup(self@, k@) is None,
            },
    {
        let n = self.pairs.len();
        let mut i: usize = 0;
        while i < n
            invariant
                i <= n,
                n == self.pairs.len(),
                n == self@.len(),
                forall|j: int| 0 <= j < i ==> self@[j].0 != k@,
            decreases n - i,
        {
            if str_eq(self.pairs[i].0.as_str(), k) {
                proof {
                    assert(self@[i as int].0 == k@);
                    lemma_key_idx_is(self@, k@, i as int);
                }
                return Some(&self.pairs[i].1);
            }
            i += 1;
        }
        proof {
            lemma_key_idx_is(self@, k@, n as int);
        }
        None
    }

    pub fn contains_key(&self, k: &str) -> (r: bool)
        ensures
            r == has_key(self@, k@),
    {
        proof {
            crate::text::lemma_key_idx(self@, k@);
        }
        self.get(k).is_some()
    }

    pub fn key_at(&self, i: usize) -> (r: &String)
        requires
            i < self@.len(),
        ensures
            r@ == self@[i as int].0,
    {
        &self.pairs[i].0
    }

    pub fn val_at(&self, i: usize) -> (r: &String)
        requires
            i < self@.len(),
        ensures
            r@ == self@[i as int].1,
    {
        &self.pairs[i].1
    }
}

} // verus!
