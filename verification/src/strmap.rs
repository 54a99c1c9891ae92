//! A name-keyed map kept as an association list with unique names.
//!
//! The abstraction of a `StrMap<V>` is a `Map<Seq<char>, V>`; every
//! operation is specified against that map.

use vstd::prelude::*;

use crate::conversion::str_eq;

verus! {

/// A mapping from string names to values of type `V`.
pub struct StrMap<V> {
    entries: Vec<(String, V)>,
}

impl<V> View for StrMap<V> {
    type V = Map<Seq<char>, V>;

    closed spec fn view(&self) -> Map<Seq<char>, V> {
        Map::new(
            |k: Seq<char>| self.has_key(k),
            |k: Seq<char>|
                {
                    let i = choose|i: int|
                        0 <= i < self.entries@.len() && self.entries@[i].0@ == k;
                    self.entries@[i].1
                },
        )
    }
}

impl<V> StrMap<V> {
    /// No two entries share a name.
    pub closed spec fn wf(self) -> bool {
        forall|i: int, j: int|
            0 <= i < j < self.entries@.len() ==> self.entries@[i].0@ != self.entries@[j].0@
    }

    spec fn has_key(&self, k: Seq<char>) -> bool {
        exists|i: int| 0 <= i < self.entries@.len() && self.entries@[i].0@ == k
    }

    proof fn lemma_entry(&self, i: int)
        requires
            self.wf(),
            0 <= i < self.entries@.len(),
        ensures
            self@.contains_key(self.entries@[i].0@),
            self@[self.entries@[i].0@] == self.entries@[i].1,
    {
        let k = self.entries@[i].0@;
        assert(self.has_key(k));
        let j = choose|j: int| 0 <= j < self.entries@.len() && self.entries@[j].0@ == k;
        if i != j {
            if i < j {
                assert(self.entries@[i].0@ != self.entries@[j].0@);
            } else {
                assert(self.entries@[j].0@ != self.entries@[i].0@);
            }
        }
    }

    /// The empty map.
    pub fn new() -> (r: StrMap<V>)
        ensures
            r.wf(),
            r@ == Map::<Seq<char>, V>::empty(),
    {
        let r = StrMap { entries: Vec::new() };
        proof {
            assert(r@ =~= Map::<Seq<char>, V>::empty());
        }
        r
    }

    fn index_of(&self, k: &str) -> (r: Option<usize>)
        requires
            self.wf(),
        ensures
            match r {
                Some(i) => i < self.entries@.len() && self.entries@[i as int].0@ == k@,
                None => !self@.contains_key(k@),
            },
    {
        let n = self.entries.len();
        let mut i: usize = 0;
        while i < n
            invariant
                n == self.entries@.len(),
                i <= n,
                forall|j: int| 0 <= j < i ==> self.entries@[j].0@ != k@,
            decreases n - i,
        {
            if str_eq(self.entries[i].0.as_str(), k) {
                return Some(i);
            }
            i += 1;
        }
        proof {
            assert(!self.has_key(k@));
        }
        None
    }

    /// Membership test for a name.
    pub fn contains_key(&self, k: &str) -> (r: bool)
        requires
            self.wf(),
        ensures
            r == self@.contains_key(k@),
    {
        match self.index_of(k) {
            Some(i) => {
                proof {
                    self.lemma_entry(i as int);
                }
                true
            },
            None => false,
        }
    }

    /// The value bound to a name, if any.
    pub fn get(&self, k: &str) -> (r: Option<&V>)
        requires
            self.wf(),
        ensures
            match r {
                Some(v) => self@.contains_key(k@) && *v == self@[k@],
                None => !self@.contains_key(k@),
            },
    {
        match self.index_of(k) {
            Some(i) => {
                proof {
                    self.lemma_entry(i as int);
                }
                Some(&self.entries[i].1)
            },
            None => None,
        }
    }

    /// Bind a name to a value, replacing any previous binding.
    pub fn insert(&mut self, k: String, v: V)
        requires
            old(self).wf(),
        ensures
            final(self).wf(),
            final(self)@ == old(self)@.insert(k@, v),
    {
        let _ = self.remove(k.as_str());
        self.push_absent(k, v);
        proof {
            assert(old(self)@.remove(k@).insert(k@, v) =~= old(self)@.insert(k@, v));
        }
    }

    fn push_absent(&mut self, k: String, v: V)
        requires
            old(self).wf(),
            !old(self)@.contains_key(k@),
        ensures
            final(self).wf(),
            final(self)@ == old(self)@.insert(k@, v),
    {
        self.entries.push((k, v));
        proof {
            let pre = old(self);
            let n = self.entries@.len() - 1;
            assert(!pre.has_key(k@)) by {
                if pre.has_key(k@) {
                    let j = choose|j: int|
                        0 <= j < pre.entries@.len() && pre.entries@[j].0@ == k@;
                    pre.lemma_entry(j);
                }
            }
            assert forall|i: int, j: int|
                0 <= i < j < self.entries@.len() implies self.entries@[i].0@
                != self.entries@[j].0@ by {
                if j < n {
                    assert(pre.entries@[i].0@ != pre.entries@[j].0@);
                } else {
                    if self.entries@[i].0@ == k@ {
                        assert(pre.entries@[i].0@ == k@);
                        assert(pre.has_key(k@));
                    }
                }
            }
            assert forall|k2: Seq<char>|
                self@.contains_key(k2) <==> pre@.insert(k@, v).contains_key(k2) by {
                if k2 == k@ {
                    assert(self.entries@[n].0@ == k@);
                    assert(self.has_key(k@));
                } else {
                    if pre.has_key(k2) {
                        let j = choose|j: int|
                            0 <= j < pre.entries@.len() && pre.entries@[j].0@ == k2;
                        assert(self.entries@[j].0@ == k2);
                        assert(self.has_key(k2));
                    }
                    if self.has_key(k2) {
                        let j = choose|j: int|
                            0 <= j < self.entries@.len() && self.entries@[j].0@ == k2;
                        assert(j != n);
                        assert(pre.entries@[j].0@ == k2);
                        assert(pre.has_key(k2));
                    }
                }
            }
            assert forall|k2: Seq<char>| self@.contains_key(k2) implies self@[k2] == pre@.insert(
                k@,
                v,
            )[k2] by {
                if k2 == k@ {
                    assert(self.entries@[n].0@ == k@);
                    self.lemma_entry(n);
                } else {
                    let j = choose|j: int|
                        0 <= j < self.entries@.len() && self.entries@[j].0@ == k2;
                    assert(j != n);
                    self.lemma_entry(j);
                    assert(pre.entries@[j].0@ == k2);
                    pre.lemma_entry(j);
                }
            }
            assert(self@ =~= pre@.insert(k@, v));
        }
    }

    /// Unbind a name, returning the value it was bound to.
    pub fn remove(&mut self, k: &str) -> (r: Option<V>)
        requires
            old(self).wf(),
        ensures
            final(self).wf(),
            final(self)@ == old(self)@.remove(k@),
            match r {
                Some(v) => old(self)@.contains_key(k@) && v == old(self)@[k@],
                None => !old(self)@.contains_key(k@),
            },
    {
        match self.index_of(k) {
            Some(i) => {
                proof {
                    self.lemma_entry(i as int);
                }
                let e = self.entries.remove(i);
                proof {
                    let pre = old(self);
                    let i = i as int;
                    pre.entries@.remove_ensures(i);
                    assert forall|a: int, b: int|
                        0 <= a < b < self.entries@.len() implies self.entries@[a].0@
                        != self.entries@[b].0@ by {
                        let a0 = if a < i { a } else { a + 1 };
                        let b0 = if b < i { b } else { b + 1 };
                        assert(self.entries@[a] == pre.entries@[a0]);
                        assert(self.entries@[b] == pre.entries@[b0]);
                        assert(pre.entries@[a0].0@ != pre.entries@[b0].0@);
                    }
                    assert forall|k2: Seq<char>|
                        self@.contains_key(k2) <==> pre@.remove(k@).contains_key(k2) by {
                        if self.has_key(k2) {
                            let j = choose|j: int|
                                0 <= j < self.entries@.len() && self.entries@[j].0@ == k2;
                            let j0 = if j < i { j } else { j + 1 };
                            assert(self.entries@[j] == pre.entries@[j0]);
                            assert(pre.has_key(k2));
                            if k2 == k@ {
                                assert(pre.entries@[j0].0@ == pre.entries@[i].0@);
                                assert(j0 != i);
                                if j0 < i {
                                    assert(pre.entries@[j0].0@ != pre.entries@[i].0@);
                                } else {
                                    assert(pre.entries@[i].0@ != pre.entries@[j0].0@);
                                }
                            }
                        }
                        if pre.has_key(k2) && k2 != k@ {
                            let j0 = choose|j: int|
                                0 <= j < pre.entries@.len() && pre.entries@[j].0@ == k2;
                            assert(j0 != i);
                            let j = if j0 < i { j0 } else { j0 - 1 };
                            assert(self.entries@[j] == pre.entries@[j0]);
                            assert(self.has_key(k2));
                        }
                    }
                    assert forall|k2: Seq<char>| self@.contains_key(k2) implies self@[k2]
                        == pre@.remove(k@)[k2] by {
                        let j = choose|j: int|
                            0 <= j < self.entries@.len() && self.entries@[j].0@ == k2;
                        self.lemma_entry(j);
                        let j0 = if j < i { j } else { j + 1 };
                        assert(self.entries@[j] == pre.entries@[j0]);
                        pre.lemma_entry(j0);
                    }
                    assert(self@ =~= pre@.remove(k@));
                }
                Some(e.1)
            },
            None => {
                proof {
                    assert(self@ =~= self@.remove(k@));
                }
                None
            },
        }
    }
}

impl<V> StrMap<V> {
    /// The bound names as owned strings, each once.
    pub fn keys(&self) -> (r: Vec<String>)
        requires
            self.wf(),
        ensures
            forall|i: int| 0 <= i < r@.len() ==> self@.contains_key(#[trigger] r@[i]@),
            forall|n: Seq<char>| #[trigger]
                self@.contains_key(n) ==> exists|i: int| 0 <= i < r@.len() && r@[i]@ == n,
            forall|i: int, j: int| 0 <= i < j < r@.len() ==> r@[i]@ != r@[j]@,
    {
        let mut out: Vec<String> = Vec::new();
        let n = self.entries.len();
        let mut i: usize = 0;
        while i < n
            invariant
                i <= n,
                n == self.entries@.len(),
                out@.len() == i,
                forall|k: int| 0 <= k < i ==> #[trigger] out@[k] == self.entries@[k].0,
            decreases n - i,
        {
            out.push(self.entries[i].0.clone());
            i += 1;
        }
        proof {
            assert forall|k: int| 0 <= k < out@.len() implies self@.contains_key(
                #[trigger] out@[k]@,
            ) by {
                self.lemma_entry(k);
            }
            assert forall|nm: Seq<char>| #[trigger]
                self@.contains_key(nm) implies exists|k: int|
                0 <= k < out@.len() && out@[k]@ == nm by {
                let k = choose|k: int|
                    0 <= k < self.entries@.len() && self.entries@[k].0@ == nm;
                assert(out@[k]@ == nm);
            }
        }
        out
    }
}

impl StrMap<String> {
    /// The bindings as owned pairs, each name bound once.
    pub fn pairs(&self) -> (r: Vec<(String, String)>)
        requires
            self.wf(),
        ensures
            forall|i: int|
                0 <= i < r@.len() ==> self@.contains_key(#[trigger] r@[i].0@) && self@[r@[i].0@]
                    == r@[i].1,
            forall|n: Seq<char>| #[trigger]
                self@.contains_key(n) ==> exists|i: int| 0 <= i < r@.len() && r@[i].0@ == n,
            forall|i: int, j: int| 0 <= i < j < r@.len() ==> r@[i].0@ != r@[j].0@,
    {
        let mut out: Vec<(String, String)> = Vec::new();
        let n = self.entries.len();
        let mut i: usize = 0;
        while i < n
            invariant
                i <= n,
                n == self.entries@.len(),
                out@.len() == i,
                forall|k: int| 0 <= k < i ==> #[trigger] out@[k] == self.entries@[k],
            decreases n - i,
        {
            let name = self.entries[i].0.clone();
            let value = self.entries[i].1.clone();
            out.push((name, value));
            i += 1;
        }
        proof {
            assert forall|k: int|
                0 <= k < out@.len() implies self@.contains_key(#[trigger] out@[k].0@)
                && self@[out@[k].0@] == out@[k].1 by {
                self.lemma_entry(k);
            }
            assert forall|nm: Seq<char>| #[trigger]
                self@.contains_key(nm) implies exists|k: int|
                0 <= k < out@.len() && out@[k].0@ == nm by {
                let k = choose|k: int|
                    0 <= k < self.entries@.len() && self.entries@[k].0@ == nm;
                assert(out@[k].0@ == nm);
            }
        }
        out
    }
}

} // verus!
