//! A small string-keyed table: keys and values in two parallel vectors, no
//! key twice.
use vstd::prelude::*;
use crate::model::{ascending, no_key_twice};
use crate::order::{lemma_precedes_total, lemma_precedes_transitive, precedes, string_precedes};

verus! {

/// A finite map from strings to `V`, in insertion order.
#[derive(Debug)]
pub(crate) struct Table<V> {
    pub(crate) keys: Vec<String>,
    pub(crate) vals: Vec<V>,
}

impl<V> Table<V> {
    /// The vectors have one length and no key occurs twice.
    pub(crate) open spec fn wf(&self) -> bool {
        &&& self.keys.len() == self.vals.len()
        &&& forall|i: int, j: int|
            0 <= i < j < self.keys.len() ==> self.keys[i]@ != self.keys[j]@
    }

    /// Whether some slot holds the key `k`.
    pub(crate) open spec fn has(&self, k: Seq<char>) -> bool {
        exists|i: int| 0 <= i < self.keys.len() && self.keys[i]@ == k
    }

    /// A slot that holds the key `k`, if there is one.
    pub(crate) open spec fn slot(&self, k: Seq<char>) -> int {
        choose|i: int| 0 <= i < self.keys.len() && self.keys[i]@ == k
    }

    /// The table as a map.
    pub(crate) open spec fn map(&self) -> Map<Seq<char>, V> {
        Map::new(|k: Seq<char>| self.has(k), |k: Seq<char>| self.vals[self.slot(k)])
    }

    /// In a well-formed table the key of slot `i` is found in slot `i`.
    pub(crate) proof fn lemma_slot(&self, i: int)
        requires
            self.wf(),
            0 <= i < self.keys.len(),
        ensures
            self.has(self.keys[i]@),
            self.slot(self.keys[i]@) == i,
            self.map().contains_key(self.keys[i]@),
            self.map()[self.keys[i]@] == self.vals[i],
    {
        let k = self.keys[i]@;
        assert(0 <= i < self.keys.len() && self.keys[i]@ == k);
        let j = self.slot(k);
        assert(0 <= j < self.keys.len() && self.keys[j]@ == k);
        if j < i {
            assert(self.keys[j]@ != self.keys[i]@);
        } else if i < j {
            assert(self.keys[i]@ != self.keys[j]@);
        }
    }

    /// Replacing the value in slot `i` is an insertion under that slot's key.
    pub(crate) proof fn lemma_replace(before: &Self, after: &Self, i: int)
        requires
            before.wf(),
            0 <= i < before.keys.len(),
            after.keys@ == before.keys@,
            after.vals@ == before.vals@.update(i, after.vals[i]),
        ensures
            after.wf(),
            after.map() == before.map().insert(before.keys[i]@, after.vals[i]),
    {
        assert(after.vals.len() == before.vals.len());
        assert(after.wf());
        let target = before.map().insert(before.keys[i]@, after.vals[i]);
        assert forall|k: Seq<char>| after.map().contains_key(k) == target.contains_key(k) by {
            before.lemma_slot(i);
            if after.has(k) {
                let j = after.slot(k);
                assert(0 <= j < before.keys.len() && before.keys[j]@ == k);
            }
            if before.has(k) {
                let j = before.slot(k);
                assert(0 <= j < after.keys.len() && after.keys[j]@ == k);
            }
        }
        assert forall|k: Seq<char>| after.map().contains_key(k) implies after.map()[k]
            == target[k] by {
            let j = after.slot(k);
            after.lemma_slot(j);
            before.lemma_slot(j);
            before.lemma_slot(i);
        }
        assert(after.map() =~= target);
    }

    /// An empty table.
    pub(crate) fn new() -> (t: Self)
        ensures
            t.wf(),
            t.map() == Map::<Seq<char>, V>::empty(),
            t.keys@.len() == 0,
    {
        let t = Table { keys: Vec::new(), vals: Vec::new() };
        assert(t.map() =~= Map::<Seq<char>, V>::empty());
        t
    }

    /// The number of keys.
    pub(crate) fn len(&self) -> (n: usize)
        requires
            self.wf(),
        ensures
            n == self.keys.len(),
            n == self.vals.len(),
    {
        self.keys.len()
    }

    /// The slot that holds `k`, if any.
    pub(crate) fn find(&self, k: &String) -> (r: Option<usize>)
        requires
            self.wf(),
        ensures
            match r {
                Some(i) => {
                    &&& i < self.keys.len()
                    &&& self.keys[i as int]@ == k@
                    &&& self.map().contains_key(k@)
                    &&& self.map()[k@] == self.vals[i as int]
                },
                None => !self.map().contains_key(k@),
            },
    {
        let mut i: usize = 0;
        while i < self.keys.len()
            invariant
                self.wf(),
                i <= self.keys.len(),
                forall|j: int| 0 <= j < i ==> self.keys[j]@ != k@,
            decreases self.keys.len() - i,
        {
            if self.keys[i] == *k {
                proof {
                    self.lemma_slot(i as int);
                }
                return Some(i);
            }
            i = i + 1;
        }
        None
    }

    /// Adds a key that the table does not hold yet.
    pub(crate) fn push_new(&mut self, k: String, v: V)
        requires
            old(self).wf(),
            !old(self).map().contains_key(k@),
        ensures
            final(self).wf(),
            final(self).map() == old(self).map().insert(k@, v),
            final(self).keys@ == old(self).keys@.push(k),
            final(self).vals@ == old(self).vals@.push(v),
    {
        let ghost before = *self;
        proof {
            assert forall|j: int| 0 <= j < before.keys.len() implies before.keys[j]@ != k@ by {
                before.lemma_slot(j);
            }
        }
        self.keys.push(k);
        self.vals.push(v);
        proof {
            let after = *self;
            assert(after.wf());
            let n = before.keys.len() as int;
            let target = before.map().insert(k@, v);
            assert forall|q: Seq<char>| after.map().contains_key(q) == target.contains_key(q) by {
                after.lemma_slot(n);
                if after.has(q) {
                    let j = after.slot(q);
                    if j < n {
                        assert(0 <= j < before.keys.len() && before.keys[j]@ == q);
                    }
                }
                if before.has(q) {
                    let j = before.slot(q);
                    assert(0 <= j < after.keys.len() && after.keys[j]@ == q);
                }
            }
            assert forall|q: Seq<char>| after.map().contains_key(q) implies after.map()[q]
                == target[q] by {
                let j = after.slot(q);
                after.lemma_slot(j);
                if j < n {
                    before.lemma_slot(j);
                }
            }
            assert(after.map() =~= target);
        }
    }

    /// Takes slot `i` out of the table.
    pub(crate) fn take(&mut self, i: usize) -> (pair: (String, V))
        requires
            old(self).wf(),
            i < old(self).keys.len(),
        ensures
            final(self).wf(),
            final(self).keys.len() == old(self).keys.len() - 1,
            final(self).map() == old(self).map().remove(old(self).keys[i as int]@),
            pair == (old(self).keys[i as int], old(self).vals[i as int]),
    {
        let ghost before = *self;
        let k = self.keys.remove(i);
        let v = self.vals.remove(i);
        proof {
            let after = *self;
            let gone = before.keys[i as int]@;
            assert forall|a: int, b: int| 0 <= a < b < after.keys.len() implies after.keys[a]@
                != after.keys[b]@ by {
                let a0 = if a < i { a } else { a + 1 };
                let b0 = if b < i { b } else { b + 1 };
                assert(after.keys[a] == before.keys[a0]);
                assert(after.keys[b] == before.keys[b0]);
            }
            assert(after.wf());
            let target = before.map().remove(gone);
            assert forall|q: Seq<char>| after.map().contains_key(q) == target.contains_key(q) by {
                before.lemma_slot(i as int);
                if after.has(q) {
                    let j = after.slot(q);
                    let j0 = if j < i { j } else { j + 1 };
                    assert(after.keys[j] == before.keys[j0]);
                    before.lemma_slot(j0);
                }
                if before.has(q) && q != gone {
                    let j = before.slot(q);
                    let j1 = if j < i { j } else { j - 1 };
                    assert(after.keys[j1] == before.keys[j]);
                    assert(0 <= j1 < after.keys.len() && after.keys[j1]@ == q);
                }
            }
            assert forall|q: Seq<char>| after.map().contains_key(q) implies after.map()[q]
                == target[q] by {
                let j = after.slot(q);
                after.lemma_slot(j);
                let j0 = if j < i { j } else { j + 1 };
                assert(after.keys[j] == before.keys[j0]);
                assert(after.vals[j] == before.vals[j0]);
                before.lemma_slot(j0);
            }
            assert(after.map() =~= target);
        }
        (k, v)
    }

    /// The slot whose key comes before every other key.
    pub(crate) fn first_slot(&self) -> (r: usize)
        requires
            self.wf(),
            self.keys.len() > 0,
        ensures
            r < self.keys.len(),
            forall|k: Seq<char>|
                self.map().contains_key(k) && k != self.keys[r as int]@ ==> precedes(
                    self.keys[r as int]@,
                    k,
                ),
    {
        let mut best: usize = 0;
        let mut i: usize = 1;
        while i < self.keys.len()
            invariant
                self.wf(),
                best < i <= self.keys.len(),
                forall|j: int|
                    0 <= j < i && j != best ==> precedes(self.keys[best as int]@, self.keys[j]@),
            decreases self.keys.len() - i,
        {
            if string_precedes(&self.keys[i], &self.keys[best]) {
                proof {
                    assert forall|j: int| 0 <= j < i + 1 && j != i implies precedes(
                        self.keys[i as int]@,
                        self.keys[j]@,
                    ) by {
                        if j != best {
                            lemma_precedes_transitive(
                                self.keys[i as int]@,
                                self.keys[best as int]@,
                                self.keys[j]@,
                            );
                        }
                    }
                }
                best = i;
            } else {
                proof {
                    assert(self.keys[best as int]@ != self.keys[i as int]@);
                    lemma_precedes_total(self.keys[best as int]@, self.keys[i as int]@);
                }
            }
            i = i + 1;
        }
        proof {
            assert forall|k: Seq<char>|
                self.map().contains_key(k) && k != self.keys[best as int]@ implies precedes(
                self.keys[best as int]@,
                k,
            ) by {
                let j = self.slot(k);
                assert(0 <= j < self.keys.len() && self.keys[j]@ == k);
            }
        }
        best
    }

    /// The keys with their values as a list in ascending order of the keys.
    pub(crate) fn into_sorted_pairs(self) -> (out: Vec<(String, V)>)
        requires
            self.wf(),
        ensures
            ascending(out@),
            forall|k: Seq<char>| #[trigger]
                self.map().contains_key(k) <==> exists|i: int|
                    0 <= i < out.len() && out[i].0@ == k,
            forall|i: int| 0 <= i < out.len() ==> self.map()[#[trigger] out[i].0@] == out[i].1,
    {
        let ghost all = self.map();
        let mut rest = self;
        let mut out: Vec<(String, V)> = Vec::new();
        while rest.len() > 0
            invariant
                rest.wf(),
                ascending(out@),
                forall|i: int, k: Seq<char>|
                    #![trigger out[i], rest.map().contains_key(k)]
                    0 <= i < out.len() && rest.map().contains_key(k) ==> precedes(out[i].0@, k),
                forall|k: Seq<char>| #[trigger]
                    all.contains_key(k) <==> rest.map().contains_key(k) || exists|i: int|
                        0 <= i < out.len() && out[i].0@ == k,
                forall|k: Seq<char>| #[trigger]
                    rest.map().contains_key(k) ==> rest.map()[k] == all[k],
                forall|i: int| 0 <= i < out.len() ==> all[#[trigger] out[i].0@] == out[i].1,
            decreases rest.keys.len(),
        {
            let ghost before = rest;
            let ghost listed = out@;
            let m = rest.first_slot();
            proof {
                before.lemma_slot(m as int);
            }
            let pair = rest.take(m);
            out.push(pair);
            proof {
                let km = before.keys[m as int]@;
                assert(out[listed.len() as int].0@ == km);
                assert forall|k: Seq<char>| #[trigger]
                    all.contains_key(k) <==> rest.map().contains_key(k) || exists|i: int|
                        0 <= i < out.len() && out[i].0@ == k by {
                    if exists|i: int| 0 <= i < out.len() && out[i].0@ == k {
                        let i = choose|i: int| 0 <= i < out.len() && out[i].0@ == k;
                        if i < listed.len() {
                            assert(listed[i].0@ == k);
                        }
                    }
                    if all.contains_key(k) && !rest.map().contains_key(k) {
                        if before.map().contains_key(k) {
                            assert(k == km);
                        } else {
                            let i = choose|i: int| 0 <= i < listed.len() && listed[i].0@ == k;
                            assert(out[i].0@ == k);
                        }
                    }
                }
                assert forall|i: int, j: int| 0 <= i < j < out.len() implies precedes(
                    out[i].0@,
                    out[j].0@,
                ) by {
                    if j < listed.len() {
                        assert(precedes(listed[i].0@, listed[j].0@));
                    } else {
                        assert(out[i] == listed[i]);
                    }
                }
                assert forall|i: int, k: Seq<char>|
                    #![trigger out[i], rest.map().contains_key(k)]
                    0 <= i < out.len() && rest.map().contains_key(k) implies precedes(
                    out[i].0@,
                    k,
                ) by {
                    if i < listed.len() {
                        assert(out[i] == listed[i]);
                    }
                }
                assert forall|i: int| 0 <= i < out.len() implies all[#[trigger] out[i].0@]
                    == out[i].1 by {
                    if i < listed.len() {
                        assert(out[i] == listed[i]);
                    }
                }
            }
        }
        proof {
            assert forall|k: Seq<char>| !rest.map().contains_key(k) by {
                if rest.has(k) {
                    let j = rest.slot(k);
                    assert(0 <= j < rest.keys.len());
                }
            }
        }
        out
    }

    /// The keys with their values as a list, each key once, in no
    /// particular order.
    pub(crate) fn into_pairs(self) -> (out: Vec<(String, V)>)
        requires
            self.wf(),
        ensures
            no_key_twice(out@),
            forall|k: Seq<char>| #[trigger]
                self.map().contains_key(k) <==> exists|i: int|
                    0 <= i < out.len() && out[i].0@ == k,
            forall|i: int| 0 <= i < out.len() ==> self.map()[#[trigger] out[i].0@] == out[i].1,
    {
        let ghost whole = self;
        let ghost ks = self.keys@;
        let ghost vs = self.vals@;
        let mut keys = self.keys;
        let mut vals = self.vals;
        let mut out: Vec<(String, V)> = Vec::new();
        while keys.len() > 0
            invariant
                ks.len() == vs.len(),
                keys@ == ks.take(keys.len() as int),
                vals@ == vs.take(keys.len() as int),
                out.len() + keys.len() == ks.len(),
                forall|j: int|
                    0 <= j < out.len() ==> out[j] == (ks[ks.len() - 1 - j], vs[ks.len() - 1 - j]),
            decreases keys.len(),
        {
            let k = keys.pop().unwrap();
            let v = vals.pop().unwrap();
            out.push((k, v));
        }
        proof {
            let n = ks.len() as int;
            assert forall|k: Seq<char>| #[trigger]
                whole.map().contains_key(k) <==> exists|i: int|
                    0 <= i < out.len() && out[i].0@ == k by {
                if whole.has(k) {
                    let j = whole.slot(k);
                    assert(out[n - 1 - j].0@ == k);
                }
                if exists|i: int| 0 <= i < out.len() && out[i].0@ == k {
                    let i = choose|i: int| 0 <= i < out.len() && out[i].0@ == k;
                    whole.lemma_slot(n - 1 - i);
                }
            }
            assert forall|i: int| 0 <= i < out.len() implies whole.map()[#[trigger] out[i].0@]
                == out[i].1 by {
                whole.lemma_slot(n - 1 - i);
            }
        }
        out
    }
}

} // verus!
