//! The store and its operations.
use vstd::prelude::*;
use crate::bucket;
use crate::bucket::{bucket_view, Bucket};
use crate::entry::{Entry, EntryView};
use crate::error::Error;
use crate::model::{
    ascending, bucket_of, compare_and_swap_result, compare_and_swap_state, delete_result,
    delete_state, exists_result, get_result, increment_result, increment_state,
    lemma_ascending_no_key_twice, lemma_keyed_is, no_key_twice, set_state, store_of, BucketMap,
    StoreMap,
};
use crate::order::precedes;
use crate::table::Table;

verus! {

/// In-memory key-value store: named buckets of keyed entries.
///
/// Buckets come into being with the first `set` into them and are never
/// removed.
#[derive(Debug)]
pub struct KeyValue {
    buckets: Table<Bucket>,
}

impl View for KeyValue {
    type V = StoreMap;

    closed spec fn view(&self) -> StoreMap {
        self.buckets.map().map_values(|b: Bucket| bucket_view(&b))
    }
}

impl KeyValue {
    /// No bucket name occurs twice, and within a bucket no key.
    pub closed spec fn wf(&self) -> bool {
        &&& self.buckets.wf()
        &&& forall|i: int| 0 <= i < self.buckets.vals.len() ==> self.buckets.vals[i].wf()
    }

    /// Replacing the bucket in slot `i` replaces it in the view.
    proof fn lemma_bucket_replaced(before: &Self, after: &Self, i: int)
        requires
            before.wf(),
            0 <= i < before.buckets.keys.len(),
            after.buckets.keys@ == before.buckets.keys@,
            after.buckets.vals@ == before.buckets.vals@.update(i, after.buckets.vals[i]),
            after.buckets.vals[i].wf(),
        ensures
            after.wf(),
            after@ == before@.insert(
                before.buckets.keys[i]@,
                bucket_view(&after.buckets.vals[i]),
            ),
    {
        Table::lemma_replace(&before.buckets, &after.buckets, i);
        assert forall|j: int| 0 <= j < after.buckets.vals.len() implies after.buckets.vals[j].wf() by {
            if j != i {
                assert(after.buckets.vals[j] == before.buckets.vals[j]);
            }
        }
        assert(after@ =~= before@.insert(
            before.buckets.keys[i]@,
            bucket_view(&after.buckets.vals[i]),
        ));
    }

    /// An empty store.
    pub fn new() -> (kv: Self)
        ensures
            kv.wf(),
            kv@ == Map::<Seq<char>, BucketMap>::empty(),
    {
        let kv = KeyValue { buckets: Table::new() };
        assert(kv@ =~= Map::<Seq<char>, BucketMap>::empty());
        kv
    }

    /// Puts `b` under `name`, replacing a bucket of that name.
    fn put_bucket(&mut self, name: String, b: Bucket)
        requires
            old(self).wf(),
            b.wf(),
        ensures
            final(self).wf(),
            final(self)@ == old(self)@.insert(name@, bucket_view(&b)),
    {
        let ghost before = *self;
        match self.buckets.find(&name) {
            Some(i) => {
                self.buckets.vals[i] = b;
                proof {
                    Self::lemma_bucket_replaced(&before, self, i as int);
                }
            },
            None => {
                self.buckets.push_new(name, b);
                assert(self@ =~= before@.insert(name@, bucket_view(&b)));
            },
        }
    }

    /// The store that holds the given buckets with the given entries. Where
    /// a name or, within a bucket, a key occurs twice, the later occurrence
    /// replaces the earlier.
    pub fn from_buckets(buckets: Vec<(String, Vec<(String, Entry)>)>) -> (kv: Self)
        ensures
            kv.wf(),
            kv@ == store_of(buckets@),
    {
        let ghost all = buckets@;
        let mut kv = KeyValue::new();
        for item in it: buckets
            invariant
                it.seq() == all,
                kv.wf(),
                kv@ == store_of(all.take(it.index() as int)),
        {
            let (name, pairs) = item;
            proof {
                let n = it.index() as int;
                assert(all.take(n + 1).drop_last() =~= all.take(n));
            }
            let b = bucket::from_pairs(pairs);
            kv.put_bucket(name, b);
        }
        assert(all.take(all.len() as int) =~= all);
        kv
    }

    /// Lists the entries of each of the named buckets, in ascending order of
    /// their keys if `sorted`.
    fn listed(named: Vec<(String, Bucket)>, sorted: bool) -> (out: Vec<
        (String, Vec<(String, Entry)>),
    >)
        requires
            forall|j: int| 0 <= j < named.len() ==> (#[trigger] named[j]).1.wf(),
        ensures
            out.len() == named.len(),
            forall|j: int|
                0 <= j < out.len() ==> {
                    &&& (#[trigger] out[j]).0 == named[j].0
                    &&& no_key_twice(out[j].1@)
                    &&& sorted ==> ascending(out[j].1@)
                    &&& bucket_of(out[j].1@) == bucket_view(&named[j].1)
                },
    {
        let ghost all = named@;
        let mut out: Vec<(String, Vec<(String, Entry)>)> = Vec::new();
        for item in it: named
            invariant
                it.seq() == all,
                forall|j: int| 0 <= j < all.len() ==> (#[trigger] all[j]).1.wf(),
                out.len() == it.index(),
                forall|j: int|
                    0 <= j < out.len() ==> {
                        &&& (#[trigger] out[j]).0 == all[j].0
                        &&& no_key_twice(out[j].1@)
                        &&& sorted ==> ascending(out[j].1@)
                        &&& bucket_of(out[j].1@) == bucket_view(&all[j].1)
                    },
        {
            let (name, b) = item;
            assert(all[it.index() as int].1.wf());
            let pairs = if sorted {
                let pairs = bucket::into_sorted_pairs(b);
                proof {
                    lemma_ascending_no_key_twice(pairs@);
                }
                pairs
            } else {
                bucket::into_pairs(b)
            };
            out.push((name, pairs));
        }
        out
    }

    /// The listed buckets describe the store when their names are the
    /// store's bucket names, each once, and each list describes its bucket.
    proof fn lemma_listed(
        &self,
        named: Seq<(String, Bucket)>,
        out: Seq<(String, Vec<(String, Entry)>)>,
    )
        requires
            no_key_twice(named),
            forall|k: Seq<char>| #[trigger]
                self.buckets.map().contains_key(k) <==> exists|i: int|
                    0 <= i < named.len() && named[i].0@ == k,
            forall|i: int|
                0 <= i < named.len() ==> self.buckets.map()[#[trigger] named[i].0@] == named[i].1,
            out.len() == named.len(),
            forall|j: int|
                0 <= j < out.len() ==> {
                    &&& (#[trigger] out[j]).0 == named[j].0
                    &&& bucket_of(out[j].1@) == bucket_view(&named[j].1)
                },
        ensures
            no_key_twice(out),
            store_of(out) == self@,
    {
        assert forall|i: int, j: int| 0 <= i < j < out.len() implies out[i].0@ != out[j].0@ by {
            assert(out[i].0 == named[i].0 && out[j].0 == named[j].0);
        }
        assert forall|k: Seq<char>| #[trigger]
            self@.contains_key(k) <==> exists|i: int| 0 <= i < out.len() && out[i].0@ == k by {
            if self@.contains_key(k) {
                let i = choose|i: int| 0 <= i < named.len() && named[i].0@ == k;
                assert(out[i].0 == named[i].0);
            }
            if exists|i: int| 0 <= i < out.len() && out[i].0@ == k {
                let i = choose|i: int| 0 <= i < out.len() && out[i].0@ == k;
                assert(out[i].0 == named[i].0);
            }
        }
        assert forall|i: int| 0 <= i < out.len() implies self@[#[trigger] out[i].0@] == bucket_of(
            out[i].1@,
        ) by {
            assert(out[i].0 == named[i].0);
            assert(self.buckets.map()[named[i].0@] == named[i].1);
        }
        lemma_keyed_is(out, |pairs: Vec<(String, Entry)>| bucket_of(pairs@), self@);
    }

    /// Every bucket that the table of buckets holds under a name is well
    /// formed.
    proof fn lemma_buckets_wf(&self, named: Seq<(String, Bucket)>)
        requires
            self.wf(),
            forall|k: Seq<char>| #[trigger]
                self.buckets.map().contains_key(k) <==> exists|i: int|
                    0 <= i < named.len() && named[i].0@ == k,
            forall|i: int|
                0 <= i < named.len() ==> self.buckets.map()[#[trigger] named[i].0@] == named[i].1,
        ensures
            forall|j: int| 0 <= j < named.len() ==> (#[trigger] named[j]).1.wf(),
    {
        assert forall|j: int| 0 <= j < named.len() implies (#[trigger] named[j]).1.wf() by {
            assert(self.buckets.map()[named[j].0@] == named[j].1);
            assert(self.buckets.map().contains_key(named[j].0@));
            self.buckets.lemma_slot(self.buckets.slot(named[j].0@));
        }
    }

    /// Takes the store apart into its buckets and their entries. No name
    /// occurs twice in the result and no key twice in a bucket; the order is
    /// not specified.
    pub fn into_buckets(self) -> (out: Vec<(String, Vec<(String, Entry)>)>)
        requires
            self.wf(),
        ensures
            no_key_twice(out@),
            forall|i: int| 0 <= i < out.len() ==> no_key_twice(#[trigger] out[i].1@),
            store_of(out@) == self@,
    {
        let ghost whole = self;
        let named = self.buckets.into_pairs();
        proof {
            whole.lemma_buckets_wf(named@);
        }
        let out = Self::listed(named, false);
        proof {
            whole.lemma_listed(named@, out@);
        }
        out
    }

    /// Takes the store apart into its buckets in ascending order of their
    /// names, each with its entries in ascending order of their keys.
    pub fn into_sorted_buckets(self) -> (out: Vec<(String, Vec<(String, Entry)>)>)
        requires
            self.wf(),
        ensures
            ascending(out@),
            forall|i: int| 0 <= i < out.len() ==> ascending(#[trigger] out[i].1@),
            store_of(out@) == self@,
    {
        let ghost whole = self;
        let named = self.buckets.into_sorted_pairs();
        proof {
            whole.lemma_buckets_wf(named@);
            lemma_ascending_no_key_twice(named@);
        }
        let out = Self::listed(named, true);
        proof {
            whole.lemma_listed(named@, out@);
            assert forall|i: int, j: int| 0 <= i < j < out.len() implies precedes(
                out[i].0@,
                out[j].0@,
            ) by {
                assert(out[i].0 == named[i].0 && out[j].0 == named[j].0);
            }
        }
        out
    }

    /// Reads the value under `key` in `bucket`: the bytes of a blob, or the
    /// decimal text of a number, together with their length.
    pub fn get(&self, bucket: &str, key: String) -> (r: Result<(Vec<u8>, u64), Error>)
        requires
            self.wf(),
        ensures
            match r {
                Ok((bytes, size)) => get_result(self@, bucket@, key@) == Ok::<
                    (Seq<u8>, u64),
                    Error,
                >((bytes@, size)),
                Err(e) => get_result(self@, bucket@, key@) == Err::<(Seq<u8>, u64), Error>(e),
            },
    {
        let name = bucket.to_owned();
        match self.buckets.find(&name) {
            None => Err(Error::BucketNotFound),
            Some(i) => bucket::read(&self.buckets.vals[i], &key),
        }
    }

    /// Stores `value` as a blob under `key` in `bucket`, creating the bucket
    /// if need be and replacing whatever the key held.
    pub fn set(&mut self, bucket: &str, key: String, value: Vec<u8>)
        requires
            old(self).wf(),
        ensures
            final(self).wf(),
            final(self)@ == set_state(old(self)@, bucket@, key@, value@),
    {
        let ghost before = *self;
        let name = bucket.to_owned();
        match self.buckets.find(&name) {
            Some(i) => {
                bucket::put(&mut self.buckets.vals[i], key, Entry::Blob(value));
                proof {
                    Self::lemma_bucket_replaced(&before, self, i as int);
                }
            },
            None => {
                let mut fresh: Bucket = Table::new();
                assert(bucket_view(&fresh) =~= Map::<Seq<char>, EntryView>::empty());
                bucket::put(&mut fresh, key, Entry::Blob(value));
                let ghost added = fresh;
                self.buckets.push_new(name, fresh);
                assert(self@ =~= before@.insert(bucket@, bucket_view(&added)));
            },
        }
    }

    /// Removes `key` from `bucket`. The bucket stays, even if now empty.
    pub fn delete(&mut self, bucket: &str, key: String) -> (r: Result<(), Error>)
        requires
            old(self).wf(),
        ensures
            final(self).wf(),
            r == delete_result(old(self)@, bucket@, key@),
            final(self)@ == delete_state(old(self)@, bucket@, key@),
    {
        let ghost before = *self;
        let name = bucket.to_owned();
        match self.buckets.find(&name) {
            None => Err(Error::BucketNotFound),
            Some(i) => {
                let found = bucket::erase(&mut self.buckets.vals[i], &key);
                proof {
                    Self::lemma_bucket_replaced(&before, self, i as int);
                }
                if found {
                    Ok(())
                } else {
                    assert(self@ =~= before@) by {
                        assert(before@[bucket@].remove(key@) =~= before@[bucket@]);
                    }
                    Err(Error::KeyNotFound)
                }
            },
        }
    }

    /// Whether `bucket` holds `key`. A missing key is no error.
    pub fn contains_key(&self, bucket: &str, key: String) -> (r: Result<bool, Error>)
        requires
            self.wf(),
        ensures
            r == exists_result(self@, bucket@, key@),
    {
        let name = bucket.to_owned();
        match self.buckets.find(&name) {
            None => Err(Error::BucketNotFound),
            Some(i) => Ok(bucket::holds(&self.buckets.vals[i], &key)),
        }
    }

    /// Adds `delta` to the number under `key` in `bucket` and returns the
    /// sum. The addition wraps. A key that is absent is created with the
    /// value `delta`; a bucket that is absent is not.
    pub fn increment(&mut self, bucket: &str, key: String, delta: u64) -> (r: Result<u64, Error>)
        requires
            old(self).wf(),
        ensures
            final(self).wf(),
            r == increment_result(old(self)@, bucket@, key@, delta),
            final(self)@ == increment_state(old(self)@, bucket@, key@, delta),
    {
        let ghost before = *self;
        let name = bucket.to_owned();
        match self.buckets.find(&name) {
            None => Err(Error::BucketNotFound),
            Some(i) => {
                let r = bucket::increment(&mut self.buckets.vals[i], key, delta);
                proof {
                    Self::lemma_bucket_replaced(&before, self, i as int);
                    if r.is_err() {
                        assert(self@ =~= before@);
                    }
                }
                r
            },
        }
    }

    /// Sets the number under `key` in `bucket` to `new` if it is `expected`,
    /// in one attempt, and tells whether it did.
    pub fn compare_and_swap(
        &mut self,
        bucket: &str,
        key: String,
        expected: u64,
        new: u64,
    ) -> (r: Result<bool, Error>)
        requires
            old(self).wf(),
        ensures
            final(self).wf(),
            r == compare_and_swap_result(old(self)@, bucket@, key@, expected),
            final(self)@ == compare_and_swap_state(old(self)@, bucket@, key@, expected, new),
    {
        let ghost before = *self;
        let name = bucket.to_owned();
        match self.buckets.find(&name) {
            None => Err(Error::BucketNotFound),
            Some(i) => {
                let r = bucket::compare_and_swap(&mut self.buckets.vals[i], &key, expected, new);
                proof {
                    Self::lemma_bucket_replaced(&before, self, i as int);
                    if r != Ok::<bool, Error>(true) {
                        assert(self@ =~= before@);
                    }
                }
                r
            },
        }
    }
}

} // verus!
