//! The mathematical model of the store and of each operation on it.
//!
//! A store is a map from bucket names to buckets, a bucket a map from keys to
//! entry values. For every operation one function gives its result and
//! another the store it leaves behind.
use vstd::prelude::*;
use crate::entry::{entry_bytes, Entry, EntryView};
use crate::error::Error;
use crate::order::{lemma_precedes_irreflexive, precedes};

verus! {

/// A bucket: key to entry.
pub type BucketMap = Map<Seq<char>, EntryView>;

/// A store: bucket name to bucket.
pub type StoreMap = Map<Seq<char>, Map<Seq<char>, EntryView>>;

/// The sum of `a` and `b` modulo 2^64.
pub open spec fn wrapping_sum(a: u64, b: u64) -> u64 {
    ((a + b) % 0x1_0000_0000_0000_0000) as u64
}

/// The map that a list of keyed values describes, each value seen through
/// `f`. Of two values under one key the later one counts.
pub open spec fn keyed<V, W>(pairs: Seq<(String, V)>, f: spec_fn(V) -> W) -> Map<Seq<char>, W>
    decreases pairs.len(),
{
    if pairs.len() == 0 {
        Map::empty()
    } else {
        keyed(pairs.drop_last(), f).insert(pairs.last().0@, f(pairs.last().1))
    }
}

/// No key occurs twice in the list.
pub open spec fn no_key_twice<V>(pairs: Seq<(String, V)>) -> bool {
    forall|i: int, j: int| 0 <= i < j < pairs.len() ==> pairs[i].0@ != pairs[j].0@
}

/// The keys of the list ascend: each comes before all that follow it.
pub open spec fn ascending<V>(pairs: Seq<(String, V)>) -> bool {
    forall|i: int, j: int| 0 <= i < j < pairs.len() ==> precedes(pairs[i].0@, pairs[j].0@)
}

/// In a list with ascending keys no key occurs twice.
pub proof fn lemma_ascending_no_key_twice<V>(pairs: Seq<(String, V)>)
    requires
        ascending(pairs),
    ensures
        no_key_twice(pairs),
{
    assert forall|i: int, j: int| 0 <= i < j < pairs.len() implies pairs[i].0@ != pairs[j].0@ by {
        lemma_precedes_irreflexive(pairs[i].0@);
    }
}

/// The bucket that a list of keyed entries describes. Of two entries under
/// one key the later one counts.
pub open spec fn bucket_of(pairs: Seq<(String, Entry)>) -> BucketMap {
    keyed(pairs, |e: Entry| e@)
}

/// The store that a list of named buckets describes. Of two buckets under
/// one name the later one counts, whole.
pub open spec fn store_of(buckets: Seq<(String, Vec<(String, Entry)>)>) -> StoreMap {
    keyed(buckets, |pairs: Vec<(String, Entry)>| bucket_of(pairs@))
}

/// The keys of `keyed(pairs, f)` are the keys in the list; where no key
/// occurs twice, each holds the value listed with it.
pub proof fn lemma_keyed<V, W>(pairs: Seq<(String, V)>, f: spec_fn(V) -> W)
    ensures
        forall|k: Seq<char>| #[trigger]
            keyed(pairs, f).contains_key(k) <==> exists|i: int|
                0 <= i < pairs.len() && pairs[i].0@ == k,
        no_key_twice(pairs) ==> forall|i: int|
            0 <= i < pairs.len() ==> keyed(pairs, f)[#[trigger] pairs[i].0@] == f(pairs[i].1),
    decreases pairs.len(),
{
    if pairs.len() > 0 {
        let front = pairs.drop_last();
        let last = pairs.last();
        lemma_keyed(front, f);
        assert forall|k: Seq<char>| #[trigger]
            keyed(pairs, f).contains_key(k) <==> exists|i: int|
                0 <= i < pairs.len() && pairs[i].0@ == k by {
            if keyed(pairs, f).contains_key(k) {
                if k == last.0@ {
                    assert(pairs[pairs.len() - 1].0@ == k);
                } else {
                    assert(keyed(front, f).contains_key(k));
                    let i = choose|i: int| 0 <= i < front.len() && front[i].0@ == k;
                    assert(pairs[i].0@ == k);
                }
            }
            if exists|i: int| 0 <= i < pairs.len() && pairs[i].0@ == k {
                let i = choose|i: int| 0 <= i < pairs.len() && pairs[i].0@ == k;
                if i < front.len() {
                    assert(front[i].0@ == k);
                    assert(keyed(front, f).contains_key(k));
                }
            }
        }
        if no_key_twice(pairs) {
            assert(no_key_twice(front)) by {
                assert forall|i: int, j: int| 0 <= i < j < front.len() implies front[i].0@
                    != front[j].0@ by {
                    assert(pairs[i].0@ != pairs[j].0@);
                }
            }
            assert forall|i: int| 0 <= i < pairs.len() implies keyed(pairs, f)[#[trigger] pairs[i].0@]
                == f(pairs[i].1) by {
                if i < front.len() {
                    assert(pairs[i].0@ != pairs[pairs.len() - 1].0@);
                    assert(front[i] == pairs[i]);
                    assert(keyed(front, f)[front[i].0@] == f(front[i].1));
                }
            }
        }
    }
}

/// A list without a repeated key describes the map that has the list's keys
/// and under each the value listed with it.
pub proof fn lemma_keyed_is<V, W>(pairs: Seq<(String, V)>, f: spec_fn(V) -> W, m: Map<Seq<char>, W>)
    requires
        no_key_twice(pairs),
        forall|k: Seq<char>| #[trigger]
            m.contains_key(k) <==> exists|i: int| 0 <= i < pairs.len() && pairs[i].0@ == k,
        forall|i: int| 0 <= i < pairs.len() ==> m[#[trigger] pairs[i].0@] == f(pairs[i].1),
    ensures
        keyed(pairs, f) == m,
{
    lemma_keyed(pairs, f);
    assert forall|k: Seq<char>| keyed(pairs, f).contains_key(k) implies keyed(pairs, f)[k]
        == m[k] by {
        let i = choose|i: int| 0 <= i < pairs.len() && pairs[i].0@ == k;
        assert(keyed(pairs, f)[pairs[i].0@] == f(pairs[i].1));
    }
    assert(keyed(pairs, f) =~= m);
}

/// What reading `key` in a bucket returns: the entry's bytes and their number.
pub open spec fn bucket_get(b: BucketMap, key: Seq<char>) -> Result<(Seq<u8>, u64), Error> {
    if !b.contains_key(key) {
        Err(Error::KeyNotFound)
    } else {
        let bytes = entry_bytes(b[key]);
        if bytes.len() > u64::MAX {
            Err(Error::SizeOverflow)
        } else {
            Ok((bytes, bytes.len() as u64))
        }
    }
}

/// What incrementing `key` in a bucket returns: the value after the addition,
/// which wraps. An absent key counts from zero.
pub open spec fn bucket_increment_result(b: BucketMap, key: Seq<char>, delta: u64) -> Result<
    u64,
    Error,
> {
    if !b.contains_key(key) {
        Ok(delta)
    } else {
        match b[key] {
            EntryView::Atomic(n) => Ok(wrapping_sum(n, delta)),
            EntryView::Blob(_) => Err(Error::TypeMismatch),
        }
    }
}

/// The bucket after an increment: on success the key holds the returned
/// number; on failure nothing changes.
pub open spec fn bucket_increment_state(b: BucketMap, key: Seq<char>, delta: u64) -> BucketMap {
    match bucket_increment_result(b, key, delta) {
        Ok(n) => b.insert(key, EntryView::Atomic(n)),
        Err(_) => b,
    }
}

/// What a compare-and-swap on `key` in a bucket returns: whether the number
/// under the key was `expected`.
pub open spec fn bucket_compare_and_swap_result(
    b: BucketMap,
    key: Seq<char>,
    expected: u64,
) -> Result<bool, Error> {
    if !b.contains_key(key) {
        Err(Error::KeyNotFound)
    } else {
        match b[key] {
            EntryView::Atomic(n) => Ok(n == expected),
            EntryView::Blob(_) => Err(Error::TypeMismatch),
        }
    }
}

/// The bucket after a compare-and-swap: the key holds `new` if the number
/// under it was `expected`; otherwise nothing changes.
pub open spec fn bucket_compare_and_swap_state(
    b: BucketMap,
    key: Seq<char>,
    expected: u64,
    new: u64,
) -> BucketMap {
    if bucket_compare_and_swap_result(b, key, expected) == Ok::<bool, Error>(true) {
        b.insert(key, EntryView::Atomic(new))
    } else {
        b
    }
}

/// What `get` returns.
pub open spec fn get_result(s: StoreMap, bucket: Seq<char>, key: Seq<char>) -> Result<
    (Seq<u8>, u64),
    Error,
> {
    if !s.contains_key(bucket) {
        Err(Error::BucketNotFound)
    } else {
        bucket_get(s[bucket], key)
    }
}

/// The store after `set`: the bucket, created if absent, holds a blob of
/// `bytes` under `key`, whatever it held there before.
pub open spec fn set_state(
    s: StoreMap,
    bucket: Seq<char>,
    key: Seq<char>,
    bytes: Seq<u8>,
) -> StoreMap {
    let before = if s.contains_key(bucket) {
        s[bucket]
    } else {
        Map::empty()
    };
    s.insert(bucket, before.insert(key, EntryView::Blob(bytes)))
}

/// What `delete` returns.
pub open spec fn delete_result(s: StoreMap, bucket: Seq<char>, key: Seq<char>) -> Result<
    (),
    Error,
> {
    if !s.contains_key(bucket) {
        Err(Error::BucketNotFound)
    } else if !s[bucket].contains_key(key) {
        Err(Error::KeyNotFound)
    } else {
        Ok(())
    }
}

/// The store after `delete`: on success the key is gone and the bucket stays,
/// even if empty; on failure nothing changes.
pub open spec fn delete_state(s: StoreMap, bucket: Seq<char>, key: Seq<char>) -> StoreMap {
    if delete_result(s, bucket, key).is_ok() {
        s.insert(bucket, s[bucket].remove(key))
    } else {
        s
    }
}

/// What `exists` returns.
pub open spec fn exists_result(s: StoreMap, bucket: Seq<char>, key: Seq<char>) -> Result<
    bool,
    Error,
> {
    if !s.contains_key(bucket) {
        Err(Error::BucketNotFound)
    } else {
        Ok(s[bucket].contains_key(key))
    }
}

/// What `increment` returns. A missing bucket is an error: only `set` creates
/// buckets.
pub open spec fn increment_result(
    s: StoreMap,
    bucket: Seq<char>,
    key: Seq<char>,
    delta: u64,
) -> Result<u64, Error> {
    if !s.contains_key(bucket) {
        Err(Error::BucketNotFound)
    } else {
        bucket_increment_result(s[bucket], key, delta)
    }
}

/// The store after `increment`: on success the key holds the returned number;
/// on failure nothing changes.
pub open spec fn increment_state(
    s: StoreMap,
    bucket: Seq<char>,
    key: Seq<char>,
    delta: u64,
) -> StoreMap {
    if increment_result(s, bucket, key, delta).is_ok() {
        s.insert(bucket, bucket_increment_state(s[bucket], key, delta))
    } else {
        s
    }
}

/// What `compare_and_swap` returns. A value other than `expected` is no
/// error: the call returns `Ok(false)`.
pub open spec fn compare_and_swap_result(
    s: StoreMap,
    bucket: Seq<char>,
    key: Seq<char>,
    expected: u64,
) -> Result<bool, Error> {
    if !s.contains_key(bucket) {
        Err(Error::BucketNotFound)
    } else {
        bucket_compare_and_swap_result(s[bucket], key, expected)
    }
}

/// The store after `compare_and_swap`: the key holds `new` if the call
/// returned `Ok(true)`; otherwise nothing changes.
pub open spec fn compare_and_swap_state(
    s: StoreMap,
    bucket: Seq<char>,
    key: Seq<char>,
    expected: u64,
    new: u64,
) -> StoreMap {
    if compare_and_swap_result(s, bucket, key, expected) == Ok::<bool, Error>(true) {
        s.insert(bucket, bucket_compare_and_swap_state(s[bucket], key, expected, new))
    } else {
        s
    }
}

} // verus!
