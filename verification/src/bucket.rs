//! The operations on one bucket.
use vstd::prelude::*;
use crate::entry::{Entry, EntryView};
use crate::error::Error;
use crate::model::{
    ascending, bucket_compare_and_swap_result, bucket_compare_and_swap_state, bucket_get,
    bucket_increment_result, bucket_increment_state, bucket_of, lemma_ascending_no_key_twice,
    lemma_keyed_is, no_key_twice, BucketMap,
};
use crate::table::Table;

verus! {

/// A bucket: a table from keys to entries.
pub(crate) type Bucket = Table<Entry>;

/// The bucket as a map from keys to entry values.
pub(crate) open spec fn bucket_view(b: &Bucket) -> BucketMap {
    b.map().map_values(|e: Entry| e@)
}

/// The entries of the bucket as a list, no key twice, in no particular
/// order.
pub(crate) fn into_pairs(b: Bucket) -> (out: Vec<(String, Entry)>)
    requires
        b.wf(),
    ensures
        no_key_twice(out@),
        bucket_of(out@) == bucket_view(&b),
{
    let out = b.into_pairs();
    proof {
        lemma_keyed_is(out@, |e: Entry| e@, bucket_view(&b));
    }
    out
}

/// The entries of the bucket as a list in ascending order of the keys.
pub(crate) fn into_sorted_pairs(b: Bucket) -> (out: Vec<(String, Entry)>)
    requires
        b.wf(),
    ensures
        ascending(out@),
        bucket_of(out@) == bucket_view(&b),
{
    let out = b.into_sorted_pairs();
    proof {
        lemma_ascending_no_key_twice(out@);
        lemma_keyed_is(out@, |e: Entry| e@, bucket_view(&b));
    }
    out
}

/// Reads the entry under `key`.
pub(crate) fn read(b: &Bucket, key: &String) -> (r: Result<(Vec<u8>, u64), Error>)
    requires
        b.wf(),
    ensures
        match r {
            Ok((bytes, size)) => bucket_get(bucket_view(b), key@) == Ok::<(Seq<u8>, u64), Error>(
                (bytes@, size),
            ),
            Err(e) => bucket_get(bucket_view(b), key@) == Err::<(Seq<u8>, u64), Error>(e),
        },
{
    match b.find(key) {
        None => Err(Error::KeyNotFound),
        Some(j) => {
            let bytes = b.vals[j].to_bytes();
            match u64::try_from(bytes.len()) {
                Ok(size) => Ok((bytes, size)),
                Err(_) => Err(Error::SizeOverflow),
            }
        },
    }
}

/// Stores `entry` under `key`, replacing what was there.
pub(crate) fn put(b: &mut Bucket, key: String, entry: Entry)
    requires
        old(b).wf(),
    ensures
        final(b).wf(),
        bucket_view(final(b)) == bucket_view(old(b)).insert(key@, entry@),
{
    let ghost before = *b;
    match b.find(&key) {
        Some(j) => {
            b.vals[j] = entry;
            proof {
                Table::lemma_replace(&before, b, j as int);
            }
        },
        None => {
            b.push_new(key, entry);
        },
    }
    assert(bucket_view(b) =~= bucket_view(&before).insert(key@, entry@));
}

/// The bucket that holds the given entries, a later one replacing an earlier
/// one under the same key.
pub(crate) fn from_pairs(pairs: Vec<(String, Entry)>) -> (b: Bucket)
    ensures
        b.wf(),
        bucket_view(&b) == bucket_of(pairs@),
{
    let ghost all = pairs@;
    let mut b: Bucket = Table::new();
    assert(bucket_view(&b) =~= Map::<Seq<char>, EntryView>::empty());
    for pair in it: pairs
        invariant
            it.seq() == all,
            b.wf(),
            bucket_view(&b) == bucket_of(all.take(it.index() as int)),
    {
        let (key, entry) = pair;
        proof {
            let n = it.index() as int;
            assert(all.take(n + 1).drop_last() =~= all.take(n));
        }
        put(&mut b, key, entry);
    }
    assert(all.take(all.len() as int) =~= all);
    b
}

/// Removes `key`; tells whether it was there.
pub(crate) fn erase(b: &mut Bucket, key: &String) -> (found: bool)
    requires
        old(b).wf(),
    ensures
        final(b).wf(),
        found == bucket_view(old(b)).contains_key(key@),
        bucket_view(final(b)) == bucket_view(old(b)).remove(key@),
{
    let ghost before = *b;
    match b.find(key) {
        Some(j) => {
            let _ = b.take(j);
            assert(bucket_view(b) =~= bucket_view(&before).remove(key@));
            true
        },
        None => {
            assert(bucket_view(b) =~= bucket_view(&before).remove(key@));
            false
        },
    }
}

/// Whether the bucket holds `key`.
pub(crate) fn holds(b: &Bucket, key: &String) -> (found: bool)
    requires
        b.wf(),
    ensures
        found == bucket_view(b).contains_key(key@),
{
    b.find(key).is_some()
}

/// Adds `delta` to the number under `key`, wrapping; an absent key starts at
/// `delta`.
pub(crate) fn increment(b: &mut Bucket, key: String, delta: u64) -> (r: Result<u64, Error>)
    requires
        old(b).wf(),
    ensures
        final(b).wf(),
        r == bucket_increment_result(bucket_view(old(b)), key@, delta),
        bucket_view(final(b)) == bucket_increment_state(bucket_view(old(b)), key@, delta),
{
    let ghost before = *b;
    match b.find(&key) {
        Some(j) => match &b.vals[j] {
            Entry::Atomic(value) => {
                let sum = value.wrapping_add(delta);
                b.vals[j] = Entry::Atomic(sum);
                proof {
                    Table::lemma_replace(&before, b, j as int);
                    assert(bucket_view(b) =~= bucket_view(&before).insert(
                        key@,
                        EntryView::Atomic(sum),
                    ));
                }
                Ok(sum)
            },
            Entry::Blob(_) => Err(Error::TypeMismatch),
        },
        None => {
            b.push_new(key, Entry::Atomic(delta));
            assert(bucket_view(b) =~= bucket_view(&before).insert(key@, EntryView::Atomic(delta)));
            Ok(delta)
        },
    }
}

/// Replaces the number under `key` by `new` if it is `expected`; one attempt.
pub(crate) fn compare_and_swap(b: &mut Bucket, key: &String, expected: u64, new: u64) -> (r:
    Result<bool, Error>)
    requires
        old(b).wf(),
    ensures
        final(b).wf(),
        r == bucket_compare_and_swap_result(bucket_view(old(b)), key@, expected),
        bucket_view(final(b)) == bucket_compare_and_swap_state(
            bucket_view(old(b)),
            key@,
            expected,
            new,
        ),
{
    let ghost before = *b;
    match b.find(key) {
        None => Err(Error::KeyNotFound),
        Some(j) => match &b.vals[j] {
            Entry::Atomic(value) => {
                if *value == expected {
                    b.vals[j] = Entry::Atomic(new);
                    proof {
                        Table::lemma_replace(&before, b, j as int);
                        assert(bucket_view(b) =~= bucket_view(&before).insert(
                            key@,
                            EntryView::Atomic(new),
                        ));
                    }
                    Ok(true)
                } else {
                    Ok(false)
                }
            },
            Entry::Blob(_) => Err(Error::TypeMismatch),
        },
    }
}

} // verus!
