//! General facts about sequences of store operations, stated over the model
//! that the operations' contracts use.
use vstd::prelude::*;
use crate::entry::{decimal, lemma_decimal_len, EntryView};
use crate::error::Error;
use crate::model::{
    compare_and_swap_result, compare_and_swap_state, delete_state, exists_result, get_result,
    increment_result, increment_state, set_state, wrapping_sum, StoreMap,
};

verus! {

/// Whether the two stores agree on `key` in `bucket`: both lack the bucket,
/// or both have it and either both lack the key or both hold the same entry.
pub open spec fn same_at(s: StoreMap, t: StoreMap, bucket: Seq<char>, key: Seq<char>) -> bool {
    &&& s.contains_key(bucket) == t.contains_key(bucket)
    &&& s.contains_key(bucket) ==> {
        &&& s[bucket].contains_key(key) == t[bucket].contains_key(key)
        &&& s[bucket].contains_key(key) ==> s[bucket][key] == t[bucket][key]
    }
}

/// An operation on one key of one bucket leaves every other key of every
/// bucket that existed before as it was.
pub proof fn other_keys_untouched(
    s: StoreMap,
    bucket: Seq<char>,
    key: Seq<char>,
    other_bucket: Seq<char>,
    other_key: Seq<char>,
    bytes: Seq<u8>,
    delta: u64,
    expected: u64,
    new: u64,
)
    requires
        s.contains_key(other_bucket),
        other_bucket != bucket || other_key != key,
    ensures
        same_at(s, set_state(s, bucket, key, bytes), other_bucket, other_key),
        same_at(s, delete_state(s, bucket, key), other_bucket, other_key),
        same_at(s, increment_state(s, bucket, key, delta), other_bucket, other_key),
        same_at(
            s,
            compare_and_swap_state(s, bucket, key, expected, new),
            other_bucket,
            other_key,
        ),
{
}

/// Incrementing a key that an existing bucket does not hold by `d1` and then
/// by `d2` yields `d1`, then `d1 + d2` modulo 2^64.
pub proof fn increment_twice(s: StoreMap, bucket: Seq<char>, key: Seq<char>, d1: u64, d2: u64)
    requires
        s.contains_key(bucket),
        !s[bucket].contains_key(key),
    ensures
        increment_result(s, bucket, key, d1) == Ok::<u64, Error>(d1),
        increment_result(increment_state(s, bucket, key, d1), bucket, key, d2) == Ok::<
            u64,
            Error,
        >(((d1 + d2) % 0x1_0000_0000_0000_0000) as u64),
{
}

/// Buckets live as long as the store: no operation removes one, and only
/// `set` makes one.
pub proof fn buckets_persist(
    s: StoreMap,
    bucket: Seq<char>,
    key: Seq<char>,
    bytes: Seq<u8>,
    delta: u64,
    expected: u64,
    new: u64,
)
    ensures
        set_state(s, bucket, key, bytes).dom() == s.dom().insert(bucket),
        delete_state(s, bucket, key).dom() == s.dom(),
        increment_state(s, bucket, key, delta).dom() == s.dom(),
        compare_and_swap_state(s, bucket, key, expected, new).dom() == s.dom(),
{
    assert(set_state(s, bucket, key, bytes).dom() =~= s.dom().insert(bucket));
    assert(delete_state(s, bucket, key).dom() =~= s.dom());
    assert(increment_state(s, bucket, key, delta).dom() =~= s.dom());
    assert(compare_and_swap_state(s, bucket, key, expected, new).dom() =~= s.dom());
}

/// One call of an operation that may change the store.
pub ghost enum Op {
    Write { bucket: Seq<char>, key: Seq<char>, bytes: Seq<u8> },
    Delete { bucket: Seq<char>, key: Seq<char> },
    Increment { bucket: Seq<char>, key: Seq<char>, delta: u64 },
    CompareAndSwap { bucket: Seq<char>, key: Seq<char>, expected: u64, new: u64 },
}

/// Whether the call works on `key` in `bucket`.
pub open spec fn targets(op: Op, bucket: Seq<char>, key: Seq<char>) -> bool {
    match op {
        Op::Write { bucket: b, key: k, .. } => b == bucket && k == key,
        Op::Delete { bucket: b, key: k } => b == bucket && k == key,
        Op::Increment { bucket: b, key: k, .. } => b == bucket && k == key,
        Op::CompareAndSwap { bucket: b, key: k, .. } => b == bucket && k == key,
    }
}

/// The store after the call.
pub open spec fn apply(s: StoreMap, op: Op) -> StoreMap {
    match op {
        Op::Write { bucket, key, bytes } => set_state(s, bucket, key, bytes),
        Op::Delete { bucket, key } => delete_state(s, bucket, key),
        Op::Increment { bucket, key, delta } => increment_state(s, bucket, key, delta),
        Op::CompareAndSwap { bucket, key, expected, new } => compare_and_swap_state(
            s,
            bucket,
            key,
            expected,
            new,
        ),
    }
}

/// The store after the calls, one after the other.
pub open spec fn run(s: StoreMap, ops: Seq<Op>) -> StoreMap
    decreases ops.len(),
{
    if ops.len() == 0 {
        s
    } else {
        apply(run(s, ops.drop_last()), ops.last())
    }
}

/// How many of the calls work on `key` in `bucket`.
pub open spec fn calls_on(ops: Seq<Op>, bucket: Seq<char>, key: Seq<char>) -> nat
    decreases ops.len(),
{
    if ops.len() == 0 {
        0
    } else {
        calls_on(ops.drop_last(), bucket, key) + if targets(ops.last(), bucket, key) {
            1nat
        } else {
            0nat
        }
    }
}

/// No update is lost: when calls of many callers reach the store in any
/// order, and those that work on one key, absent at first from an existing
/// bucket, are all increments by one, then the key ends at the number of
/// those increments modulo 2^64, whatever the other calls did to other keys.
pub proof fn no_lost_updates(s: StoreMap, ops: Seq<Op>, bucket: Seq<char>, key: Seq<char>)
    requires
        s.contains_key(bucket),
        !s[bucket].contains_key(key),
        forall|i: int|
            0 <= i < ops.len() && targets(#[trigger] ops[i], bucket, key) ==> ops[i]
                == (Op::Increment { bucket, key, delta: 1 }),
    ensures
        run(s, ops).contains_key(bucket),
        calls_on(ops, bucket, key) == 0 ==> !run(s, ops)[bucket].contains_key(key),
        calls_on(ops, bucket, key) > 0 ==> run(s, ops)[bucket].contains_key(key) && run(
            s,
            ops,
        )[bucket][key] == EntryView::Atomic(
            (calls_on(ops, bucket, key) % 0x1_0000_0000_0000_0000) as u64,
        ),
    decreases ops.len(),
{
    if ops.len() > 0 {
        let front = ops.drop_last();
        let last = ops.last();
        assert forall|i: int| 0 <= i < front.len() && targets(#[trigger] front[i], bucket, key)
            implies front[i] == (Op::Increment { bucket, key, delta: 1 }) by {
            assert(front[i] == ops[i]);
        }
        no_lost_updates(s, front, bucket, key);
        let mid = run(s, front);
        let n = calls_on(front, bucket, key);
        if targets(last, bucket, key) {
            assert(last == ops[ops.len() - 1]);
            assert(last == (Op::Increment { bucket, key, delta: 1 }));
            if n > 0 {
                let before = (n % 0x1_0000_0000_0000_0000) as u64;
                assert(wrapping_sum(before, 1) == ((n + 1) % 0x1_0000_0000_0000_0000) as u64) by {
                    assert(((n % 0x1_0000_0000_0000_0000) + 1) % 0x1_0000_0000_0000_0000 == (n
                        + 1) % 0x1_0000_0000_0000_0000) by (nonlinear_arith);
                }
            }
        } else {
            match last {
                Op::Write { bucket: b, key: k, bytes } => {
                    other_keys_untouched(mid, b, k, bucket, key, bytes, 0, 0, 0);
                },
                Op::Delete { bucket: b, key: k } => {
                    other_keys_untouched(mid, b, k, bucket, key, Seq::empty(), 0, 0, 0);
                },
                Op::Increment { bucket: b, key: k, delta } => {
                    other_keys_untouched(mid, b, k, bucket, key, Seq::empty(), delta, 0, 0);
                },
                Op::CompareAndSwap { bucket: b, key: k, expected, new } => {
                    other_keys_untouched(mid, b, k, bucket, key, Seq::empty(), 0, expected, new);
                },
            }
        }
    }
}

/// A compare-and-swap that expects the current value succeeds and leaves the
/// new value under the key.
pub proof fn compare_and_swap_current(
    s: StoreMap,
    bucket: Seq<char>,
    key: Seq<char>,
    current: u64,
    new: u64,
)
    requires
        s.contains_key(bucket),
        s[bucket].contains_key(key),
        s[bucket][key] == EntryView::Atomic(current),
    ensures
        compare_and_swap_result(s, bucket, key, current) == Ok::<bool, Error>(true),
        compare_and_swap_state(s, bucket, key, current, new)[bucket][key] == EntryView::Atomic(
            new,
        ),
{
}

/// Repeating a successful compare-and-swap returns `false` and changes
/// nothing, provided the new value differs from the expected one.
pub proof fn compare_and_swap_repeated(
    s: StoreMap,
    bucket: Seq<char>,
    key: Seq<char>,
    current: u64,
    new: u64,
)
    requires
        s.contains_key(bucket),
        s[bucket].contains_key(key),
        s[bucket][key] == EntryView::Atomic(current),
        new != current,
    ensures
        ({
            let after = compare_and_swap_state(s, bucket, key, current, new);
            &&& compare_and_swap_result(after, bucket, key, current) == Ok::<bool, Error>(false)
            &&& compare_and_swap_state(after, bucket, key, current, new) == after
        }),
{
}

/// `get` after `set` returns the bytes that were set, and their number.
pub proof fn get_after_set(s: StoreMap, bucket: Seq<char>, key: Seq<char>, bytes: Seq<u8>)
    requires
        bytes.len() <= u64::MAX,
    ensures
        get_result(set_state(s, bucket, key, bytes), bucket, key) == Ok::<(Seq<u8>, u64), Error>(
            (bytes, bytes.len() as u64),
        ),
{
}

/// `get` on a key that holds a number returns the number's decimal text.
pub proof fn get_number(s: StoreMap, bucket: Seq<char>, key: Seq<char>, n: u64)
    requires
        s.contains_key(bucket),
        s[bucket].contains_key(key),
        s[bucket][key] == EntryView::Atomic(n),
    ensures
        get_result(s, bucket, key) == Ok::<(Seq<u8>, u64), Error>(
            (decimal(n as nat), decimal(n as nat).len() as u64),
        ),
{
    lemma_decimal_len(n as nat);
}

/// `get` after a first increment by `delta` returns the decimal text of
/// `delta`.
pub proof fn get_after_increment(s: StoreMap, bucket: Seq<char>, key: Seq<char>, delta: u64)
    requires
        s.contains_key(bucket),
        !s[bucket].contains_key(key),
    ensures
        get_result(increment_state(s, bucket, key, delta), bucket, key) == Ok::<
            (Seq<u8>, u64),
            Error,
        >((decimal(delta as nat), decimal(delta as nat).len() as u64)),
{
    get_number(increment_state(s, bucket, key, delta), bucket, key, delta);
}

/// `exists` answers `false` for a key that an existing bucket does not hold
/// and fails for a bucket that does not exist.
pub proof fn exists_of_absent(s: StoreMap, bucket: Seq<char>, key: Seq<char>)
    ensures
        s.contains_key(bucket) && !s[bucket].contains_key(key) ==> exists_result(s, bucket, key)
            == Ok::<bool, Error>(false),
        !s.contains_key(bucket) ==> exists_result(s, bucket, key) == Err::<bool, Error>(
            Error::BucketNotFound,
        ),
{
}

/// After `delete`, whether it removed the key or found none, `get` on the
/// same key of an existing bucket fails with `KeyNotFound`.
pub proof fn get_after_delete(s: StoreMap, bucket: Seq<char>, key: Seq<char>)
    requires
        s.contains_key(bucket),
    ensures
        get_result(delete_state(s, bucket, key), bucket, key) == Err::<(Seq<u8>, u64), Error>(
            Error::KeyNotFound,
        ),
{
}

/// `increment` and `compare_and_swap` on a key that holds a blob fail with
/// `TypeMismatch` and change nothing.
pub proof fn number_operations_reject_blob(
    s: StoreMap,
    bucket: Seq<char>,
    key: Seq<char>,
    bytes: Seq<u8>,
    delta: u64,
    expected: u64,
    new: u64,
)
    requires
        s.contains_key(bucket),
        s[bucket].contains_key(key),
        s[bucket][key] == EntryView::Blob(bytes),
    ensures
        increment_result(s, bucket, key, delta) == Err::<u64, Error>(Error::TypeMismatch),
        increment_state(s, bucket, key, delta) == s,
        compare_and_swap_result(s, bucket, key, expected) == Err::<bool, Error>(
            Error::TypeMismatch,
        ),
        compare_and_swap_state(s, bucket, key, expected, new) == s,
{
}

/// `set` over a number replaces it by a blob: the kind of the entry changes
/// without error.
pub proof fn set_replaces_number(
    s: StoreMap,
    bucket: Seq<char>,
    key: Seq<char>,
    n: u64,
    bytes: Seq<u8>,
)
    requires
        s.contains_key(bucket),
        s[bucket].contains_key(key),
        s[bucket][key] == EntryView::Atomic(n),
    ensures
        set_state(s, bucket, key, bytes)[bucket][key] == EntryView::Blob(bytes),
        increment_result(set_state(s, bucket, key, bytes), bucket, key, 1) == Err::<u64, Error>(
            Error::TypeMismatch,
        ),
{
}

} // verus!
