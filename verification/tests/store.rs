use mem_keyvalue::entry::decimal_bytes;
use mem_keyvalue::{Entry, Error, KeyValue};

fn with_bucket(name: &str) -> KeyValue {
    KeyValue::from_buckets(vec![(name.to_string(), vec![])])
}

#[test]
fn increment_twice_adds_both_deltas() {
    let mut kv = with_bucket("b");
    assert_eq!(kv.increment("b", "n".into(), 3), Ok(3));
    assert_eq!(kv.increment("b", "n".into(), 4), Ok(7));
}

#[test]
fn increment_wraps_around() {
    let mut kv = with_bucket("b");
    assert_eq!(kv.increment("b", "n".into(), u64::MAX), Ok(u64::MAX));
    assert_eq!(kv.increment("b", "n".into(), 2), Ok(1));
    assert_eq!(kv.get("b", "n".into()), Ok((b"1".to_vec(), 1)));
}

#[test]
fn increment_by_zero_creates_counter() {
    let mut kv = with_bucket("b");
    assert_eq!(kv.increment("b", "n".into(), 0), Ok(0));
    assert_eq!(kv.contains_key("b", "n".into()), Ok(true));
    assert_eq!(kv.get("b", "n".into()), Ok((b"0".to_vec(), 1)));
}

#[test]
fn increment_does_not_create_bucket() {
    let mut kv = KeyValue::new();
    assert_eq!(kv.increment("b", "n".into(), 1), Err(Error::BucketNotFound));
    assert_eq!(kv.contains_key("b", "n".into()), Err(Error::BucketNotFound));
    assert!(kv.into_buckets().is_empty());
}

#[test]
fn increment_many_times_loses_nothing() {
    let mut kv = with_bucket("bucket");
    let mut last = 0;
    for _ in 0..1000 {
        last = kv.increment("bucket", "ctr".into(), 1).unwrap();
    }
    assert_eq!(last, 1000);
    assert_eq!(kv.get("bucket", "ctr".into()), Ok((b"1000".to_vec(), 4)));
}

#[test]
fn compare_and_swap_current_succeeds_then_fails() {
    let mut kv = with_bucket("b");
    assert_eq!(kv.increment("b", "n".into(), 5), Ok(5));
    assert_eq!(kv.compare_and_swap("b", "n".into(), 5, 9), Ok(true));
    assert_eq!(kv.get("b", "n".into()), Ok((b"9".to_vec(), 1)));
    assert_eq!(kv.compare_and_swap("b", "n".into(), 5, 9), Ok(false));
    assert_eq!(kv.get("b", "n".into()), Ok((b"9".to_vec(), 1)));
}

#[test]
fn compare_and_swap_same_value_keeps_succeeding() {
    let mut kv = with_bucket("b");
    assert_eq!(kv.increment("b", "n".into(), 5), Ok(5));
    assert_eq!(kv.compare_and_swap("b", "n".into(), 5, 5), Ok(true));
    assert_eq!(kv.compare_and_swap("b", "n".into(), 5, 5), Ok(true));
}

#[test]
fn compare_and_swap_mismatch_is_not_an_error() {
    let mut kv = with_bucket("b");
    assert_eq!(kv.increment("b", "n".into(), 5), Ok(5));
    assert_eq!(kv.compare_and_swap("b", "n".into(), 6, 7), Ok(false));
    assert_eq!(kv.increment("b", "n".into(), 0), Ok(5));
}

#[test]
fn compare_and_swap_needs_bucket_and_key() {
    let mut kv = KeyValue::new();
    assert_eq!(
        kv.compare_and_swap("b", "n".into(), 0, 1),
        Err(Error::BucketNotFound)
    );
    kv.set("b", "other".into(), vec![]);
    assert_eq!(
        kv.compare_and_swap("b", "n".into(), 0, 1),
        Err(Error::KeyNotFound)
    );
    assert_eq!(kv.contains_key("b", "n".into()), Ok(false));
}

#[test]
fn get_after_set_returns_the_bytes() {
    let mut kv = KeyValue::new();
    kv.set("bucket", "k".into(), vec![0, 255, 7, 7]);
    assert_eq!(kv.get("bucket", "k".into()), Ok((vec![0, 255, 7, 7], 4)));
}

#[test]
fn set_empty_value() {
    let mut kv = KeyValue::new();
    kv.set("bucket", "k".into(), vec![]);
    assert_eq!(kv.get("bucket", "k".into()), Ok((vec![], 0)));
    assert_eq!(kv.contains_key("bucket", "k".into()), Ok(true));
}

#[test]
fn set_creates_bucket_and_replaces_value() {
    let mut kv = KeyValue::new();
    assert_eq!(kv.get("b", "k".into()), Err(Error::BucketNotFound));
    kv.set("b", "k".into(), b"one".to_vec());
    kv.set("b", "k".into(), b"two!".to_vec());
    assert_eq!(kv.get("b", "k".into()), Ok((b"two!".to_vec(), 4)));
    assert_eq!(kv.get("b", "j".into()), Err(Error::KeyNotFound));
    assert_eq!(kv.get("c", "k".into()), Err(Error::BucketNotFound));
}

#[test]
fn set_keeps_other_keys_and_buckets() {
    let mut kv = KeyValue::new();
    kv.set("a", "x".into(), b"1".to_vec());
    kv.set("b", "x".into(), b"2".to_vec());
    kv.set("a", "y".into(), b"3".to_vec());
    assert_eq!(kv.get("a", "x".into()), Ok((b"1".to_vec(), 1)));
    assert_eq!(kv.get("b", "x".into()), Ok((b"2".to_vec(), 1)));
    assert_eq!(kv.get("a", "y".into()), Ok((b"3".to_vec(), 1)));
    assert_eq!(kv.contains_key("b", "y".into()), Ok(false));
}

#[test]
fn get_counter_returns_decimal_text() {
    let mut kv = with_bucket("b");
    assert_eq!(kv.increment("b", "n".into(), 5), Ok(5));
    assert_eq!(kv.get("b", "n".into()), Ok((b"5".to_vec(), 1)));
    assert_eq!(kv.increment("b", "n".into(), 1230), Ok(1235));
    assert_eq!(kv.get("b", "n".into()), Ok((b"1235".to_vec(), 4)));
}

#[test]
fn decimal_text_of_numbers() {
    assert_eq!(decimal_bytes(0), b"0".to_vec());
    assert_eq!(decimal_bytes(9), b"9".to_vec());
    assert_eq!(decimal_bytes(10), b"10".to_vec());
    assert_eq!(decimal_bytes(1002003), b"1002003".to_vec());
    assert_eq!(decimal_bytes(u64::MAX), b"18446744073709551615".to_vec());
    assert_eq!(decimal_bytes(u64::MAX), u64::MAX.to_string().into_bytes());
}

#[test]
fn entry_bytes_by_kind() {
    assert_eq!(Entry::Atomic(42).to_bytes(), b"42".to_vec());
    assert_eq!(Entry::Blob(vec![4, 2]).to_bytes(), vec![4, 2]);
}

#[test]
fn exists_tells_absent_key_from_absent_bucket() {
    let mut kv = KeyValue::new();
    assert_eq!(kv.contains_key("b", "k".into()), Err(Error::BucketNotFound));
    kv.set("b", "k".into(), vec![1]);
    assert_eq!(kv.contains_key("b", "k".into()), Ok(true));
    assert_eq!(kv.contains_key("b", "other".into()), Ok(false));
    assert_eq!(kv.contains_key("B", "k".into()), Err(Error::BucketNotFound));
}

#[test]
fn delete_then_get_fails() {
    let mut kv = KeyValue::new();
    kv.set("b", "k".into(), vec![1]);
    kv.set("b", "j".into(), vec![2]);
    assert_eq!(kv.delete("b", "k".into()), Ok(()));
    assert_eq!(kv.get("b", "k".into()), Err(Error::KeyNotFound));
    assert_eq!(kv.get("b", "j".into()), Ok((vec![2], 1)));
}

#[test]
fn delete_reports_what_is_missing() {
    let mut kv = KeyValue::new();
    assert_eq!(kv.delete("b", "k".into()), Err(Error::BucketNotFound));
    kv.set("b", "k".into(), vec![1]);
    assert_eq!(kv.delete("b", "j".into()), Err(Error::KeyNotFound));
    assert_eq!(kv.delete("b", "k".into()), Ok(()));
    assert_eq!(kv.delete("b", "k".into()), Err(Error::KeyNotFound));
}

#[test]
fn delete_keeps_empty_bucket() {
    let mut kv = KeyValue::new();
    kv.set("b", "k".into(), vec![1]);
    assert_eq!(kv.delete("b", "k".into()), Ok(()));
    assert_eq!(kv.contains_key("b", "k".into()), Ok(false));
    assert_eq!(kv.increment("b", "k".into(), 2), Ok(2));
}

#[test]
fn delete_middle_keeps_neighbours() {
    let mut kv = KeyValue::new();
    kv.set("b", "a".into(), vec![1]);
    kv.set("b", "m".into(), vec![2]);
    kv.set("b", "z".into(), vec![3]);
    assert_eq!(kv.delete("b", "m".into()), Ok(()));
    assert_eq!(kv.get("b", "a".into()), Ok((vec![1], 1)));
    assert_eq!(kv.get("b", "z".into()), Ok((vec![3], 1)));
    assert_eq!(kv.contains_key("b", "m".into()), Ok(false));
}

#[test]
fn number_operations_reject_blob() {
    let mut kv = KeyValue::new();
    kv.set("b", "k".into(), b"12".to_vec());
    assert_eq!(kv.increment("b", "k".into(), 1), Err(Error::TypeMismatch));
    assert_eq!(
        kv.compare_and_swap("b", "k".into(), 12, 13),
        Err(Error::TypeMismatch)
    );
    assert_eq!(kv.get("b", "k".into()), Ok((b"12".to_vec(), 2)));
}

#[test]
fn set_turns_counter_into_blob() {
    let mut kv = with_bucket("b");
    assert_eq!(kv.increment("b", "n".into(), 5), Ok(5));
    kv.set("b", "n".into(), b"x".to_vec());
    assert_eq!(kv.get("b", "n".into()), Ok((b"x".to_vec(), 1)));
    assert_eq!(kv.increment("b", "n".into(), 1), Err(Error::TypeMismatch));
}

#[test]
fn from_buckets_later_entry_wins() {
    let kv = KeyValue::from_buckets(vec![
        (
            "a".to_string(),
            vec![
                ("k".to_string(), Entry::Atomic(1)),
                ("k".to_string(), Entry::Blob(vec![9])),
            ],
        ),
        ("b".to_string(), vec![("k".to_string(), Entry::Atomic(2))]),
        ("b".to_string(), vec![("j".to_string(), Entry::Atomic(3))]),
    ]);
    assert_eq!(kv.get("a", "k".into()), Ok((vec![9], 1)));
    assert_eq!(kv.contains_key("b", "k".into()), Ok(false));
    assert_eq!(kv.get("b", "j".into()), Ok((b"3".to_vec(), 1)));
}

#[test]
fn into_buckets_lists_every_entry_once() {
    let mut kv = KeyValue::new();
    kv.set("a", "x".into(), vec![1]);
    kv.set("b", "y".into(), vec![2]);
    kv.set("a", "x".into(), vec![3]);
    assert_eq!(kv.increment("a", "n".into(), 7), Ok(7));
    let mut buckets = kv.into_buckets();
    buckets.sort_by(|l, r| l.0.cmp(&r.0));
    for bucket in buckets.iter_mut() {
        bucket.1.sort_by(|l, r| l.0.cmp(&r.0));
    }
    assert_eq!(
        buckets,
        vec![
            (
                "a".to_string(),
                vec![
                    ("n".to_string(), Entry::Atomic(7)),
                    ("x".to_string(), Entry::Blob(vec![3])),
                ]
            ),
            ("b".to_string(), vec![("y".to_string(), Entry::Blob(vec![2]))]),
        ]
    );
}

#[test]
fn buckets_round_trip() {
    let mut kv = KeyValue::new();
    kv.set("a", "x".into(), vec![1]);
    kv.set("b", "y".into(), vec![]);
    assert_eq!(kv.delete("b", "y".into()), Ok(()));
    let back = KeyValue::from_buckets(kv.into_buckets());
    assert_eq!(back.get("a", "x".into()), Ok((vec![1], 1)));
    assert_eq!(back.contains_key("b", "y".into()), Ok(false));
}

#[test]
fn error_messages() {
    assert_eq!(Error::BucketNotFound.message(), "bucket not found");
    assert_eq!(Error::KeyNotFound.message(), "key not found");
    assert_eq!(Error::TypeMismatch.message(), "invalid entry type");
    assert_eq!(Error::SizeOverflow.message(), "size does not fit in `u64`");
    assert_eq!(Error::IoFailure.message(), "failed to read value");
}

#[test]
fn bucket_and_key_names_match_exactly() {
    let mut kv = KeyValue::new();
    kv.set("", "".into(), vec![1]);
    kv.set("é", "ü".into(), vec![2]);
    assert_eq!(kv.get("", "".into()), Ok((vec![1], 1)));
    assert_eq!(kv.get("é", "ü".into()), Ok((vec![2], 1)));
    assert_eq!(kv.get("e", "ü".into()), Err(Error::BucketNotFound));
    assert_eq!(kv.get("é", "u".into()), Err(Error::KeyNotFound));
}

#[test]
fn into_sorted_buckets_orders_names_and_keys() {
    let mut kv = KeyValue::new();
    kv.set("b", "z".into(), vec![1]);
    kv.set("ab", "k".into(), vec![2]);
    kv.set("a", "k".into(), vec![3]);
    kv.set("b", "a".into(), vec![4]);
    kv.set("B", "k".into(), vec![5]);
    kv.set("b", "é".into(), vec![6]);
    kv.set("b", "zz".into(), vec![7]);
    kv.set("b", "".into(), vec![8]);
    assert_eq!(
        kv.into_sorted_buckets(),
        vec![
            ("B".to_string(), vec![("k".to_string(), Entry::Blob(vec![5]))]),
            ("a".to_string(), vec![("k".to_string(), Entry::Blob(vec![3]))]),
            ("ab".to_string(), vec![("k".to_string(), Entry::Blob(vec![2]))]),
            (
                "b".to_string(),
                vec![
                    ("".to_string(), Entry::Blob(vec![8])),
                    ("a".to_string(), Entry::Blob(vec![4])),
                    ("z".to_string(), Entry::Blob(vec![1])),
                    ("zz".to_string(), Entry::Blob(vec![7])),
                    ("é".to_string(), Entry::Blob(vec![6])),
                ]
            ),
        ]
    );
}

#[test]
fn into_sorted_buckets_of_empty_store() {
    assert!(KeyValue::new().into_sorted_buckets().is_empty());
    let kv = with_bucket("only");
    assert_eq!(
        kv.into_sorted_buckets(),
        vec![("only".to_string(), vec![])]
    );
}

#[test]
fn sorted_buckets_agree_with_a_sorted_map() {
    let mut kv = KeyValue::new();
    let names = ["q", "c", "x", "a", "m", "aa", "Z"];
    for (i, name) in names.iter().enumerate() {
        for key in names.iter().rev() {
            kv.set(name, key.to_string(), vec![i.try_into().unwrap()]);
        }
    }
    let sorted = kv.into_sorted_buckets();
    let listed: Vec<&str> = sorted.iter().map(|b| b.0.as_str()).collect();
    let mut expected = names.to_vec();
    expected.sort();
    assert_eq!(listed, expected);
    for bucket in sorted.iter() {
        let keys: Vec<&str> = bucket.1.iter().map(|e| e.0.as_str()).collect();
        assert_eq!(keys, expected);
    }
}

#[test]
fn operations_leave_other_keys_alone() {
    let mut kv = KeyValue::new();
    kv.set("a", "x".into(), vec![1]);
    kv.set("b", "x".into(), vec![2]);
    assert_eq!(kv.increment("a", "n".into(), 1), Ok(1));
    assert_eq!(kv.compare_and_swap("a", "n".into(), 1, 5), Ok(true));
    assert_eq!(kv.delete("a", "n".into()), Ok(()));
    assert_eq!(kv.get("a", "x".into()), Ok((vec![1], 1)));
    assert_eq!(kv.get("b", "x".into()), Ok((vec![2], 1)));
}

#[test]
fn increments_interleaved_with_other_calls_lose_nothing() {
    let mut kv = with_bucket("bucket");
    for i in 0..50u64 {
        assert_eq!(kv.increment("bucket", "ctr".into(), 1), Ok(2 * i + 1));
        kv.set("bucket", "blob".into(), vec![7]);
        kv.set("other", "ctr".into(), vec![8]);
        assert_eq!(kv.increment("bucket", "side".into(), 5), Ok(5 * (i + 1)));
        assert_eq!(kv.increment("bucket", "ctr".into(), 1), Ok(2 * i + 2));
        assert_eq!(kv.delete("bucket", "blob".into()), Ok(()));
    }
    assert_eq!(kv.get("bucket", "ctr".into()), Ok((b"100".to_vec(), 3)));
}

#[test]
fn only_set_creates_buckets() {
    let mut kv = KeyValue::new();
    assert_eq!(kv.delete("b", "k".into()), Err(Error::BucketNotFound));
    assert_eq!(kv.increment("b", "k".into(), 1), Err(Error::BucketNotFound));
    assert_eq!(
        kv.compare_and_swap("b", "k".into(), 0, 1),
        Err(Error::BucketNotFound)
    );
    assert!(kv.into_buckets().is_empty());
    let mut kv = KeyValue::new();
    kv.set("b", "k".into(), vec![]);
    assert_eq!(kv.delete("b", "k".into()), Ok(()));
    assert_eq!(kv.into_buckets(), vec![("b".to_string(), vec![])]);
}
