use merkle_clock::diverging_paths;
use merkle_clock::insert;
use merkle_clock::CodecError;
use merkle_clock::Key;
use merkle_clock::Merkle;
use merkle_clock::Timestamp;

fn ts(millis: u64, counter: u64, node: &str) -> Timestamp {
    Timestamp {
        millis,
        counter,
        node: String::from(node),
    }
}

#[test]
fn insert_test() {
    let tree1 = Merkle::new();
    let ts1 = Timestamp::from_millis(10);

    let got = insert(tree1, ts1).unwrap();

    // Millisecond 10 lies in bucket 0, whose key is sixteen zeros, so the
    // item's hash is aggregated at the root and at each of the sixteen
    // nodes down the all-zeros path.
    let hash: u32 = 3900295548;
    let mut want = Merkle {
        zero: None,
        one: None,
        two: None,
        hash,
    };
    for _ in 0..16 {
        want = Merkle {
            zero: Some(Box::new(want)),
            one: None,
            two: None,
            hash,
        };
    }
    assert_eq!(got, want);
}

#[test]
fn empty_trie() {
    let a = Merkle::new();
    let b = Merkle::new();
    assert_eq!(a.hash, 0);
    assert!(a.zero.is_none());
    assert!(a.one.is_none());
    assert!(a.two.is_none());
    assert_eq!(diverging_paths(&a, &b), Vec::<Key>::new());
}

#[test]
fn root_aggregates_xor_of_all_hashes() {
    let items = [ts(5, 1, "n1"), ts(61_000, 2, "n2"), ts(7_200_000, 3, "n3")];
    let expected = items[0].hash() ^ items[1].hash() ^ items[2].hash();

    let mut t = Merkle::new();
    for it in [&items[0], &items[1], &items[2]] {
        t = insert(t, ts(it.millis, it.counter, it.node.as_str())).unwrap();
    }
    assert_eq!(t.hash, expected);
}

#[test]
fn equal_sets_give_equal_tries_in_any_order() {
    let a1 = ts(5, 1, "n1");
    let a2 = ts(61_000, 2, "n2");
    let a3 = ts(7_200_000, 3, "n3");

    let mut t1 = Merkle::new();
    t1 = insert(t1, ts(a1.millis, a1.counter, "n1")).unwrap();
    t1 = insert(t1, ts(a2.millis, a2.counter, "n2")).unwrap();
    t1 = insert(t1, ts(a3.millis, a3.counter, "n3")).unwrap();

    let mut t2 = Merkle::new();
    t2 = insert(t2, ts(a3.millis, a3.counter, "n3")).unwrap();
    t2 = insert(t2, ts(a1.millis, a1.counter, "n1")).unwrap();
    t2 = insert(t2, ts(a2.millis, a2.counter, "n2")).unwrap();

    assert_eq!(t1, t2);
}

#[test]
fn double_insert_cancels_to_zero_root() {
    let mut t = Merkle::new();
    t = insert(t, ts(90_000, 4, "n1")).unwrap();
    t = insert(t, ts(90_000, 4, "n1")).unwrap();
    // XOR aggregation: the second insertion of the same item cancels the
    // first out of every aggregate. This is a documented property of the
    // scheme, not a bug.
    assert_eq!(t.hash, 0);
    let empty = Merkle::new();
    assert_eq!(diverging_paths(&t, &empty), Vec::<Key>::new());
}

#[test]
fn divergence_reports_the_differing_subtree() {
    // Key "1010000000000000" is bucket 3^15 + 3^13; key "2000000000000000"
    // is bucket 2 * 3^15.
    let bucket_a: u64 = 14_348_907 + 1_594_323;
    let bucket_b: u64 = 2 * 14_348_907;
    let ts_a = Timestamp::from_millis(bucket_a * 60000);
    let ts_b = Timestamp::from_millis(bucket_b * 60000);

    let mut a = Merkle::new();
    a = insert(a, Timestamp::from_millis(ts_a.millis)).unwrap();
    a = insert(a, Timestamp::from_millis(ts_b.millis)).unwrap();

    let mut b = Merkle::new();
    b = insert(b, Timestamp::from_millis(ts_a.millis)).unwrap();

    let got = diverging_paths(&a, &b);
    let want = vec![Key::from_base3_str("2000000000000000").unwrap()];
    assert_eq!(got, want);

    // Sanity: the shared subtree under "1" reports nothing when compared
    // with itself.
    assert_eq!(diverging_paths(&a, &a), Vec::<Key>::new());
}

#[test]
fn insert_rejects_out_of_range_timestamp() {
    let t = Merkle::new();
    let got = insert(t, Timestamp::from_millis(u64::MAX));
    assert_eq!(got, Err(CodecError::OutOfRange));
}

#[test]
fn two_singleton_tries_diverge_on_both_keys() {
    // Bucket 3^13 has key "0010000000000000"; bucket 2 * 3^14 has key
    // "0200000000000000". Each item is present in only one trie, so both
    // full keys are reported, in lexicographic path order.
    let mut a = Merkle::new();
    a = insert(a, Timestamp::from_millis(1_594_323 * 60000)).unwrap();
    let mut b = Merkle::new();
    b = insert(b, Timestamp::from_millis(2 * 4_782_969 * 60000)).unwrap();

    let got = diverging_paths(&a, &b);
    let want = vec![
        Key::from_base3_str("0010000000000000").unwrap(),
        Key::from_base3_str("0200000000000000").unwrap(),
    ];
    assert_eq!(got, want);
}

#[test]
fn clone_snapshots_a_trie() {
    let mut t = Merkle::new();
    t = insert(t, Timestamp::from_millis(5)).unwrap();
    let snapshot = t.clone();
    assert_eq!(snapshot, t);
    let grown = insert(t, Timestamp::from_millis(61_000)).unwrap();
    assert_ne!(snapshot, grown);
}
