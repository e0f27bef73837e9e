use std::io::Cursor;

use merkle_clock::Timestamp;

#[test]
fn canonical_string_exact() {
    let ts = Timestamp {
        millis: 5,
        counter: 10,
        node: String::from("abc"),
    };
    assert_eq!(
        ts.canonical_string(),
        "1970-01-01T00:00:00.005+00:00-000A-0000000000000abc"
    );
}

#[test]
fn canonical_string_whole_minute() {
    let ts = Timestamp::from_millis(10 * 60 * 1000);
    assert_eq!(
        ts.canonical_string(),
        "1970-01-01T00:10:00+00:00-0000-0000000000000000"
    );
}

#[test]
fn canonical_string_wide_counter_and_node() {
    let ts = Timestamp {
        millis: 0,
        counter: 0x12ABC,
        node: String::from("a-node-name-of-17"),
    };
    // A counter over four hex digits and a node over sixteen characters are
    // kept whole, not truncated.
    assert_eq!(
        ts.canonical_string(),
        "1970-01-01T00:00:00+00:00-12ABC-a-node-name-of-17"
    );
}

#[test]
fn hash_matches_an_independent_murmur3() {
    let ts = Timestamp {
        millis: 987_654_321,
        counter: 7,
        node: String::from("replica-9"),
    };
    let canonical = ts.canonical_string();
    let independent = murmur3::murmur3_32(&mut Cursor::new(canonical.as_bytes()), 0).unwrap();
    assert_eq!(ts.hash(), independent);
}

#[test]
fn from_millis_zeroes_counter_and_node() {
    let ts = Timestamp::from_millis(42);
    assert_eq!(ts.millis, 42);
    assert_eq!(ts.counter, 0);
    assert_eq!(ts.node, String::new());
}
