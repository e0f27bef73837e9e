use merkle_clock::CodecError;
use merkle_clock::Key;
use merkle_clock::Timestamp;

#[test]
fn key_pop_front() {
    // The digit 3 is outside the base-3 alphabet, so the codec refuses to
    // build a key from "123": no malformed key can ever reach the trie.
    let got = Key::from_base3_str("123");
    let want = Err(CodecError::MalformedKey);
    assert_eq!(got, want);
}

#[test]
fn pop_front_is_most_significant_first() {
    let mut key = Key::from_base3_str("1202101210201120").unwrap();
    assert_eq!(key.pop_front(), Some(1));
    assert_eq!(key.pop_front(), Some(2));
    assert_eq!(key.pop_front(), Some(0));
    assert_eq!(key.pop_front(), Some(2));
}

#[test]
fn pop_front_drains_padded_key() {
    // "101" is left-padded to 16 digits, so the padding zeros come out
    // first, then the significant digits, then nothing.
    let mut key = Key::from_base3_str("101").unwrap();
    let mut digits = Vec::new();
    while let Some(d) = key.pop_front() {
        digits.push(d);
    }
    assert_eq!(digits, vec![0, 0, 0, 0, 0, 0, 0, 0, 0, 0, 0, 0, 0, 1, 0, 1]);
    assert_eq!(key.pop_front(), None);
}

#[test]
fn ts_to_key() {
    let ts = Timestamp::from_millis(10 * 1000 * 60);
    let got = Key::from_millis(ts.millis).unwrap();
    let want = Key::from_base3_str("101").unwrap();
    assert_eq!(got, want);
}

#[test]
fn key_to_ts() {
    // Decoding recovers the start of the minute bucket: bucket 10 in base 3
    // is "101", and the bucket holds minute 10.
    let key = Key::from_base3_str("101").unwrap();
    let got = Timestamp::from_millis(key.to_millis());
    let want = Timestamp::from_millis(10 * 1000 * 60);
    assert_eq!(got, want);
}

#[test]
fn round_trip_is_minute_floor() {
    let millis: u64 = 123_456_789;
    let key = Key::from_millis(millis).unwrap();
    assert_eq!(key.to_millis(), (millis / 60000) * 60000);
}

#[test]
fn encode_always_yields_sixteen_base3_digits() {
    for millis in [0u64, 59_999, 60_000, 123_456_789, 2_582_803_259_999] {
        let mut key = Key::from_millis(millis).unwrap();
        let mut count: usize = 0;
        while let Some(d) = key.pop_front() {
            assert!(d < 3);
            count += 1;
        }
        assert_eq!(count, 16);
    }
}

#[test]
fn bucket_boundary() {
    // 59999 ms and 0 ms share minute bucket 0; 60000 ms starts bucket 1.
    assert_eq!(Key::from_millis(59999).unwrap(), Key::from_millis(0).unwrap());
    assert_ne!(Key::from_millis(59999).unwrap(), Key::from_millis(60000).unwrap());
    assert_eq!(Key::from_millis(59999).unwrap().to_millis(), 0);
    assert_eq!(Key::from_millis(60000).unwrap().to_millis(), 60000);
}

#[test]
fn encode_rejects_out_of_range_bucket() {
    let limit: u64 = 43_046_721 * 60000;
    assert!(Key::from_millis(limit - 1).is_ok());
    assert_eq!(Key::from_millis(limit), Err(CodecError::OutOfRange));
    assert_eq!(Key::from_millis(u64::MAX), Err(CodecError::OutOfRange));
}

#[test]
fn parse_rejects_overlong_string() {
    assert_eq!(
        Key::from_base3_str("00000000000000000"),
        Err(CodecError::MalformedKey)
    );
    assert!(Key::from_base3_str("0000000000000000").is_ok());
    assert!(Key::from_base3_str("").is_ok());
}
