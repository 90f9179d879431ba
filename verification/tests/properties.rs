use mfhash::MFHash;
use mfhash::MFHashError;
use mfhash::mkfs;
use mfhash::similarity;

#[test]
fn build_zero_yields_empty() {
    let fp: MFHash = MFHash::new("research", 0);
    assert_eq!(fp.entries().len(), 0);
    assert_eq!(fp.requested_size(), 0);
    assert_eq!(fp.to_string(), "");
}

#[test]
fn build_empty_source() {
    let fp: MFHash = MFHash::new("", 5);
    assert_eq!(fp.entries().len(), 0);
    assert_eq!(fp.requested_size(), 5);
    assert_eq!(fp.to_string(), "");
}

#[test]
fn build_full_length_covers_distinct_chars() {
    let fp: MFHash = MFHash::new("research", 10);
    assert_eq!(fp.entries().len(), 6);

    let fp2: MFHash = MFHash::new("aaaa", 3);
    assert_eq!(fp2.entries().len(), 1);
}

#[test]
fn build_records_requested_size_not_length() {
    let fp: MFHash = MFHash::new("a", 2);
    assert_eq!(fp.requested_size(), 2);
    assert_eq!(fp.entries().len(), 1);
    assert_eq!(fp.entries()[0], ('a', 1));
}

#[test]
fn build_tie_break_keeps_first_seen_order() {
    let fp: MFHash = MFHash::new("nicht", 2);
    assert_eq!(fp.to_string(), "n1i1");

    let fp2: MFHash = MFHash::new("my", 2);
    assert_eq!(fp2.to_string(), "m1y1");
}

#[test]
fn score_is_symmetric() {
    let a: MFHash = MFHash::new("significant", 2);
    let b: MFHash = MFHash::new("capabilities", 2);
    assert_eq!(similarity(&a, &b), similarity(&b, &a));

    let c: MFHash = MFHash::decode("L9T8").unwrap();
    let d: MFHash = MFHash::decode("F9L8").unwrap();
    assert_eq!(similarity(&c, &d), similarity(&d, &c));
}

#[test]
fn score_of_fingerprint_with_itself_is_sum_of_counts() {
    let fp: MFHash = MFHash::new("research", 2);
    assert_eq!(similarity(&fp, &fp), 4);

    let fp2: MFHash = MFHash::new("aaaaabbbb", 2);
    assert_eq!(similarity(&fp2, &fp2), 9);
}

#[test]
fn round_trip_decode_of_encode() {
    let fp: MFHash = MFHash::new("aaaaabbbb", 2);
    let text: String = fp.encode().unwrap();
    assert_eq!(text, "a5b4");
    let back: MFHash = MFHash::decode(&text).unwrap();
    assert_eq!(back.entries(), fp.entries());
    assert_eq!(back.requested_size(), 2);
}

#[test]
fn encode_rejects_two_digit_counts() {
    let fp: MFHash = MFHash::new("aaaaaaaaaaa", 1);
    assert_eq!(fp.entries()[0], ('a', 11));
    assert_eq!(fp.encode(), Err(MFHashError::EncodingOverflow { index: 0 }));
}

#[test]
fn encode_accepts_single_digit_counts() {
    let fp: MFHash = MFHash::new("research", 2);
    assert_eq!(fp.encode(), Ok(String::from("r2e2")));
}

#[test]
fn decode_rejects_odd_length() {
    assert_eq!(
        MFHash::decode("r2e").unwrap_err(),
        MFHashError::MalformedInput { chunk: 1 }
    );
}

#[test]
fn decode_rejects_non_digit_count() {
    assert_eq!(
        MFHash::decode("rx").unwrap_err(),
        MFHashError::MalformedInput { chunk: 0 }
    );
    assert_eq!(
        MFHash::decode("r2ex").unwrap_err(),
        MFHashError::MalformedInput { chunk: 1 }
    );
}

#[test]
fn decode_is_structural() {
    let fp: MFHash = MFHash::decode("e2s1").unwrap();
    assert_eq!(fp.entries().as_slice(), &[('e', 2), ('s', 1)]);
    assert_eq!(fp.requested_size(), 2);

    let dup: MFHash = MFHash::decode("a1a1").unwrap();
    assert_eq!(dup.entries().as_slice(), &[('a', 1), ('a', 1)]);

    let unsorted: MFHash = MFHash::decode("a1b9").unwrap();
    assert_eq!(unsorted.entries().as_slice(), &[('a', 1), ('b', 9)]);
}

#[test]
fn cap_below_score_saturates_at_zero() {
    let score: u32 = mkfs("research", "research", 2, None);
    assert_eq!(score, 4);
    assert_eq!(mkfs("research", "research", 2, Some(3)), 0);
    assert_eq!(mkfs("research", "research", 2, Some(4)), 0);
}
