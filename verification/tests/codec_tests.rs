use lsm_engine::kv::parse_records;
use lsm_engine::kv::render_records;
use lsm_engine::kv::KVPair;
use lsm_engine::kv::KvError;

#[test]
fn test_codec_round_trip_plain() {
    let kv = KVPair { key: "key1".to_owned(), value: "value1".to_owned() };
    let line = kv.encode();
    assert_eq!(line, "key1\tvalue1");
    let back = KVPair::decode(&line).unwrap();
    assert_eq!(back.key, "key1");
    assert_eq!(back.value, "value1");
}

#[test]
fn test_codec_round_trip_escapes() {
    let kv = KVPair {
        key: "ta\tb".to_owned(),
        value: "line1\nline2\\end".to_owned(),
    };
    let line = kv.encode();
    // the encoded line is newline-safe
    assert!(!line.contains('\n'));
    let back = KVPair::decode(&line).unwrap();
    assert_eq!(back.key, "ta\tb");
    assert_eq!(back.value, "line1\nline2\\end");
}

#[test]
fn test_codec_round_trip_empty_fields() {
    let kv = KVPair { key: "".to_owned(), value: "".to_owned() };
    let line = kv.encode();
    assert_eq!(line, "\t");
    let back = KVPair::decode(&line).unwrap();
    assert_eq!(back.key, "");
    assert_eq!(back.value, "");
}

#[test]
fn test_codec_rejects_malformed_lines() {
    // no separator at all
    assert_eq!(KVPair::decode("no separator").unwrap_err(), KvError::DecodeError);
    // a dangling escape at the end of the value
    assert_eq!(KVPair::decode("k\tv\\").unwrap_err(), KvError::DecodeError);
    // an unknown escape code
    assert_eq!(KVPair::decode("k\t\\x").unwrap_err(), KvError::DecodeError);
    // a raw newline inside a field
    assert_eq!(KVPair::decode("k\nk\tv").unwrap_err(), KvError::DecodeError);
}

#[test]
fn test_log_text_round_trip() {
    let records = vec![
        KVPair { key: "a".to_owned(), value: "1".to_owned() },
        KVPair { key: "with\ttab".to_owned(), value: "with\nnewline".to_owned() },
        KVPair { key: "z".to_owned(), value: "last".to_owned() },
    ];
    let text = render_records(&records);
    assert_eq!(text.lines().count(), 3);
    let back = parse_records(&text).unwrap();
    let pairs: Vec<_> = back.into_iter().map(|kv| (kv.key, kv.value)).collect();
    assert_eq!(
        pairs,
        vec![
            ("a".to_owned(), "1".to_owned()),
            ("with\ttab".to_owned(), "with\nnewline".to_owned()),
            ("z".to_owned(), "last".to_owned()),
        ]
    );
    // an unterminated trailing line is rejected
    assert!(parse_records("a\tb").is_err());
}
