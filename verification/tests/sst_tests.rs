use lsm_engine::kv::KVPair;
use lsm_engine::sst::merge;
use lsm_engine::sst::Segment;

#[test]
fn test_search() {
    let mut sst = Segment::temp();
    sst.write(KVPair { key: "k1".to_owned(), value: "v1".to_owned() }).unwrap();
    sst.write(KVPair { key: "k2".to_owned(), value: "v2".to_owned() }).unwrap();
    assert_eq!(Some("v2".to_owned()), sst.search_from_start("k2").unwrap());
}

#[test]
fn test_seek() {
    let mut sst = Segment::temp();
    let first_offset = sst.write(KVPair { key: "k1".to_owned(), value: "v1".to_owned() }).unwrap();
    let second_offset = sst.write(KVPair { key: "k2".to_owned(), value: "v2".to_owned() }).unwrap();
    sst.write(KVPair { key: "k3".to_owned(), value: "v3".to_owned() }).unwrap();

    sst.seek(first_offset).unwrap();
    let first = sst.read().into_iter().take(1).last();
    assert_eq!(Some("v1".to_owned()), first.map(|x| x.value));

    sst.seek(second_offset).unwrap();
    let first = sst.read().into_iter().take(1).last();
    assert_eq!(Some("v2".to_owned()), first.map(|x| x.value));
}

#[test]
fn test_read() {
    let mut sst = Segment::temp();
    sst.write(KVPair { key: "k1".to_owned(), value: "v1".to_owned() }).unwrap();
    sst.write(KVPair { key: "k2".to_owned(), value: "v2".to_owned() }).unwrap();
    let records = sst.read_from_start().unwrap();
    let mut iterator = records.into_iter();

    let first = iterator.next();
    assert_eq!(Some("v1".to_owned()), first.map(|kv| kv.value));

    let second = iterator.next();
    assert_eq!(Some("v2".to_owned()), second.map(|kv| kv.value));
    assert_eq!(None, iterator.next().map(|kv| kv.value));
}

#[test]
fn test_interspersed_seek_and_search() {
    let mut sst = Segment::temp();
    let first_offset = sst.write(KVPair { key: "k1".to_owned(), value: "v1".to_owned() }).unwrap();
    sst.write(KVPair { key: "k2".to_owned(), value: "v2".to_owned() }).unwrap();
    let value_v1 = sst.at(first_offset).unwrap();
    let value = sst.search_from_start("k2").unwrap();

    assert_eq!(value, Some("v2".to_owned()));
    assert_eq!(value_v1, Some("v1".to_owned()));

    sst.write(KVPair { key: "k3".to_owned(), value: "v3".to_owned() }).unwrap();
    for k in vec!["k1", "k2", "k3"] {
        assert!(sst.search_from_start(k).unwrap().is_some());
    }
}

#[test]
fn test_search_range() {
    let mut sst = Segment::temp();
    let _offset_1 = sst.write(KVPair { key: "k1".to_owned(), value: "v1".to_owned() }).unwrap();
    let offset_2 = sst.write(KVPair { key: "k2".to_owned(), value: "v2".to_owned() }).unwrap();
    sst.write(KVPair { key: "k3".to_owned(), value: "v3".to_owned() }).unwrap();

    for key in vec!["k2", "k3"] {
        assert!(sst.search_from(key, offset_2).unwrap().is_some());
    }
    assert!(sst.search_from("k1", offset_2).unwrap().is_none());
}

#[test]
fn test_unsorted_writes() {
    let mut sst = Segment::temp();
    sst.write(KVPair { key: "k2".to_owned(), value: "v2".to_owned() }).unwrap();
    let result = sst.write(KVPair { key: "k1".to_owned(), value: "v1".to_owned() });
    assert!(result.is_err());
}

#[test]
fn test_merges() {
    let mut sst_1 = Segment::temp();
    sst_1.write(KVPair { key: "k1".to_owned(), value: "v1".to_owned() }).unwrap();
    let mut sst_2 = Segment::temp();
    sst_2.write(KVPair { key: "k2".to_owned(), value: "v2".to_owned() }).unwrap();
    let v = vec![sst_1, sst_2];
    let mut merged = merge(v, 20).unwrap();
    assert_eq!(merged.len(), 1);
    let mut segment = merged.pop().unwrap();
    let pairs: Vec<_> = segment
        .read_from_start()
        .unwrap()
        .into_iter()
        .map(|kv| (kv.key, kv.value))
        .collect();

    assert_eq!(
        pairs,
        vec![
            ("k1".to_owned(), "v1".to_owned()),
            ("k2".to_owned(), "v2".to_owned())
        ]
    );
}

#[test]
fn test_merge_with_same_keys_different_timestamps() {
    let mut sst_1 = Segment::temp();
    let mut sst_2 = Segment::temp();
    sst_1.write(KVPair { key: "k1".to_owned(), value: "v1".to_owned() }).unwrap();
    sst_2.write(KVPair { key: "k1".to_owned(), value: "v2".to_owned() }).unwrap();
    let v = vec![sst_1, sst_2];
    let mut merged = merge(v, 100).unwrap();
    let expected = vec![("k1".to_owned(), "v2".to_owned())];
    let actual: Vec<_> = merged[0]
        .read_from_start()
        .unwrap()
        .into_iter()
        .map(|kv| (kv.key, kv.value))
        .collect();
    assert_eq!(expected, actual);
}

#[test]
fn test_merge_splits_into_bounded_segments() {
    let mut sst_1 = Segment::temp();
    for k in ["a", "c", "e", "g"] {
        sst_1.write(KVPair { key: k.to_owned(), value: format!("old-{}", k) }).unwrap();
    }
    let mut sst_2 = Segment::temp();
    for k in ["b", "c", "f"] {
        sst_2.write(KVPair { key: k.to_owned(), value: format!("new-{}", k) }).unwrap();
    }
    let merged = merge(vec![sst_1, sst_2], 2).unwrap();
    // six distinct keys in segments of two records each
    assert_eq!(merged.len(), 3);
    let mut all = Vec::new();
    for mut seg in merged {
        let recs = seg.read_from_start().unwrap();
        assert!(recs.len() <= 2);
        for kv in recs {
            all.push((kv.key, kv.value));
        }
    }
    assert_eq!(
        all,
        vec![
            ("a".to_owned(), "old-a".to_owned()),
            ("b".to_owned(), "new-b".to_owned()),
            ("c".to_owned(), "new-c".to_owned()),
            ("e".to_owned(), "old-e".to_owned()),
            ("f".to_owned(), "new-f".to_owned()),
            ("g".to_owned(), "old-g".to_owned()),
        ]
    );
}

#[test]
fn test_segment_records_stay_sorted() {
    let mut sst = Segment::temp();
    for k in ["a", "b", "b", "d"] {
        sst.write(KVPair { key: k.to_owned(), value: "v".to_owned() }).unwrap();
    }
    let recs = sst.read_from_start().unwrap();
    let keys: Vec<_> = recs.iter().map(|kv| kv.key.clone()).collect();
    let mut sorted = keys.clone();
    sorted.sort();
    assert_eq!(keys, sorted);
}

#[test]
fn test_unsorted_write_message_names_both_keys() {
    let mut sst = Segment::temp();
    sst.write(KVPair { key: "k2".to_owned(), value: "v2".to_owned() }).unwrap();
    let err = sst
        .write(KVPair { key: "k1".to_owned(), value: "v1".to_owned() })
        .unwrap_err();
    assert_eq!(err.message(), "Attempted to write k1 but previous key is k2");
}
