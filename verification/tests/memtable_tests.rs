use lsm_engine::memtable::Memtable;

#[test]
fn memtable_it_works() {
    let mut memtable = Memtable::new(5);
    memtable.insert("k1".to_owned(), "v1");
}

#[test]
fn test_memtable_drains_sorted_and_empties() {
    let mut memtable = Memtable::new(3);
    memtable.insert("b".to_owned(), "2".to_owned());
    memtable.insert("c".to_owned(), "3".to_owned());
    memtable.insert("a".to_owned(), "1".to_owned());
    memtable.insert("b".to_owned(), "2b".to_owned());
    assert!(memtable.at_capacity());
    assert_eq!(memtable.get("b"), Some(&"2b".to_owned()));
    assert!(memtable.contains("a"));
    let drained = memtable.drain();
    assert_eq!(
        drained,
        vec![
            ("a".to_owned(), "1".to_owned()),
            ("b".to_owned(), "2b".to_owned()),
            ("c".to_owned(), "3".to_owned()),
        ]
    );
    assert!(!memtable.contains("a"));
    assert!(!memtable.at_capacity());
    memtable.insert("z".to_owned(), "26".to_owned());
    assert_eq!(memtable.get("z"), Some(&"26".to_owned()));
    memtable.clear();
    assert!(!memtable.contains("z"));
}
