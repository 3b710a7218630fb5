use lsm_engine::LSMBuilder;
use lsm_engine::LSMEngine;
use rand::seq::SliceRandom;
use rand::SeedableRng;
use rand::rngs::StdRng;
use std::collections::HashMap;

#[test]
fn lib_it_works() {
    let mut lsm = LSMBuilder::new()
        .persist_data(false)
        .segment_size(100)
        .sparse_offset(2)
        .inmemory_capacity(3)
        .build();
    lsm.write("k1".to_owned(), "v1".to_owned()).unwrap();
    lsm.write("k2".to_owned(), "v2".to_owned()).unwrap();
    lsm.write("k3".to_owned(), "v3".to_owned()).unwrap();

    for (k, v) in vec![("k1", "v1"), ("k2", "v2"), ("k3", "v3")] {
        assert_eq!(lsm.read(k).unwrap(), Some(v.to_owned()));
    }
}

#[test]
fn test_deletions() {
    let mut lsm = LSMBuilder::new()
        .persist_data(false)
        .segment_size(2)
        .inmemory_capacity(1)
        .sparse_offset(2)
        .build();
    lsm.write("k1".to_owned(), "v1".to_owned()).unwrap();
    lsm.write("k2".to_owned(), "v2".to_owned()).unwrap();
    lsm.delete("k1").unwrap();
    let value = lsm.read("k1").unwrap();
    assert!(value.is_none());
}

#[test]
fn test_reads_on_duplicate_keys() {
    let mut lsm = LSMBuilder::new()
        .persist_data(false)
        .segment_size(2)
        .inmemory_capacity(1)
        .sparse_offset(2)
        .build();

    lsm.write("k1".to_owned(), "v1".to_owned()).unwrap();
    lsm.write("k2".to_owned(), "k2".to_owned()).unwrap();
    lsm.write("k1".to_owned(), "v_1_1".to_owned()).unwrap();
    lsm.write("k3".to_owned(), "v3".to_owned()).unwrap();

    let value = lsm.read("k1").unwrap();
    assert_eq!(value, Some("v_1_1".to_owned()));
}

#[test]
fn test_on_large_dataset() {
    let mut lsm = LSMEngine::default();
    let dataset: Vec<_> = (0..5000)
        .map(|i| ("k".to_owned() + &i.to_string(), "v".to_owned() + &i.to_string()))
        .collect();
    let mut rng: StdRng = SeedableRng::seed_from_u64(20);
    let mut seen = HashMap::new();

    for (k, v) in dataset.iter() {
        lsm.write(k.clone(), v.clone()).unwrap();
        seen.insert(k, v.clone());

        let (random_key, _random_value) = dataset.choose(&mut rng).unwrap();
        let mut value = None;

        if seen.contains_key(random_key) {
            value = seen.get(random_key);
        }
        assert_eq!(lsm.read(random_key).unwrap().as_ref(), value);
    }
}

#[test]
fn test_recovery_with_wal() {
    let mut lsm = LSMBuilder::new().with_wal().build();
    let dataset: Vec<_> = (0..20)
        .map(|i| ("k".to_owned() + &i.to_string(), "v".to_owned() + &i.to_string()))
        .collect();

    for (key, v) in dataset.iter() {
        lsm.write(key.to_string(), v.to_string()).unwrap();
    }

    for i in 10..dataset.len() {
        let (k, _v) = &dataset[i];
        lsm.delete(k).unwrap();
    }

    let mut new_lsm = LSMBuilder::new().build();
    let wal = lsm.take_wal().unwrap();
    new_lsm.recover_from(wal).unwrap();
    for i in 0..10 {
        let (k, v) = &dataset[i];
        assert_eq!(new_lsm.read(k).unwrap(), Some(v.to_owned()));
    }

    for i in 10..dataset.len() {
        let (k, _v) = &dataset[i];
        assert_eq!(new_lsm.read(k).unwrap(), None);
    }
}

#[test]
fn test_contains() {
    let mut lsm = LSMBuilder::new().inmemory_capacity(1).build();
    lsm.write("k1".to_owned(), "v1".to_owned()).unwrap();
    lsm.delete("k1").unwrap();
    assert_eq!(lsm.contains("k1").unwrap(), false);
    assert_eq!(lsm.contains("k2").unwrap(), false);
}

#[test]
fn test_overwrite_then_delete_then_rewrite() {
    let mut lsm = LSMBuilder::new()
        .segment_size(3)
        .inmemory_capacity(2)
        .sparse_offset(1)
        .build();
    lsm.write("a".to_owned(), "1".to_owned()).unwrap();
    lsm.write("b".to_owned(), "2".to_owned()).unwrap();
    lsm.write("c".to_owned(), "3".to_owned()).unwrap();
    lsm.delete("b").unwrap();
    assert_eq!(lsm.read("b").unwrap(), None);
    lsm.write("b".to_owned(), "4".to_owned()).unwrap();
    assert_eq!(lsm.read("b").unwrap(), Some("4".to_owned()));
    assert_eq!(lsm.read("a").unwrap(), Some("1".to_owned()));
    assert_eq!(lsm.read("c").unwrap(), Some("3".to_owned()));
    assert_eq!(lsm.read("zzz").unwrap(), None);
}

#[test]
fn test_wal_replay_after_deletes_and_overwrites() {
    let mut lsm = LSMBuilder::new()
        .segment_size(2)
        .inmemory_capacity(1)
        .sparse_offset(2)
        .with_wal()
        .build();
    lsm.write("x".to_owned(), "old".to_owned()).unwrap();
    lsm.write("x".to_owned(), "new".to_owned()).unwrap();
    lsm.write("y".to_owned(), "kept".to_owned()).unwrap();
    lsm.delete("y").unwrap();
    lsm.write("z".to_owned(), "z1".to_owned()).unwrap();

    let mut recovered = LSMBuilder::new().build();
    recovered.recover_from(lsm.take_wal().unwrap()).unwrap();
    assert_eq!(recovered.read("x").unwrap(), Some("new".to_owned()));
    assert_eq!(recovered.read("y").unwrap(), None);
    assert_eq!(recovered.read("z").unwrap(), Some("z1".to_owned()));
}

#[test]
fn test_update_at_capacity_does_not_flush() {
    // an update of a present key does not trigger a flush even when
    // the memtable is full
    let mut lsm = LSMBuilder::new()
        .segment_size(2)
        .inmemory_capacity(1)
        .sparse_offset(2)
        .build();
    lsm.write("k1".to_owned(), "v1".to_owned()).unwrap();
    lsm.write("k1".to_owned(), "v1b".to_owned()).unwrap();
    lsm.write("k1".to_owned(), "v1c".to_owned()).unwrap();
    assert_eq!(lsm.read("k1").unwrap(), Some("v1c".to_owned()));
    lsm.write("k2".to_owned(), "v2".to_owned()).unwrap();
    assert_eq!(lsm.read("k1").unwrap(), Some("v1c".to_owned()));
    assert_eq!(lsm.read("k2").unwrap(), Some("v2".to_owned()));
}
