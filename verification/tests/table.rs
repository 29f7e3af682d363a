use elastic_hash::{ElasticHashTable, Error, PROBE_LIMIT};

/// The bucket in which an insertion of `key` must end, worked out from the
/// probe sequences and the buckets alone: `Ok` with the first empty bucket
/// on the walk, or the error that the walk runs into.
fn expected_landing(table: &ElasticHashTable<String, u32>, key: &String) -> Result<usize, Error> {
    for round in 0..table.arrays().len() {
        for probe in table.probe_sequence(key, round) {
            match &table.buckets()[probe] {
                None => return Ok(probe),
                Some((stored, _)) if stored == key => return Err(Error::KeyAlreadyInserted),
                Some(_) => {}
            }
        }
    }
    Err(Error::TableFull)
}

fn filled(table: &ElasticHashTable<String, u32>) -> usize {
    table.buckets().iter().filter(|bucket| bucket.is_some()).count()
}

#[test]
fn it_works() {
    let mut hash_table = ElasticHashTable::<&str, &str>::new(16);

    assert!(hash_table.insert("key1", "value1").is_ok(), "Failed to insert key1");
    assert!(hash_table.insert("key2", "value2").is_ok(), "Failed to insert key2");
    assert!(hash_table.insert("key3", "value3").is_ok(), "Failed to insert key3");

    assert_eq!("[None, None, None, None, None, Some((\"key1\", \"value1\")), None, None, None, None, Some((\"key3\", \"value3\")), None, Some((\"key2\", \"value2\")), None, None, None]", format!("{:?}", hash_table.buckets()));

    assert_eq!(Some(&"value1"), hash_table.get(&"key1"));
    assert_eq!(Some(&"value2"), hash_table.get(&"key2"));
    assert_eq!(Some(&"value3"), hash_table.get(&"key3"));
    assert_eq!(None, hash_table.get(&"key4"));
}

#[test]
fn new_table_is_empty() {
    let table = ElasticHashTable::<&str, u32>::new(16);
    assert_eq!(table.size(), 16);
    assert_eq!(table.buckets().len(), 16);
    assert!(table.buckets().iter().all(|bucket| bucket.is_none()));
    assert_eq!(table.arrays(), &vec![8, 4, 2, 1]);
    assert_eq!(table.get(&"key1"), None);
}

#[test]
fn insert_fills_exactly_one_bucket() {
    let mut table = ElasticHashTable::<&str, u32>::new(16);
    assert_eq!(table.insert("key1", 7), Ok(()));
    let taken: Vec<usize> = (0..16).filter(|&at| table.buckets()[at].is_some()).collect();
    assert_eq!(taken, vec![5]);
    assert_eq!(table.buckets()[5], Some(("key1", 7)));
    assert_eq!(table.size(), 16);
    assert_eq!(table.arrays(), &vec![8, 4, 2, 1]);
}

#[test]
fn inserted_keys_land_on_their_first_free_probe() {
    let mut table = ElasticHashTable::<&str, u32>::new(16);
    for (key, value) in [("key1", 1), ("key2", 2), ("key3", 3)] {
        let first = table.probe_sequence(&key, 0)[0];
        assert_eq!(table.insert(key, value), Ok(()));
        assert_eq!(table.buckets()[first], Some((key, value)));
    }
}

#[test]
fn lookup_agrees_with_insert() {
    let mut table = ElasticHashTable::<String, u32>::new(64);
    let mut stored: Vec<(String, u32)> = Vec::new();
    for number in 0..48u32 {
        let key = format!("k{}", number);
        if table.insert(key.clone(), number * 3).is_ok() {
            assert_eq!(table.get(&key), Some(&(number * 3)));
            stored.push((key, number * 3));
        }
        for (earlier, value) in &stored {
            assert_eq!(table.get(earlier), Some(value));
        }
    }
    assert!(stored.len() >= 40);
    assert_eq!(table.get(&"never".to_string()), None);
}

#[test]
fn duplicate_key_is_rejected_and_value_kept() {
    let mut table = ElasticHashTable::<&str, &str>::new(16);
    assert_eq!(table.insert("key1", "value1"), Ok(()));
    let before = format!("{:?}", table.buckets());
    assert_eq!(table.insert("key1", "other"), Err(Error::KeyAlreadyInserted));
    assert_eq!(format!("{:?}", table.buckets()), before);
    assert_eq!(table.get(&"key1"), Some(&"value1"));
    assert_eq!(table.insert("key1", "value1"), Err(Error::KeyAlreadyInserted));
    assert_eq!(table.get(&"key1"), Some(&"value1"));
}

#[test]
fn table_of_one_bucket_takes_one_pair() {
    let mut table = ElasticHashTable::<&str, u32>::new(1);
    assert_eq!(table.arrays(), &vec![1]);
    assert_eq!(table.get(&"a"), None);
    assert_eq!(table.insert("a", 1), Ok(()));
    assert_eq!(table.insert("b", 2), Err(Error::TableFull));
    assert_eq!(table.insert("a", 3), Err(Error::KeyAlreadyInserted));
    assert_eq!(table.insert("c", 4), Err(Error::TableFull));
    assert_eq!(table.buckets(), &vec![Some(("a", 1))]);
    assert_eq!(table.get(&"a"), Some(&1));
    assert_eq!(table.get(&"b"), None);
}

#[test]
fn full_walk_is_rejected_and_changes_nothing() {
    let mut table = ElasticHashTable::<String, u32>::new(2);
    assert_eq!(table.insert("k0".to_string(), 0), Ok(()));
    assert_eq!(table.insert("k1".to_string(), 1), Ok(()));
    assert_eq!(
        table.buckets(),
        &vec![Some(("k0".to_string(), 0)), Some(("k1".to_string(), 1))]
    );
    let fresh = "k2".to_string();
    for round in 0..table.arrays().len() {
        for probe in table.probe_sequence(&fresh, round) {
            assert!(table.buckets()[probe].is_some());
        }
    }
    assert_eq!(table.insert(fresh.clone(), 2), Err(Error::TableFull));
    assert_eq!(
        table.buckets(),
        &vec![Some(("k0".to_string(), 0)), Some(("k1".to_string(), 1))]
    );
    assert_eq!(table.get(&fresh), None);
    assert_eq!(table.get(&"k0".to_string()), Some(&0));
    assert_eq!(table.get(&"k1".to_string()), Some(&1));
}

#[test]
fn table_can_be_full_for_a_key_while_a_bucket_is_empty() {
    let mut table = ElasticHashTable::<String, u32>::new(32);
    for number in 0..31u32 {
        let _ = table.insert(format!("a{}", number), number);
    }
    assert_eq!(filled(&table), 31);
    let key = "a31".to_string();
    let before = format!("{:?}", table.buckets());
    assert_eq!(table.insert(key.clone(), 31), Err(Error::TableFull));
    assert_eq!(format!("{:?}", table.buckets()), before);
    assert_eq!(filled(&table), 31);
    assert_eq!(table.get(&key), None);
}

#[test]
fn later_sub_array_is_tried_when_the_first_is_taken() {
    let mut table = ElasticHashTable::<String, u32>::new(32);
    for number in 0..27u32 {
        let _ = table.insert(format!("k{}", number), number);
    }
    let key = "k27".to_string();
    assert!(table.probe_sequence(&key, 0).iter().all(|&probe| table.buckets()[probe].is_some()));
    let landing = expected_landing(&table, &key).unwrap();
    assert_eq!(table.insert(key.clone(), 27), Ok(()));
    assert_eq!(table.buckets()[landing], Some((key.clone(), 27)));
    assert_eq!(table.get(&key), Some(&27));
}

#[test]
fn every_insert_follows_the_walk() {
    for size in [1usize, 2, 3, 8, 16, 32, 64] {
        let mut table = ElasticHashTable::<String, u32>::new(size);
        let mut full = 0;
        for number in 0..(3 * size as u32) {
            let key = format!("b{}", number % (2 * size as u32));
            let expected = expected_landing(&table, &key);
            let before = table.buckets().clone();
            let result = table.insert(key.clone(), number);
            match expected {
                Ok(at) => {
                    assert_eq!(result, Ok(()));
                    for other in 0..size {
                        if other == at {
                            assert_eq!(table.buckets()[other], Some((key.clone(), number)));
                        } else {
                            assert_eq!(table.buckets()[other], before[other]);
                        }
                    }
                }
                Err(error) => {
                    assert_eq!(result, Err(error));
                    assert_eq!(table.buckets(), &before);
                    if error == Error::TableFull {
                        full += 1;
                    }
                }
            }
        }
        assert!(full > 0);
    }
}

#[test]
fn layout_is_the_same_on_every_run() {
    let mut first = ElasticHashTable::<&str, &str>::new(16);
    let mut second = ElasticHashTable::<&str, &str>::new(16);
    for (key, value) in [("key1", "value1"), ("key2", "value2"), ("key3", "value3")] {
        assert_eq!(first.insert(key, value), Ok(()));
        assert_eq!(second.insert(key, value), Ok(()));
    }
    assert_eq!(first.buckets(), second.buckets());
    let taken: Vec<usize> = (0..16).filter(|&at| first.buckets()[at].is_some()).collect();
    assert_eq!(taken, vec![5, 10, 12]);
}

#[test]
fn owned_and_borrowed_strings_share_a_layout() {
    let mut borrowed = ElasticHashTable::<&str, u32>::new(16);
    let mut owned = ElasticHashTable::<String, u32>::new(16);
    for (key, value) in [("key1", 1), ("key2", 2), ("key3", 3)] {
        assert_eq!(borrowed.insert(key, value), Ok(()));
        assert_eq!(owned.insert(key.to_string(), value), Ok(()));
    }
    for at in 0..16 {
        assert_eq!(
            borrowed.buckets()[at].map(|(key, value)| (key.to_string(), value)),
            owned.buckets()[at]
        );
    }
}

#[test]
fn walk_has_one_probe_sequence_per_sub_array() {
    let table = ElasticHashTable::<&str, u32>::new(16);
    let rounds = table.arrays().len();
    assert_eq!(rounds, 4);
    for round in 0..rounds {
        assert_eq!(table.probe_sequence(&"key1", round).len(), PROBE_LIMIT);
    }
}
