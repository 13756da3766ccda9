use dash_index::hashing::{calculate_hash, meta_hash};
use dash_index::pair::Key;
use dash_index::table::{Table, TableError};
use dash_index::{K_MASK, K_NUM_BUCKET, K_STASH_BUCKET};

#[test]
fn test_new_table() {
    let table = Table::new(0);
    assert_eq!(table.bucket.len(), K_NUM_BUCKET + K_STASH_BUCKET);
    assert_eq!(table.local_depth, 0);
    assert_eq!(table.pattern, 0);
    assert_eq!(table.number, 0);
}

#[test]
fn test_acquire_locks() {
    let mut table = Table::new(0);
    table.acquire_locks();
    assert_eq!(
        table.bucket[0..K_NUM_BUCKET].iter().map(|item| item.is_lock()).all(|x| x),
        true
    );
    table.release_locks();
    assert_eq!(
        table.bucket[0..K_NUM_BUCKET].iter().map(|item| item.is_lock()).all(|x| !x),
        true
    );
}

#[test]
fn test_insert_basic() {
    let mut table = Table::new(0);
    let key = Key::new(10);
    let value = String::from("Hello World");
    let hash = calculate_hash(&key.key);
    let res = table.insert(key, value.into_bytes(), hash, meta_hash(hash));
    assert_eq!(res.unwrap(), 0);
}

#[test]
fn test_insert_for_all_buckets() {
    let mut table = Table::new(0);
    let value = String::from("Hello World");
    let mut counts = [0u32; 5];
    let mut failed_count = 0;
    for i in 13000u64..14500 {
        let key = Key::new(i);
        let hash = calculate_hash(&key.key);
        let meta_hash = (hash & K_MASK) as u8;
        let res = table.insert(key, value.clone().into_bytes(), hash, meta_hash);
        match res {
            Ok(ans) => counts[ans as usize] += 1,
            Err(_) => failed_count += 1,
        }
    }
    println!(
        "target: {} \n neighbor: {} \n next: {} \n prev: {} \n stash:{} \n failed-count: {}",
        counts[0], counts[1], counts[2], counts[3], counts[4], failed_count
    );
}

#[test]
fn test_search_for_all_buckets() {
    let mut table = Table::new(0);
    let value = String::from("Hello World");
    let mut inserted = std::collections::HashSet::new();
    for i in 13000u64..14500 {
        let key = Key::new(i);
        let hash = calculate_hash(&key.key);
        let meta_hash = (hash & K_MASK) as u8;
        let res = table.insert(key, value.clone().into_bytes(), hash, meta_hash);
        if res.is_ok() {
            inserted.insert(i);
        }
    }
    for i in 13000u64..14500 {
        let key = Key::new(i);
        let hash = calculate_hash(&key.key);
        let meta_hash = (hash & K_MASK) as u8;
        if inserted.contains(&i) {
            assert!(table.search(&key, hash, meta_hash).is_some());
        } else {
            assert!(table.search(&key, hash, meta_hash).is_none());
        }
    }
}

#[test]
fn test_delete_for_all_buckets() {
    let mut table = Table::new(0);
    let value = String::from("Hello World");
    let mut inserted = Vec::new();
    for i in 13000u64..14500 {
        let key = Key::new(i);
        let hash = calculate_hash(&key.key);
        let meta_hash = (hash & K_MASK) as u8;
        let res = table.insert(key, value.clone().into_bytes(), hash, meta_hash);
        if res.is_ok() {
            inserted.push(i);
        }
    }
    for i in 0..(inserted.len() / 2) {
        let key = Key::new(inserted[i]);
        let hash = calculate_hash(&key.key);
        let meta_hash = (hash & K_MASK) as u8;
        assert!(table.delete(&key, hash, meta_hash).is_ok());
        assert!(table.search(&key, hash, meta_hash).is_none());
    }
    for i in (inserted.len() / 2)..inserted.len() {
        let key = Key::new(inserted[i]);
        let hash = calculate_hash(&key.key);
        let meta_hash = (hash & K_MASK) as u8;
        assert!(table.search(&key, hash, meta_hash).is_some());
    }
}

#[test]
fn fill_then_read_uses_every_placement() {
    let mut table = Table::new(0);
    let mut counts = [0u32; 5];
    let mut full = 0;
    let mut inserted = Vec::new();
    for i in 13000u64..14500 {
        let key = Key::new(i);
        let hash = calculate_hash(&key.key);
        match table.insert(key, b"Hello World".to_vec(), hash, meta_hash(hash)) {
            Ok(ans) => {
                counts[ans as usize] += 1;
                inserted.push(i);
            }
            Err(TableError::TableFull) => full += 1,
            Err(e) => panic!("unexpected error {:?}", e),
        }
    }
    assert!(counts.iter().all(|&c| c > 0), "placements {:?}", counts);
    assert!(full > 0);
    assert_eq!(inserted.len() + full, 1500);
    for i in inserted {
        let key = Key::new(i);
        let hash = calculate_hash(&key.key);
        assert_eq!(table.search(&key, hash, meta_hash(hash)), Some(b"Hello World".to_vec()));
    }
}

#[test]
fn duplicate_key_in_segment() {
    let mut table = Table::new(0);
    let key = Key::new(7);
    let hash = calculate_hash(&7);
    assert!(table.insert(Key::new(7), b"1".to_vec(), hash, meta_hash(hash)).is_ok());
    assert!(matches!(table.insert(Key::new(7), b"2".to_vec(), hash, meta_hash(hash)), Err(TableError::KeyExists)));
    assert_eq!(table.search(&key, hash, meta_hash(hash)), Some(b"1".to_vec()));
}

#[test]
fn delete_missing_key_in_segment() {
    let mut table = Table::new(0);
    let key = Key::new(99);
    let hash = calculate_hash(&99);
    assert_eq!(table.delete(&key, hash, meta_hash(hash)), Err(dash_index::bucket::BucketError::ItemDoesntExist));
}

#[test]
fn split_preserves_pairs() {
    let mut table = Table::new(0);
    let mut inserted = Vec::new();
    for i in 0u64..600 {
        let hash = calculate_hash(&i);
        if table.insert(Key::new(i), i.to_le_bytes().to_vec(), hash, meta_hash(hash)).is_ok() {
            inserted.push(i);
        }
    }
    table.acquire_locks();
    let sibling = table.split().ok().unwrap();
    table.release_locks();
    assert_eq!(table.local_depth, 1);
    assert_eq!(sibling.local_depth, 1);
    assert_eq!(table.pattern, 0);
    assert_eq!(sibling.pattern, 1);
    let mut moved = 0;
    for i in inserted {
        let key = Key::new(i);
        let hash = calculate_hash(&i);
        let mh = meta_hash(hash);
        let here = table.search(&key, hash, mh);
        let there = sibling.search(&key, hash, mh);
        assert!(here.is_some() != there.is_some());
        if hash >> 63 == 1 {
            moved += 1;
            assert_eq!(there, Some(i.to_le_bytes().to_vec()));
        } else {
            assert_eq!(here, Some(i.to_le_bytes().to_vec()));
        }
    }
    assert!(moved > 0);
}

#[test]
fn one_bucket_pair_fills_then_splits() {
    let home = |k: u64| (calculate_hash(&k) >> 8) & 63;
    let keys: Vec<u64> = (0u64..200000).filter(|&k| home(k) == 17).take(120).collect();
    let mut table = Table::new(0);
    let mut codes = Vec::new();
    for &k in &keys {
        let hash = calculate_hash(&k);
        match table.insert(Key::new(k), k.to_le_bytes().to_vec(), hash, meta_hash(hash)) {
            Ok(code) => codes.push(code),
            Err(TableError::TableFull) => break,
            Err(e) => panic!("unexpected error {:?}", e),
        }
    }
    // the home bucket and its neighbour take 28 items, the two stash buckets
    // 28 more; nothing can be displaced since every item shares the home
    assert_eq!(codes.len(), 56);
    assert!(codes[..28].iter().all(|&c| c == 0 || c == 1));
    assert!(codes[28..].iter().all(|&c| c == 4));
    for (i, &k) in keys[..codes.len()].iter().enumerate() {
        let hash = calculate_hash(&k);
        assert_eq!(table.search(&Key::new(k), hash, meta_hash(hash)), Some(k.to_le_bytes().to_vec()), "key {}", i);
    }
    let mut index = dash_index::index::ExtendableHashing::new(1);
    for &k in &keys {
        assert_eq!(index.insert(Key::new(k), k.to_le_bytes().to_vec()), Ok(()));
    }
    for &k in &keys {
        assert_eq!(index.get(&Key::new(k)), Some(k.to_le_bytes().to_vec()));
    }
}
