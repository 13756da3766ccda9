use dash_index::bits::{check_bit, check_bit_32, get_bitmap, get_count, get_inverse_member, get_member};
use dash_index::bucket::{read_is_consistent, Bucket, BucketError};
use dash_index::hashing::{bucket_index, calculate_hash, meta_hash};
use dash_index::pair::{hash_key, var_compare, Key};

#[test]
fn test_bucket_insertion_with_fixed_keys() {
    let mut bucket = Bucket::new();
    let mut success = 0;
    let mut ans = vec![];
    for i in 10000u64..10020 {
        let string = String::from(format!("let hash = calculate_hash(&key) {}", i));
        let value = string.clone().into_bytes();
        let hash = calculate_hash(&i);
        let key = Key::new(i);
        let response = bucket.insert(key, value, meta_hash(hash), true);
        match response {
            Ok(_) => {
                success += 1;
                ans.push(i);
            }
            Err(err) => {
                println!("{:?}", err);
            }
        }
    }
    assert_eq!(success, 14);
    ans.push(500);
    for key_str in &ans {
        let mut vector = vec![];
        let hash = calculate_hash(key_str);
        let key = Key::new(*key_str);
        // entries were stored as hosted ones, so a lookup as owner finds none
        assert!(!bucket.check_and_get(hash as u8, &key, false, &mut vector));
        let found = bucket.check_and_get(meta_hash(hash), &key, true, &mut vector);
        assert_eq!(found, *key_str != 500);
    }
    let hash = calculate_hash(&ans[5]);
    let key = Key::new(ans[5]);
    assert!(bucket.delete(&key, meta_hash(hash), true).is_ok());
    let mut vector = vec![];
    assert!(!bucket.check_and_get(meta_hash(hash), &key, true, &mut vector));
    let delete = bucket.delete(&key, meta_hash(hash), true);
    assert_eq!(delete, Err(BucketError::ItemDoesntExist));
}

#[test]
fn test_bucket_insertion_with_variable_keys() {
    let mut bucket = Bucket::new();
    let mut ans: Vec<String> = vec![];
    for i in 10000..10020 {
        let key = String::from(format!("let hash = calculate_hash(&key) {}", i));
        let value = key.clone().into_bytes();
        let hash = hash_key(&Key::new_pointed(key.clone().into_bytes()));
        let response = bucket.insert(Key::new_pointed(key.clone().into_bytes()), value, meta_hash(hash), true);
        if response.is_ok() {
            ans.push(key);
        }
    }
    assert_eq!(ans.len(), 14);
    ans.push(String::from(format!("let hash = calculate_hash(&key) {}", 500)));
    for key_str in ans {
        let mut vector = vec![];
        let bytes = key_str.clone().into_bytes();
        let hash = hash_key(&Key::new_pointed(bytes.clone()));
        let key = Key::new_pointed(bytes.clone());
        let found = bucket.check_and_get(meta_hash(hash), &key, true, &mut vector);
        assert_eq!(found, !key_str.ends_with(" 500"));
        if found {
            assert_eq!(vector, bytes);
        }
    }
}

#[test]
fn full_bucket_rejects_insert() {
    let mut bucket = Bucket::new();
    for i in 0u64..14 {
        assert_eq!(bucket.insert(Key::new(i), vec![1], 3, false), Ok(i as i32));
    }
    assert_eq!(bucket.find_empty_slot(), -1);
    assert_eq!(bucket.insert(Key::new(99), vec![1], 3, false), Err(BucketError::BucketFull));
    assert_eq!(get_count(bucket.bitmap), 14);
}

#[test]
fn metadata_word_fields() {
    let mut bucket = Bucket::new();
    assert_eq!(bucket.insert(Key::new(1), vec![], 9, false), Ok(0));
    assert_eq!(bucket.insert(Key::new(2), vec![], 9, true), Ok(1));
    assert_eq!(get_count(bucket.bitmap), 2);
    assert_eq!(get_bitmap(bucket.bitmap), 0b11);
    assert_eq!(get_member(bucket.bitmap), 0b10);
    assert_eq!(get_inverse_member(bucket.bitmap), 0x3ffd);
    assert_eq!(bucket.bitmap, (0b11 << 18) | (0b10 << 4) | 2);
    assert_eq!(bucket.find_org_displacement(), 0);
    assert_eq!(bucket.find_probe_displacement(), 1);
    assert_eq!(bucket.find_empty_slot(), 2);
}

#[test]
fn bit_helpers() {
    assert!(check_bit(0b100, 2));
    assert!(!check_bit(0b100, 1));
    assert!(check_bit_32(1 << 31, 31));
    assert!(!check_bit_32(0, 0));
    assert_eq!(meta_hash(0x1234), 0x34);
    assert_eq!(bucket_index(0xab_cd, 8, 63), 0x2b);
    assert!(var_compare(&vec![1, 2, 3], 3, &vec![1, 2, 3], 3));
    assert!(!var_compare(&vec![1, 2, 3], 3, &vec![1, 2, 4], 3));
    assert!(!var_compare(&vec![1, 2], 2, &vec![1, 2, 3], 3));
}

#[test]
fn hashing_is_not_identity() {
    assert_ne!(calculate_hash(&5), 5);
    assert_eq!(calculate_hash(&5), calculate_hash(&5));
    assert_ne!(hash_key(&Key::new_pointed(b"foo".to_vec())), hash_key(&Key::new_pointed(b"fop".to_vec())));
    assert_eq!(hash_key(&Key::new(5)), calculate_hash(&5));
}

#[test]
fn version_lock_cycle() {
    let mut bucket = Bucket::new();
    assert!(!bucket.is_lock());
    assert!(bucket.try_get_lock());
    assert!(bucket.is_lock());
    assert!(!bucket.try_get_lock());
    bucket.release_lock();
    assert!(!bucket.is_lock());
    assert_eq!(bucket.version_lock, 1);
    bucket.get_lock();
    bucket.release_lock();
    assert_eq!(bucket.version_lock, 2);
    bucket.reset_lock();
    assert_eq!(bucket.version_lock, 0);
}

#[test]
fn overflow_indicators() {
    let mut target = Bucket::new();
    let mut neighbor = Bucket::new();
    assert!(!target.test_stash_check());
    for _ in 0..4 {
        target.set_indicator(7, &mut neighbor, 1);
    }
    assert_eq!(target.overflow_bitmap & 15, 15);
    assert!(target.test_stash_check());
    target.set_indicator(8, &mut neighbor, 0);
    assert_eq!(neighbor.overflow_bitmap & 15, 1);
    assert_eq!(neighbor.overflow_member, 1);
    for _ in 0..4 {
        target.set_indicator(9, &mut neighbor, 0);
    }
    assert_eq!(neighbor.overflow_bitmap & 15, 15);
    assert_eq!(target.overflow_count, 1);
    assert!(target.test_overflow());
    target.unset_indicator(9, &mut neighbor, 0);
    assert_eq!(neighbor.overflow_bitmap & 15, 0b1101);
    target.unset_indicator(9, &mut neighbor, 0);
    target.unset_indicator(9, &mut neighbor, 0);
    assert_eq!(neighbor.overflow_bitmap & 15, 0b0001);
    assert_eq!(target.overflow_count, 1);
    target.unset_indicator(9, &mut neighbor, 0);
    assert_eq!(target.overflow_count, 0);
    target.unset_indicator(8, &mut neighbor, 0);
    assert_eq!(neighbor.overflow_bitmap & 15, 0);
    assert!(target.test_stash_check());
    for _ in 0..4 {
        target.unset_indicator(7, &mut neighbor, 1);
    }
    assert!(!target.test_stash_check());
    target.reset_overflow_fp();
    assert_eq!(target.overflow_bitmap, 0);
}

#[test]
fn optimistic_read_validation() {
    let mut bucket = Bucket::new();
    let before = bucket.version_lock;
    assert!(read_is_consistent(before, bucket.version_lock));
    bucket.get_lock();
    assert!(!read_is_consistent(bucket.version_lock, bucket.version_lock));
    bucket.release_lock();
    assert!(!read_is_consistent(before, bucket.version_lock));
}
