use dash_index::hashing::meta_hash;
use dash_index::index::{ExtendableHashing, IndexError};
use dash_index::pair::{hash_key, Key};

fn text(s: &str) -> Key {
    Key::new_pointed(s.as_bytes().to_vec())
}

#[test]
fn duplicate_rejection() {
    let mut index = ExtendableHashing::new(1);
    assert_eq!(index.insert(text("foo"), b"1".to_vec()), Ok(()));
    assert_eq!(index.insert(text("foo"), b"2".to_vec()), Err(IndexError::DuplicateKey));
    assert_eq!(index.get(&text("foo")), Some(b"1".to_vec()));
}

#[test]
fn round_trip_and_idempotent_delete() {
    let mut index = ExtendableHashing::new(4);
    assert_eq!(index.insert(Key::new(42), b"v".to_vec()), Ok(()));
    assert_eq!(index.get(&Key::new(42)), Some(b"v".to_vec()));
    assert_eq!(index.insert(Key::new(43), b"w".to_vec()), Ok(()));
    assert_eq!(index.get(&Key::new(42)), Some(b"v".to_vec()));
    assert_eq!(index.delete(&Key::new(42)), Ok(()));
    assert_eq!(index.get(&Key::new(42)), None);
    assert_eq!(index.delete(&Key::new(42)), Err(IndexError::NotFound));
    assert_eq!(index.get(&Key::new(43)), Some(b"w".to_vec()));
}

#[test]
fn fill_then_read_and_delete_half_through_splits() {
    let mut index = ExtendableHashing::new(1);
    let keys: Vec<u64> = (13000u64..14500).collect();
    for &k in &keys {
        assert_eq!(index.insert(Key::new(k), b"Hello World".to_vec()), Ok(()));
    }
    for &k in &keys {
        assert_eq!(index.get(&Key::new(k)), Some(b"Hello World".to_vec()));
    }
    let half = keys.len() / 2;
    for &k in &keys[..half] {
        assert_eq!(index.delete(&Key::new(k)), Ok(()));
    }
    for &k in &keys[..half] {
        assert_eq!(index.get(&Key::new(k)), None);
    }
    for &k in &keys[half..] {
        assert_eq!(index.get(&Key::new(k)), Some(b"Hello World".to_vec()));
    }
}

#[test]
fn many_splits_keep_every_key() {
    let mut index = ExtendableHashing::new(2);
    for k in 0u64..20000 {
        assert_eq!(index.insert(Key::new(k), k.to_be_bytes().to_vec()), Ok(()));
    }
    for k in 0u64..20000 {
        assert_eq!(index.get(&Key::new(k)), Some(k.to_be_bytes().to_vec()));
    }
    assert_eq!(index.get(&Key::new(20000)), None);
}

#[test]
fn colliding_fingerprints_stay_distinct() {
    let first = String::from("key-0");
    let fp = meta_hash(hash_key(&text(&first)));
    let mut second = None;
    for i in 1..100000 {
        let candidate = format!("key-{}", i);
        if meta_hash(hash_key(&text(&candidate))) == fp {
            second = Some(candidate);
            break;
        }
    }
    let second = second.unwrap();
    let mut index = ExtendableHashing::new(1);
    assert_eq!(index.insert(text(&first), b"first".to_vec()), Ok(()));
    assert_eq!(index.insert(text(&second), b"second".to_vec()), Ok(()));
    assert_eq!(index.get(&text(&first)), Some(b"first".to_vec()));
    assert_eq!(index.get(&text(&second)), Some(b"second".to_vec()));
}

#[test]
fn inline_and_byte_keys_differ() {
    let mut index = ExtendableHashing::new(1);
    assert_eq!(index.insert(Key::new(5), b"int".to_vec()), Ok(()));
    assert_eq!(index.insert(Key::new_pointed(5u64.to_le_bytes().to_vec()), b"bytes".to_vec()), Ok(()));
    assert_eq!(index.get(&Key::new(5)), Some(b"int".to_vec()));
    assert_eq!(index.get(&Key::new_pointed(5u64.to_le_bytes().to_vec())), Some(b"bytes".to_vec()));
}

#[test]
fn shut_down_refuses_writes() {
    let mut index = ExtendableHashing::new(1);
    assert_eq!(index.insert(Key::new(1), b"a".to_vec()), Ok(()));
    index.shut_down();
    assert_eq!(index.insert(Key::new(2), b"b".to_vec()), Err(IndexError::Closed));
    assert_eq!(index.delete(&Key::new(1)), Err(IndexError::Closed));
    assert_eq!(index.get(&Key::new(1)), Some(b"a".to_vec()));
}

#[test]
fn empty_index_finds_nothing() {
    let mut index = ExtendableHashing::new(8);
    assert_eq!(index.get(&Key::new(0)), None);
    assert_eq!(index.delete(&Key::new(0)), Err(IndexError::NotFound));
    assert_eq!(index.get(&text("")), None);
    assert_eq!(index.insert(text(""), vec![]), Ok(()));
    assert_eq!(index.get(&text("")), Some(vec![]));
}
