use padd::data::trie::{Error, Trie};
use std::collections::HashMap;
use std::str;
use uuid::Uuid;

#[test]
fn simple_inserts() {
    let mut trie: Trie<u32> = Trie::new();

    trie.insert("something".as_bytes(), 1).unwrap();
    trie.insert("something else".as_bytes(), 2).unwrap();
    trie.insert("sab".as_bytes(), 3).unwrap();

    assert_eq!(trie.search("something".as_bytes()), Some(&1));
    assert_eq!(trie.search("something else".as_bytes()), Some(&2));
    assert_eq!(trie.search("sab".as_bytes()), Some(&3));
    assert_eq!(trie.search("something else more".as_bytes()), None);
    assert_eq!(trie.search("some".as_bytes()), None);
    assert_eq!(trie.search("s".as_bytes()), None);
    assert_eq!(trie.search("a".as_bytes()), None);
    assert_eq!(trie.search("project".as_bytes()), None);
}

#[test]
fn many_inserts() {
    let mut trie: Trie<u32> = Trie::new();
    let mut map: HashMap<String, u32> = HashMap::new();

    for i in 0..10000 {
        let key = Uuid::new_v4().to_string();

        trie.insert(key.as_bytes(), i).unwrap();
        map.insert(key, i);
    }

    for (key, val) in map.iter() {
        assert_eq!(trie.search(key.as_bytes()), Some(val));
    }

    for _ in 0..10000 {
        let key = Uuid::new_v4().to_string();

        assert_eq!(trie.search(key.as_bytes()), None);
    }
}

#[test]
fn exhaustive_searching() {
    let mut trie: Trie<usize> = Trie::new();
    let mut map: HashMap<String, usize> = HashMap::new();

    // Insert some 8-bit values.
    for i in 32..=126 {
        let key = [i as u8];

        trie.insert(&key, i).unwrap();
        map.insert(str::from_utf8(&key).unwrap().to_string(), i);
    }

    // Insert some random values of differing lengths.
    for length in 6..15 {
        for i in 1..length * length * length {
            let mut key = Uuid::new_v4().to_string();
            key = key.chars().rev().collect();
            key.truncate(length);

            trie.insert(key.as_bytes(), i).unwrap();
            map.insert(key, i);
        }
    }

    // Trie contains correct values for all inserted pairs.
    for (key, val) in map.iter() {
        assert_eq!(trie.search(key.as_bytes()), Some(val));
    }

    // Trie does not contain any 16-bit entries.
    for i in 0..255 {
        for j in 0..255 {
            let key = [i as u8, j as u8];

            assert_eq!(trie.search(&key), None);
        }
    }

    // Trie does not contain arbitrary random values.
    for _ in 0..10000 {
        let key = Uuid::new_v4().to_string();

        assert_eq!(trie.search(key.as_bytes()), None);
    }
}

#[test]
fn insert_duplicate() {
    let mut trie: Trie<u32> = Trie::new();

    trie.insert("k1".as_bytes(), 1).unwrap();
    trie.insert("k2".as_bytes(), 2).unwrap();
    trie.insert("k3".as_bytes(), 3).unwrap();
    trie.insert("k4".as_bytes(), 4).unwrap();
    trie.insert("k5".as_bytes(), 5).unwrap();
    trie.insert("k6".as_bytes(), 6).unwrap();

    assert_eq!(trie.insert("k1".as_bytes(), 11), Err(Error::DuplicateErr));
    assert_eq!(trie.insert("k2".as_bytes(), 12), Err(Error::DuplicateErr));
    assert_eq!(trie.insert("k3".as_bytes(), 13), Err(Error::DuplicateErr));
    assert_eq!(trie.insert("k4".as_bytes(), 14), Err(Error::DuplicateErr));
    assert_eq!(trie.insert("k5".as_bytes(), 15), Err(Error::DuplicateErr));
    assert_eq!(trie.insert("k6".as_bytes(), 16), Err(Error::DuplicateErr));

    assert_eq!(trie.insert("k0".as_bytes(), 0), Ok(()));

    assert_eq!(trie.search("k0".as_bytes()), Some(&0));
    assert_eq!(trie.search("k1".as_bytes()), Some(&1));
    assert_eq!(trie.search("k2".as_bytes()), Some(&2));
    assert_eq!(trie.search("k3".as_bytes()), Some(&3));
    assert_eq!(trie.search("k4".as_bytes()), Some(&4));
    assert_eq!(trie.search("k5".as_bytes()), Some(&5));
    assert_eq!(trie.search("k6".as_bytes()), Some(&6));
}

#[test]
fn removal() {
    let mut trie: Trie<u32> = Trie::new();

    trie.insert("abc".as_bytes(), 1).unwrap();
    trie.insert("abcd".as_bytes(), 2).unwrap();
    trie.insert("ab".as_bytes(), 3).unwrap();

    trie.remove("abc".as_bytes());
    assert_eq!(trie.search("abc".as_bytes()), None);
    assert_eq!(trie.search("abcd".as_bytes()), Some(&2));
    assert_eq!(trie.search("ab".as_bytes()), Some(&3));

    trie.remove("xyz".as_bytes());
    assert_eq!(trie.search("abcd".as_bytes()), Some(&2));

    assert_eq!(trie.insert("abc".as_bytes(), 4), Ok(()));
    assert_eq!(trie.search("abc".as_bytes()), Some(&4));
}

#[test]
fn heavy_usage() {
    let mut trie: Trie<usize> = Trie::new();
    let mut map: HashMap<String, usize> = HashMap::new();

    for i in 0..2000 {
        let key = Uuid::new_v4().to_string();
        trie.insert(key.as_bytes(), i).unwrap();
        map.insert(key, i);
    }

    let keys: Vec<String> = map.keys().cloned().collect();
    for key in keys.iter().step_by(2) {
        trie.remove(key.as_bytes());
        map.remove(key);
    }

    for key in keys.iter() {
        assert_eq!(trie.search(key.as_bytes()), map.get(key));
    }
}

#[test]
fn non_prefix_free() {
    let mut trie: Trie<u32> = Trie::new();

    trie.insert("abc".as_bytes(), 1).unwrap();
    trie.insert("abcd".as_bytes(), 2).unwrap();
    trie.insert("abcdefgh".as_bytes(), 3).unwrap();
    trie.insert("a".as_bytes(), 4).unwrap();
    trie.insert("ab".as_bytes(), 5).unwrap();
    trie.insert("".as_bytes(), 6).unwrap();

    assert_eq!(trie.search("abc".as_bytes()), Some(&1));
    assert_eq!(trie.search("abcd".as_bytes()), Some(&2));
    assert_eq!(trie.search("abcdefgh".as_bytes()), Some(&3));
    assert_eq!(trie.search("a".as_bytes()), Some(&4));
    assert_eq!(trie.search("ab".as_bytes()), Some(&5));
    assert_eq!(trie.search("".as_bytes()), Some(&6));

    assert_eq!(trie.search("b".as_bytes()), None);
    assert_eq!(trie.search("c".as_bytes()), None);
    assert_eq!(trie.search("abcde".as_bytes()), None);
    assert_eq!(trie.search("xyz".as_bytes()), None);
    assert_eq!(trie.search("bc".as_bytes()), None);
}

#[test]
fn longest_match() {
    let mut trie: Trie<u32> = Trie::new();

    trie.insert("ab".as_bytes(), 1).unwrap();
    trie.insert("abcd".as_bytes(), 2).unwrap();

    assert_eq!(trie.longest_match("a".as_bytes()), None);
    assert_eq!(trie.longest_match("abc".as_bytes()), Some((&1, 2)));
    assert_eq!(trie.longest_match("abcdef".as_bytes()), Some((&2, 4)));
    assert_eq!(trie.longest_match("xyz".as_bytes()), None);
}
