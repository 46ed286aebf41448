use padd::data::map::CEHashMap;

#[test]
fn sequence_fwd() {
    let mut map: CEHashMap<usize> = CEHashMap::new();

    for i in 0..100 {
        map.insert(i, i * i);
    }

    for i in 0..100 {
        assert_eq!(*map.get(i).unwrap(), i * i);
    }
}

#[test]
fn sequence_rev() {
    let mut map: CEHashMap<usize> = CEHashMap::new();

    for i in (0..100).rev() {
        map.insert(i, i * i);
    }

    for i in 0..100 {
        assert_eq!(*map.get(i).unwrap(), i * i);
    }
}

#[test]
fn insert_beyond_bounds() {
    let mut map: CEHashMap<usize> = CEHashMap::new();

    map.insert(2, 2);
    map.insert(1, 1);

    assert_eq!(*map.get(2).unwrap(), 2);
    assert_eq!(*map.get(1).unwrap(), 1);
}

#[test]
fn empty_get() {
    let map: CEHashMap<usize> = CEHashMap::new();

    let res = map.get(0);

    assert!(res.is_none());
}

#[test]
fn map_contains() {
    let mut map: CEHashMap<usize> = CEHashMap::new();

    map.insert(2, 4);
    map.insert(1, 5);

    assert!(!map.contains(0));
    assert!(map.contains(1));
    assert!(map.contains(2));
    assert!(!map.contains(3));
    assert!(!map.contains(4));
}

#[test]
fn size() {
    let mut map: CEHashMap<usize> = CEHashMap::new();

    assert_eq!(map.size(), 0);
    map.insert(2, 0);
    assert_eq!(map.size(), 3);
    map.insert(1, 0);
    assert_eq!(map.size(), 3);
    map.insert(50, 0);
    assert_eq!(map.size(), 51);
}

#[test]
fn iterator() {
    let mut map: CEHashMap<usize> = CEHashMap::new();

    {
        let mut iter = map.iter();
        assert_eq!(iter.next(), None);
    }

    map.insert(2, 7);
    map.insert(1, 8);
    map.insert(50, 9);

    let mut iter = map.iter();
    assert_eq!(iter.next(), Some(&8));
    assert_eq!(iter.next(), Some(&7));
    assert_eq!(iter.next(), Some(&9));
    assert_eq!(iter.next(), None);
}
