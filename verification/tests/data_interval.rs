use padd::data::interval::{Bound, Interval, IntervalMap};

fn assert_balance<K: Bound, V>(map: &IntervalMap<K, V>, size: u32) {
    let actual_height = map.height() as i64;
    let expected_height = f64::from(size).log2().ceil() as i64;
    assert!(actual_height == expected_height || actual_height == expected_height + 1);
}

#[test]
fn simple_map() {
    let mut map: IntervalMap<u32, u32> = IntervalMap::new();

    assert_eq!(map.get(&3), None);

    map.insert(Interval::from(1..=3), 32).unwrap();

    assert_eq!(map.get(&0), None);
    assert_eq!(map.get(&1), Some(&32));
    assert_eq!(map.get(&2), Some(&32));
    assert_eq!(map.get(&3), Some(&32));
    assert_eq!(map.get(&4), None);
    assert_balance(&map, 1);

    map.insert(Interval::from(6..14), 16).unwrap();

    assert_eq!(map.get(&1), Some(&32));
    assert_eq!(map.get(&5), None);
    assert_eq!(map.get(&6), Some(&16));
    assert_eq!(map.get(&10), Some(&16));
    assert_eq!(map.get(&13), Some(&16));
    assert_eq!(map.get(&14), None);
    assert_balance(&map, 2);

    map.insert(Interval::from(5..=5), 1).unwrap();

    assert_eq!(map.get(&4), None);
    assert_eq!(map.get(&5), Some(&1));
    assert_eq!(map.get(&6), Some(&16));
    assert_balance(&map, 3);
}

#[test]
fn point_map() {
    let mut map: IntervalMap<u32, u32> = IntervalMap::new();

    for i in 1..100000 {
        map.insert(Interval::from(i..=i), i).unwrap();
        assert_balance(&map, i as u32);
    }

    for i in 1..100000 {
        assert_eq!(map.get(&i), Some(&(i)));
    }
}

#[test]
fn division_map() {
    let mut map: IntervalMap<u32, u32> = IntervalMap::new();

    for i in 1..10000 {
        map.insert(Interval::from(i * 10..(i + 1) * 10), i).unwrap();
        assert_balance(&map, i as u32);
    }

    for i in 1..10000 {
        for j in i * 10..(i + 1) * 10 {
            assert_eq!(map.get(&j), Some(&(i)));
        }
    }
}

#[test]
fn spread_map() {
    let mut map: IntervalMap<u32, u32> = IntervalMap::new();

    map.insert(Interval::from(0..=100), 1).unwrap();
    map.insert(Interval::from(1000000..=10000000), 2).unwrap();
    map.insert(Interval::from(10000..=100000), 3).unwrap();

    assert_eq!(map.get(&0), Some(&1));
    assert_eq!(map.get(&100), Some(&1));
    assert_eq!(map.get(&1000000), Some(&2));
    assert_eq!(map.get(&10000000), Some(&2));
    assert_eq!(map.get(&10000), Some(&3));
    assert_eq!(map.get(&100000), Some(&3));

    assert_balance(&map, 3);
}

#[test]
fn middle_out_map() {
    let mut map: IntervalMap<i32, i32> = IntervalMap::new();

    for i in 1..10000 {
        map.insert(Interval::from(i..=i), i).unwrap();
        map.insert(Interval::from(-i..=-i), -i).unwrap();
        assert_balance(&map, (i * 2) as u32);
    }

    for i in 1..10000 {
        assert_eq!(map.get(&i), Some(&(i)));
        assert_eq!(map.get(&-i), Some(&(-i)));
    }
}

#[test]
fn overlapping_left() {
    let mut map: IntervalMap<u32, u32> = IntervalMap::new();
    map.insert(Interval::from(43..=99), 12).unwrap();

    let res = map.insert(Interval::from(25..67), 11);

    assert!(res.is_err());
    assert_balance(&map, 1);
}

#[test]
fn overlapping_right() {
    let mut map: IntervalMap<u32, u32> = IntervalMap::new();
    map.insert(Interval::from(43..=99), 12).unwrap();

    let res = map.insert(Interval::from(50..100), 11);

    assert!(res.is_err());
    assert_balance(&map, 1);
}

#[test]
fn overlapping_enclosed() {
    let mut map: IntervalMap<u32, u32> = IntervalMap::new();
    map.insert(Interval::from(43..=99), 12).unwrap();

    let res = map.insert(Interval::from(44..50), 11);

    assert!(res.is_err());
    assert_balance(&map, 1);
}

#[test]
fn overlapping_enclosing() {
    let mut map: IntervalMap<u32, u32> = IntervalMap::new();
    map.insert(Interval::from(43..=99), 12).unwrap();

    let res = map.insert(Interval::from(20..101), 11);

    assert!(res.is_err());
    assert_balance(&map, 1);
}

#[test]
fn overlapping_same() {
    let mut map: IntervalMap<u32, u32> = IntervalMap::new();
    map.insert(Interval::from(43..=99), 12).unwrap();

    let res = map.insert(Interval::from(43..=99), 11);

    assert!(res.is_err());
    assert_balance(&map, 1);
}

#[test]
fn overlapping_point() {
    let mut map: IntervalMap<u32, u32> = IntervalMap::new();
    map.insert(Interval::from(4..=4), 12).unwrap();
    map.insert(Interval::from(20..=25), 12).unwrap();

    assert!(map.insert(Interval::from(3..=6), 11).is_err());
    assert!(map.insert(Interval::from(4..=4), 11).is_err());
    assert!(map.insert(Interval::from(4..=6), 11).is_err());
    assert!(map.insert(Interval::from(21..=21), 11).is_err());

    assert_balance(&map, 2);
}


/// The fewest entries of a height-balanced tree of each height up to `h`.
fn fewest_entries(h: u32) -> u64 {
    let (mut below, mut at) = (0u64, 1u64);
    if h == 0 {
        return 0;
    }
    for _ in 1..h {
        let next = 1 + at + below;
        below = at;
        at = next;
    }
    at
}

#[test]
fn ascending_inserts_stay_balanced() {
    let mut map: IntervalMap<u32, u32> = IntervalMap::new();
    for i in 0..1000u32 {
        map.insert(Interval::from((3 * i)..=(3 * i + 1)), i).unwrap();
        let size = u64::from(i) + 1;
        assert!(fewest_entries(map.height()) <= size);
    }
    assert_eq!(fewest_entries(1), 1);
    assert_eq!(fewest_entries(2), 2);
    assert_eq!(fewest_entries(3), 4);
    assert_eq!(fewest_entries(4), 7);
    assert!(map.height() <= 14);
    assert_eq!(map.get(&1500), Some(&500));
    assert_eq!(map.get(&1502), None);
}
