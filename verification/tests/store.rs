use worldbox::coord::Coord;
use worldbox::store::{CoordMap, CoordSet};

fn c(x: i32, y: i32, z: i32) -> Coord {
    Coord::new(x, y, z)
}

#[test]
fn map_keeps_one_value_for_each_coordinate() {
    let mut map: CoordMap<u64> = CoordMap::new();
    assert_eq!(map.len(), 0);
    assert_eq!(map.insert(c(1, 2, 3), 10), None);
    assert_eq!(map.insert(c(-1, -2, -3), 20), None);
    assert_eq!(map.insert(c(1, 2, 3), 30), Some(10));
    assert_eq!(map.len(), 2);
    assert_eq!(map.get(c(1, 2, 3)), Some(&30));
    assert_eq!(map.get(c(-1, -2, -3)), Some(&20));
    assert_eq!(map.get(c(3, 2, 1)), None);
    assert!(map.contains_key(c(1, 2, 3)));
    assert!(!map.contains_key(c(1, 2, 4)));
}

#[test]
fn map_tells_neighbours_and_extremes_apart() {
    let mut map: CoordMap<u64> = CoordMap::new();
    let coords = [
        c(0, 0, 0),
        c(0, 0, 1),
        c(0, 1, 0),
        c(1, 0, 0),
        c(0, 0, -1),
        c(i32::MAX, i32::MIN, 0),
        c(i32::MIN, i32::MAX, 0),
        c(i32::MIN, i32::MIN, i32::MIN),
        c(i32::MAX, i32::MAX, i32::MAX),
    ];
    for (i, pos) in coords.iter().enumerate() {
        assert_eq!(map.insert(*pos, i as u64), None);
    }
    assert_eq!(map.len(), coords.len());
    for (i, pos) in coords.iter().enumerate() {
        assert_eq!(map.get(*pos), Some(&(i as u64)));
    }
}

#[test]
fn map_remove_gives_the_value_back() {
    let mut map: CoordMap<u64> = CoordMap::new();
    map.insert(c(1, 0, 0), 1);
    map.insert(c(2, 0, 0), 2);
    assert_eq!(map.remove(c(1, 0, 0)), Some(1));
    assert_eq!(map.remove(c(1, 0, 0)), None);
    assert_eq!(map.len(), 1);
    assert!(!map.contains_key(c(1, 0, 0)));
    assert!(map.contains_key(c(2, 0, 0)));
}

#[test]
fn map_keys_list_each_coordinate_once() {
    let mut map: CoordMap<u64> = CoordMap::new();
    assert_eq!(map.keys(), vec![]);
    for x in -3..4 {
        map.insert(c(x, -x, 7), 0);
    }
    let mut keys = map.keys();
    keys.sort_by_key(|p| p.x);
    let expected: Vec<Coord> = (-3..4).map(|x| c(x, -x, 7)).collect();
    assert_eq!(keys, expected);
}

#[test]
fn set_holds_each_coordinate_once() {
    let mut set = CoordSet::new();
    assert_eq!(set.len(), 0);
    assert!(set.insert(c(1, 1, 1)));
    assert!(set.insert(c(2, 2, 2)));
    assert!(!set.insert(c(1, 1, 1)));
    assert_eq!(set.len(), 2);
    assert!(set.contains(c(2, 2, 2)));
    assert!(!set.contains(c(3, 3, 3)));
    assert!(set.remove(c(1, 1, 1)));
    assert!(!set.remove(c(1, 1, 1)));
    assert_eq!(set.len(), 1);
    assert!(!set.contains(c(1, 1, 1)));
    assert!(set.contains(c(2, 2, 2)));
}
