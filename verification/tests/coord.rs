use worldbox::coord::{floor_div_size, floor_mod_size, Coord};

#[test]
fn floor_division_for_negative_positions() {
    let p = Coord::new(-1, -32, -33);
    assert_eq!(p.to_chunk(), Coord::new(-1, -1, -2));
    assert_eq!(p.to_local(), Coord::new(31, 0, 31));
}

#[test]
fn floor_division_is_not_truncation() {
    assert_eq!(floor_div_size(-1), -1);
    assert_eq!(floor_div_size(-32), -1);
    assert_eq!(floor_div_size(-33), -2);
    assert_eq!(floor_div_size(31), 0);
    assert_eq!(floor_div_size(32), 1);
    assert_eq!(floor_mod_size(-1), 31);
    assert_eq!(floor_mod_size(-32), 0);
    assert_eq!(floor_mod_size(33), 1);
}

#[test]
fn split_and_join_round_trip() {
    let samples = [
        Coord::new(0, 0, 0),
        Coord::new(5, 70, -3),
        Coord::new(-64, -65, 63),
        Coord::new(i32::MIN, i32::MAX, -1),
        Coord::new(1_000_000, -1_000_000, 31),
    ];
    for p in samples {
        let chunk = p.to_chunk();
        let local = p.to_local();
        assert!(0 <= local.x && local.x < 32);
        assert!(0 <= local.y && local.y < 32);
        assert!(0 <= local.z && local.z < 32);
        assert_eq!(chunk.to_world(local), Some(p));
    }
}

#[test]
fn to_world_rejects_what_is_no_local_position() {
    assert_eq!(Coord::new(0, 0, 0).to_world(Coord::new(32, 0, 0)), None);
    assert_eq!(Coord::new(0, 0, 0).to_world(Coord::new(0, -1, 0)), None);
    assert_eq!(Coord::new(2, -1, 0).to_world(Coord::new(1, 2, 3)), Some(Coord::new(65, -30, 3)));
}

#[test]
fn to_world_rejects_positions_beyond_the_range() {
    assert_eq!(Coord::new(i32::MAX, 0, 0).to_world(Coord::new(0, 0, 0)), None);
    assert_eq!(Coord::new(67_108_863, 0, 0).to_world(Coord::new(31, 0, 0)), Some(Coord::new(i32::MAX, 0, 0)));
}

#[test]
fn checked_add_stops_at_the_range() {
    assert_eq!(Coord::new(1, 2, 3).checked_add(Coord::new(-1, 0, 4)), Some(Coord::new(0, 2, 7)));
    assert_eq!(Coord::new(i32::MAX, 0, 0).checked_add(Coord::new(1, 0, 0)), None);
    assert_eq!(Coord::new(0, i32::MIN, 0).checked_add(Coord::new(0, -1, 0)), None);
}

#[test]
fn distance_squared_is_exact() {
    assert_eq!(Coord::new(1, 2, 3).distance_squared(Coord::new(4, 6, 3)), 25);
    assert_eq!(Coord::new(0, 0, 0).distance_squared(Coord::new(0, 0, 0)), 0);
    let far = Coord::new(i32::MIN, i32::MIN, i32::MIN).distance_squared(Coord::new(i32::MAX, i32::MAX, i32::MAX));
    assert_eq!(far, 3 * 4294967295u128 * 4294967295u128);
}

#[test]
fn keys_lead_back_to_coordinates() {
    let samples = [
        Coord::new(0, 0, 0),
        Coord::new(-1, 2, -3),
        Coord::new(i32::MIN, i32::MAX, 0),
    ];
    for p in samples {
        assert_eq!(Coord::from_key(p.key()), p);
    }
    assert_eq!(Coord::new(i32::MIN, i32::MIN, i32::MIN).key(), 0);
    assert_eq!(Coord::new(0, 0, 0).key(), (1u128 << 95) + (1u128 << 63) + (1u128 << 31));
    assert_ne!(Coord::new(0, 1, 0).key(), Coord::new(1, 0, 0).key());
}
