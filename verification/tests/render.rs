use worldbox::coord::Coord;
use worldbox::render::RenderDistance;

#[test]
fn box_of_radius_zero_is_the_centre() {
    assert_eq!(RenderDistance::new(0, 0).offsets(), vec![Coord::new(0, 0, 0)]);
}

#[test]
fn offsets_fill_the_box_without_gaps_or_repetitions() {
    for (radius, height) in [(0u8, 1u8), (1, 0), (1, 1), (2, 1), (3, 2)] {
        let distance = RenderDistance::new(radius, height);
        let offsets = distance.offsets();
        let (r, h) = (radius as i32, height as i32);
        assert_eq!(offsets.len() as i32, (2 * r + 1) * (2 * r + 1) * (2 * h + 1));
        for x in -r - 1..=r + 1 {
            for y in -h - 1..=h + 1 {
                for z in -r - 1..=r + 1 {
                    let inside = x.abs() <= r && y.abs() <= h && z.abs() <= r;
                    let count = offsets.iter().filter(|o| **o == Coord::new(x, y, z)).count();
                    assert_eq!(count, if inside { 1 } else { 0 });
                }
            }
        }
    }
}

#[test]
fn offsets_come_nearest_first() {
    let offsets = RenderDistance::new(3, 2).offsets();
    let origin = Coord::new(0, 0, 0);
    assert_eq!(offsets[0], origin);
    for pair in offsets.windows(2) {
        assert!(pair[0].distance_squared(origin) <= pair[1].distance_squared(origin));
    }
}

#[test]
fn offsets_of_the_smallest_boxes() {
    assert_eq!(
        RenderDistance::new(0, 1).offsets(),
        vec![Coord::new(0, 0, 0), Coord::new(0, -1, 0), Coord::new(0, 1, 0)]
    );
    let flat = RenderDistance::new(1, 0).offsets();
    assert_eq!(
        flat,
        vec![
            Coord::new(0, 0, 0),
            Coord::new(-1, 0, 0),
            Coord::new(0, 0, -1),
            Coord::new(0, 0, 1),
            Coord::new(1, 0, 0),
            Coord::new(-1, 0, -1),
            Coord::new(-1, 0, 1),
            Coord::new(1, 0, -1),
            Coord::new(1, 0, 1),
        ]
    );
}

#[test]
fn contains_tests_the_box_around_a_centre() {
    let distance = RenderDistance::new(2, 1);
    let center = Coord::new(10, -5, 3);
    assert!(distance.contains(center, center));
    assert!(distance.contains(center, Coord::new(12, -4, 1)));
    assert!(distance.contains(center, Coord::new(8, -6, 5)));
    assert!(!distance.contains(center, Coord::new(13, -5, 3)));
    assert!(!distance.contains(center, Coord::new(10, -3, 3)));
    assert!(!distance.contains(center, Coord::new(10, -5, 0)));
    assert!(!distance.contains(Coord::new(i32::MIN, 0, 0), Coord::new(i32::MAX, 0, 0)));
}
