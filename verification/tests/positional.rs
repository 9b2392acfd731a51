use lizstate::positional::algorithms::Segment;
use lizstate::positional::fov::StrictFOV;
use lizstate::positional::relative_of_octant;
use lizstate::positional::AbsolutePosition;
use lizstate::positional::InsideOctant;
use lizstate::positional::OctantRelative;
use lizstate::positional::RelativePosition;

#[test]
fn test_cardinal() {
    let (seg_octant, none) = Segment::calculate(InsideOctant::new(0, 10));
    assert!(none.is_none());

    for (i, el) in seg_octant.iter().enumerate() {
        assert_eq!(el.run as usize, i);
        assert_eq!(el.rise, 0);
    }
}

#[test]
fn test_diagonal() {
    let (seg_octant, none) = Segment::calculate(InsideOctant::new(10, 10));
    assert!(none.is_none());

    for (i, el) in seg_octant.iter().enumerate() {
        assert_eq!(el.run as usize, i);
        assert_eq!(el.rise as usize, i);
    }
}

#[test]
fn test_midpoint() {
    let (seg_octant, some) = Segment::calculate(InsideOctant::new(1, 2));
    let alt = some.unwrap();

    assert_eq!(seg_octant[0], alt[0]);
    assert_ne!(seg_octant[1], alt[1]);
    assert_eq!(seg_octant[2], alt[2]);
}

#[test]
fn test_symmetry() {
    let target = RelativePosition::new(23, 7);
    let (mut forwards, none) = Segment::calculate_relative(target);
    assert!(none.is_none());

    let mut backwards = forwards
        .iter()
        .map(|x| target + -1 * *x)
        .collect::<Vec<RelativePosition>>();

    forwards.sort();
    backwards.sort();
    assert_eq!(forwards, backwards);
}

#[test]
fn test_symmetry_alt() {
    let target = RelativePosition::new(24, 7);

    let (mut forwards, some) = Segment::calculate_relative(target);
    let mut backwards = some
        .unwrap()
        .into_iter()
        .map(|x| target + -1 * x)
        .collect::<Vec<RelativePosition>>();

    forwards.sort();
    backwards.sort();
    assert_eq!(forwards, backwards);
}

#[test]
fn test_annoying_slope() {
    // Often passes through (x, y + 0.5) for some integers x and y.
    let target = RelativePosition::new(10, 5);

    let (mut forwards, some) = Segment::calculate_relative(target);
    let mut backwards = some
        .unwrap()
        .into_iter()
        .map(|x| target + -1 * x)
        .collect::<Vec<RelativePosition>>();

    forwards.sort();
    backwards.sort();
    assert_eq!(forwards, backwards);
}

#[test]
fn test_octant() {
    let target = RelativePosition::new(-5, -10);

    let (mut forwards, some) = Segment::calculate_relative(target);
    let mut backwards = some
        .unwrap()
        .into_iter()
        .map(|x| target + -1 * x)
        .collect::<Vec<RelativePosition>>();

    forwards.sort();
    backwards.sort();
    assert_eq!(forwards, backwards);
}

#[test]
fn test_octant_from_into() {
    for dx in -10..11 {
        for dy in -10..11 {
            let relative = RelativePosition { dx, dy };
            assert_eq!(relative, relative_of_octant(OctantRelative::from(relative)));
        }
    }
}

#[test]
fn new_strict_fov() {
    _ = StrictFOV::new(5);
}

#[test]
fn get_fov() {
    let fov = StrictFOV::new(2);
    let blocks_vision = |_| false;
    let tiles = fov.get_field_of_view_tiles(AbsolutePosition::new(0, 0), 2, blocks_vision);

    for x in -2..=2 {
        for y in -2..=2 {
            assert!(
                tiles.contains(&AbsolutePosition::new(x, y)),
                "{x} {y} {tiles:?}"
            );
        }
    }

    let mut tiles = tiles;
    tiles.sort_by_key(|pos| (pos.x, pos.y));
    tiles.dedup();
    assert_eq!(tiles.len(), 5 * 5);
}

#[test]
fn get_fov_with_obstruction() {
    let fov = StrictFOV::new(2);
    let blocks_vision = |pos: AbsolutePosition| pos.x > 0 && -1 <= pos.y && pos.y <= 1;
    let tiles = fov.get_field_of_view_tiles(AbsolutePosition::new(0, 0), 2, blocks_vision);

    for y in -2..=2 {
        assert!(tiles.contains(&AbsolutePosition::new(0, y)));
        assert!(tiles.contains(&AbsolutePosition::new(1, y)));
        assert!(!tiles.contains(&AbsolutePosition::new(2, y)));
    }
}

#[test]
fn get_fov_with_direct_only() {
    let fov = StrictFOV::new(4);
    let blocks_vision = |pos: AbsolutePosition| pos.x / 3 != pos.y;
    let tiles = fov.get_field_of_view_tiles(AbsolutePosition::new(0, 0), 4, blocks_vision);

    assert!(tiles.contains(&AbsolutePosition::new(4, 1)));
    assert!(!tiles.contains(&AbsolutePosition::new(3, 1)));
}

#[test]
fn distance_is_chebyshev() {
    let a = AbsolutePosition::new(3, -4);
    let b = AbsolutePosition::new(-1, 2);
    assert_eq!(a.distance(b), 6);
    assert_eq!(b.distance(a), 6);
    assert_eq!(a.distance(a), 0);
    assert_eq!(RelativePosition::new(-7, 3).length(), 7);
}

#[test]
fn fov_wall_hides_the_tiles_behind_it() {
    let fov = StrictFOV::new(3);
    let wall = RelativePosition::new(1, 0);
    let tiles = fov.get_field_of_view_tiles_relative(3, |p: RelativePosition| p == wall);
    // The wall itself is seen, but nothing straight behind it.
    assert!(tiles.contains(&wall));
    assert!(!tiles.contains(&RelativePosition::new(2, 0)));
    assert!(!tiles.contains(&RelativePosition::new(3, 0)));
    // The segment to (2, 1) ties at its middle: the other choice, through (1, 1), is clear.
    assert!(tiles.contains(&RelativePosition::new(2, 1)));
    // Other directions are untouched.
    assert!(tiles.contains(&RelativePosition::new(-3, 0)));
    assert!(tiles.contains(&RelativePosition::new(0, 3)));
    assert!(tiles.contains(&RelativePosition::new(3, -3)));
}

#[test]
fn fov_smaller_radius_than_built() {
    let fov = StrictFOV::new(4);
    let tiles = fov.get_field_of_view_tiles_relative(2, |_| false);
    assert!(tiles.iter().all(|p| p.length() <= 2));
    for dx in -2..=2 {
        for dy in -2..=2 {
            assert!(tiles.contains(&RelativePosition::new(dx, dy)));
        }
    }
}

#[test]
fn fov_off_center() {
    let fov = StrictFOV::new(2);
    let center = AbsolutePosition::new(10, -7);
    let tiles = fov.get_field_of_view_tiles(center, 2, |pos: AbsolutePosition| pos == AbsolutePosition::new(10, -6));
    assert!(tiles.contains(&center));
    assert!(tiles.contains(&AbsolutePosition::new(10, -6)));
    assert!(!tiles.contains(&AbsolutePosition::new(10, -5)));
    assert!(tiles.contains(&AbsolutePosition::new(12, -5)));
    assert!(tiles.iter().all(|p| p.distance(center) <= 2));
}
