use lizstate::floor::map::FloorMap;
use lizstate::floor::map::FloorTile;
use lizstate::floor::vision::FloorMapVision;
use lizstate::positional::AbsolutePosition;

fn corridor() -> FloorMap {
    let tiles = (0..=5)
        .map(|x| (AbsolutePosition::new(x, 0), FloorTile::Floor))
        .collect();
    FloorMap::new_with_tiles(tiles)
}

#[test]
fn vision_sees_along_a_corridor_and_its_walls() {
    let map = corridor();
    let seen = FloorMapVision::get_vision(&map, AbsolutePosition::new(0, 0));
    assert!(seen.contains(&(AbsolutePosition::new(0, 0), FloorTile::Floor)));
    assert!(seen.contains(&(AbsolutePosition::new(5, 0), FloorTile::Floor)));
    // The walls next to the corridor are seen.
    assert!(seen.contains(&(AbsolutePosition::new(1, 1), FloorTile::Wall)));
    assert!(seen.contains(&(AbsolutePosition::new(0, -1), FloorTile::Wall)));
    // The segment to (2, 1) ties in the middle and may pass over the floor at (1, 0).
    assert!(seen.contains(&(AbsolutePosition::new(2, 1), FloorTile::Wall)));
    // Nothing behind a wall.
    assert!(!seen.iter().any(|(p, _)| *p == AbsolutePosition::new(0, 2)));
    assert!(!seen.iter().any(|(p, _)| *p == AbsolutePosition::new(-2, 0)));
}

#[test]
fn vision_is_sorted_and_within_range() {
    let map = FloorMap::new_empty();
    let center = AbsolutePosition::new(3, -2);
    let seen = FloorMapVision::get_vision(&map, center);
    // Outdoors, everything within the radius is seen, each tile once.
    assert_eq!(seen.len(), 17 * 17);
    for pair in seen.windows(2) {
        let (a, b) = (pair[0].0, pair[1].0);
        assert!(a.x < b.x || (a.x == b.x && a.y < b.y));
    }
    assert!(seen.iter().all(|(p, t)| p.distance(center) <= 8 && *t == FloorTile::Floor));
}

#[test]
fn vision_near_the_edge_of_the_coordinates_is_empty() {
    let map = FloorMap::new_empty();
    let seen = FloorMapVision::get_vision(&map, AbsolutePosition::new(i32::MAX, 0));
    assert!(seen.is_empty());
}

#[test]
fn map_steps_stay_on_the_floor() {
    // An L-shaped corridor: east along y = 0, then north along x = 3.
    let mut tiles: Vec<(AbsolutePosition, FloorTile)> = (0..=3)
        .map(|x| (AbsolutePosition::new(x, 0), FloorTile::Floor))
        .collect();
    tiles.extend((1..=3).map(|y| (AbsolutePosition::new(3, y), FloorTile::Floor)));
    let map = FloorMap::new_with_tiles(tiles);
    let start = AbsolutePosition::new(0, 0);
    let goal = AbsolutePosition::new(3, 3);
    let step = map.get_step(start, goal).unwrap();
    assert_eq!(step, AbsolutePosition::new(1, 0));
    assert_eq!(map.get_step(goal, goal), Some(goal));
    // Walking the steps reaches the goal over floor only.
    let mut at = start;
    for _ in 0..10 {
        if at == goal {
            break;
        }
        at = map.get_step(at, goal).unwrap();
        assert!(map.is_tile_floor(at));
    }
    assert_eq!(at, goal);
}
