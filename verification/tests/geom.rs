use lizstate::geom::geometry::line_step;
use lizstate::geom::geometry::line_tiles;
use lizstate::geom::coords::Coords;
use lizstate::geom::edge_supergraph::IsPlanarEdgeSupergraph;
use lizstate::geom::edge_supergraph::PlanarEdgeSupergraph;
use lizstate::geom::free_group::FreeGroup;
use lizstate::geom::grid::Direction;
use lizstate::geom::grid::Grid;
use lizstate::geom::grid::GridShortcuts;
use lizstate::geom::induced_subgraph::IndoorsMap;
use lizstate::geom::induced_subgraph::IsInducedSubgraph;
use lizstate::geom::isometry::GridIsometry;
use lizstate::geom::isometry::Orientation;
use lizstate::geom::map::TileMap;
use lizstate::geom::tiles::Grid as TileGrid;
use lizstate::geom::tiles::Tile;

#[test]
fn go_follow_edge() {
    let free_identity = FreeGroup::new_empty();
    let free_other = FreeGroup::new_empty().up().right().down().unwrap();

    let mut valid_tiles = IndoorsMap::new_empty();
    valid_tiles.insert(free_identity);
    valid_tiles.insert(free_other);

    {
        let subset_identity = (&valid_tiles).to_grid(&free_identity).unwrap();
        assert_eq!(subset_identity.right(), None);

        let subset_other = (&valid_tiles).to_grid(&free_other).unwrap();
        assert_eq!(subset_other.left(), None);
    }

    let mut supergraph = PlanarEdgeSupergraph::new_empty();
    supergraph
        .add_edge(
            &(&valid_tiles).to_grid(&free_identity).unwrap(),
            &(&valid_tiles).to_grid(&free_other).unwrap(),
        )
        .unwrap();

    let dingus = (&supergraph).to_grid((&valid_tiles).to_grid(&free_identity).unwrap());
    assert_eq!(dingus.right().unwrap().tile.tile, free_other);

    let dingus = (&supergraph).to_grid((&valid_tiles).to_grid(&free_other).unwrap());
    assert_eq!(dingus.left().unwrap().tile.tile, free_identity);
}

#[test]
fn induced_subgraph_locate() {
    let tile = Coords::new(0, 0);
    let tile_right = tile.right().unwrap();

    let mut map = IndoorsMap::new_empty();
    map.insert(tile);

    assert!((&map).to_grid(&tile).is_some());
    assert!((&map).to_grid(&tile_right).is_none());

    map.insert(tile_right);

    assert!((&map).to_grid(&tile_right).is_some());
}

#[test]
fn induced_subgraph_grid_trait_traversal() {
    let tile = Coords::new(0, 0);
    let tile_right = tile.right().unwrap();

    let mut map = IndoorsMap::new_empty();
    map.insert(tile);
    map.insert(tile_right);

    assert_eq!((&map).to_grid(&tile).right().left().unwrap().tile, tile);
    assert!((&map).to_grid(&tile).right().right().is_none());
}

#[test]
fn symmetry() {
    let local = Coords::new(2, 1);

    for (inner, expected) in [
        (Coords::new(2, 1), Orientation::UpRight),
        (Coords::new(-2, 1), Orientation::UpLeft),
        (Coords::new(2, -1), Orientation::DownRight),
        (Coords::new(-2, -1), Orientation::DownLeft),
        (Coords::new(-1, 2), Orientation::LeftUp),
        (Coords::new(-1, -2), Orientation::LeftDown),
        (Coords::new(1, 2), Orientation::RightUp),
        (Coords::new(1, -2), Orientation::RightDown),
    ] {
        let orientation = Orientation::new_from_symmetry(inner);
        assert_eq!(orientation, expected);

        println!("testing {expected:?}");
        assert_eq!(orientation.local_coords_to_inner(local), inner);
        assert_eq!(orientation.inner_coords_to_local(inner), local);

        let iso = GridIsometry::new_from_symmetry(Coords::new(0, 0), inner);
        assert_eq!(iso.orientation, expected);
        assert_eq!(iso.right().right().up().unwrap().tile, inner);
    }
}

#[test]
fn directions() {
    for orientation in [
        Orientation::UpRight,
        Orientation::UpLeft,
        Orientation::DownRight,
        Orientation::DownLeft,
        Orientation::LeftUp,
        Orientation::LeftDown,
        Orientation::RightUp,
        Orientation::RightDown,
    ] {
        match orientation {
            Orientation::UpLeft | Orientation::UpRight => {
                assert_eq!(orientation.to_up(), Direction::Up);
            }
            Orientation::DownRight | Orientation::DownLeft => {
                assert_eq!(orientation.to_up(), Direction::Down);
            }
            Orientation::LeftUp | Orientation::LeftDown => {
                assert_eq!(orientation.to_up(), Direction::Left);
            }
            Orientation::RightUp | Orientation::RightDown => {
                assert_eq!(orientation.to_up(), Direction::Right);
            }
        }

        match orientation {
            Orientation::UpLeft | Orientation::DownLeft => {
                assert_eq!(orientation.to_right(), Direction::Left);
            }
            Orientation::DownRight | Orientation::UpRight => {
                assert_eq!(orientation.to_right(), Direction::Right);
            }
            Orientation::LeftUp | Orientation::RightUp => {
                assert_eq!(orientation.to_right(), Direction::Up);
            }
            Orientation::LeftDown | Orientation::RightDown => {
                assert_eq!(orientation.to_right(), Direction::Down);
            }
        }

        assert_eq!(
            Orientation::new_from_dirs(orientation.to_up(), orientation.to_right()),
            Some(orientation)
        );
    }
}

#[test]
fn map_locate() {
    let tile = Tile::new(0, 0);
    let tile_right = tile.right().unwrap();

    let mut map = TileMap::new_empty();
    map.insert(tile, ());

    assert!(map.locate(&tile).is_some());
    assert!(map.locate(&tile_right).is_none());

    map.insert(tile_right, ());

    assert!(map.locate(&tile_right).is_some());
}

#[test]
fn map_grid_trait_traversal() {
    let tile = Tile::new(0, 0);
    let tile_right = tile.right().unwrap();

    let mut map = TileMap::new_empty();
    map.insert(tile, ());
    map.insert(tile_right, ());

    assert_eq!(map.locate(&tile).right().left().unwrap().tile, &tile);
    assert!(map.locate(&tile).right().right().is_none());
}

#[test]
fn isometry_steps_can_be_undone() {
    for inner in [Coords::new(3, 1), Coords::new(-1, 4), Coords::new(-2, -5), Coords::new(1, -1)] {
        let iso = GridIsometry::new_from_symmetry(Coords::new(7, -3), inner);
        for dir in [Direction::Up, Direction::Down, Direction::Left, Direction::Right] {
            let there = iso.go(dir).unwrap();
            let back = there.go(dir.inverse()).unwrap();
            assert_eq!(back.tile, iso.tile);
            assert_eq!(back.orientation, iso.orientation);
        }
    }
}

#[test]
fn line_steps_right_then_up() {
    let at = |x: i32, y: i32| GridIsometry::new_from_orientation(Coords::new(x, y), Orientation::UpRight);
    let from = at(0, 0);
    let to = at(3, 1);
    assert_eq!(line_step(&from, &to, &at(0, 0)).map(|g| g.tile), Some(Coords::new(1, 0)));
    assert_eq!(line_step(&from, &to, &at(2, 0)).map(|g| g.tile), Some(Coords::new(2, 1)));
    assert_eq!(line_step(&from, &to, &at(3, 1)).map(|g| g.tile), None);
    let tiles: Vec<Coords> = line_tiles(from, &to, 10).into_iter().map(|g| g.tile).collect();
    assert_eq!(
        tiles,
        vec![Coords::new(0, 0), Coords::new(1, 0), Coords::new(2, 0), Coords::new(2, 1), Coords::new(3, 1)]
    );
    let short: Vec<Coords> = line_tiles(at(0, 0), &to, 2).into_iter().map(|g| g.tile).collect();
    assert_eq!(short, vec![Coords::new(0, 0), Coords::new(1, 0)]);
}
