use lizstate::geom::coords::Coords;
use lizstate::geom::edge_supergraph::AddEdgeError;
use lizstate::geom::edge_supergraph::PlanarEdgeSupergraph;
use lizstate::geom::free_group::FreeGroup;
use lizstate::geom::grid::GridShortcuts;
use lizstate::geom::induced_subgraph::IndoorsMap;
use lizstate::geom::induced_subgraph::IsInducedSubgraph;

#[test]
fn add_edge_on_the_plane_is_refused() {
    let mut plane = PlanarEdgeSupergraph::new_empty();
    assert_eq!(
        plane.add_edge(&Coords::new(0, 0), &Coords::new(2, 0)),
        Err(AddEdgeError::ProjectionNotAdjacent)
    );
    // The plane already joins every pair of neighbors.
    assert_eq!(
        plane.add_edge(&Coords::new(0, 0), &Coords::new(1, 0)),
        Err(AddEdgeError::OriginalFromAlreadyConnected)
    );
}

#[test]
fn add_edge_where_the_far_end_is_joined_is_refused() {
    let identity = FreeGroup::new_empty();
    let other = FreeGroup::new_empty().up().right().down().unwrap();
    let left_of_other = FreeGroup::new_empty().up().right().down().left().unwrap();

    let mut tiles = IndoorsMap::new_empty();
    tiles.insert(identity);
    tiles.insert(other);
    tiles.insert(left_of_other);

    let mut supergraph = PlanarEdgeSupergraph::new_empty();
    assert_eq!(
        supergraph.add_edge(
            &(&tiles).to_grid(&identity).unwrap(),
            &(&tiles).to_grid(&other).unwrap(),
        ),
        Err(AddEdgeError::OriginalToAlreadyConnected)
    );
}

#[test]
fn add_edge_twice_is_refused() {
    let identity = FreeGroup::new_empty();
    let other = FreeGroup::new_empty().up().right().down().unwrap();
    let around = FreeGroup::new_empty().down().left().up().right().unwrap();

    let mut tiles = IndoorsMap::new_empty();
    tiles.insert(identity);
    tiles.insert(other);
    tiles.insert(around);

    let mut supergraph = PlanarEdgeSupergraph::new_empty();
    let from = (&tiles).to_grid(&identity).unwrap();
    let to = (&tiles).to_grid(&other).unwrap();
    assert_eq!(supergraph.add_edge(&from, &to), Ok(()));
    assert_eq!(
        supergraph.add_edge(&from, &to),
        Err(AddEdgeError::OverwritingFromConnection)
    );
    // Another tile with the same projection cannot take the far end's edge either.
    let also_from = (&tiles).to_grid(&around).unwrap();
    assert_eq!(
        supergraph.add_edge(&also_from, &to),
        Err(AddEdgeError::OverwritingToConnection)
    );
}
