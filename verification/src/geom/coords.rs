use vstd::prelude::*;

use crate::geom::grid::Direction;
use crate::geom::grid::Grid;
use crate::geom::grid::TileEq;
use crate::geom::grid::spec_inverse;

verus! {

#[derive(Debug, Clone, Copy, PartialEq, Eq, Structural, Hash)]
pub struct Coords {
    pub x: i32,
    pub y: i32,
}

/// The offset of one step in `dir`: up is `y + 1`, right is `x + 1`.
pub open spec fn dir_offset(dir: Direction) -> (int, int) {
    match dir {
        Direction::Up => (0, 1),
        Direction::Down => (0, -1),
        Direction::Left => (-1, 0),
        Direction::Right => (1, 0),
    }
}

/// `(x, y)` moved one step in `dir`, if the result fits in `i32`.
pub open spec fn step_coords(c: Coords, dir: Direction) -> Option<Coords> {
    let nx = c.x + dir_offset(dir).0;
    let ny = c.y + dir_offset(dir).1;
    if i32::MIN <= nx <= i32::MAX && i32::MIN <= ny <= i32::MAX {
        Some(Coords { x: nx as i32, y: ny as i32 })
    } else {
        None
    }
}

impl Coords {
    pub fn new(x: i32, y: i32) -> (r: Self)
        ensures
            r == (Coords { x, y }),
    {
        Self { x, y }
    }
}

impl Grid for Coords {
    type Neighbor = Coords;

    open spec fn spec_go(&self, dir: Direction) -> Option<Coords> {
        step_coords(*self, dir)
    }

    fn go(&self, dir: Direction) -> (r: Option<Coords>) {
        match dir {
            Direction::Up => match self.y.checked_add(1) {
                Some(y) => Some(Coords { x: self.x, y }),
                None => None,
            },
            Direction::Down => match self.y.checked_add(-1) {
                Some(y) => Some(Coords { x: self.x, y }),
                None => None,
            },
            Direction::Left => match self.x.checked_add(-1) {
                Some(x) => Some(Coords { x, y: self.y }),
                None => None,
            },
            Direction::Right => match self.x.checked_add(1) {
                Some(x) => Some(Coords { x, y: self.y }),
                None => None,
            },
        }
    }
}

impl TileEq for Coords {
    open spec fn same_tile(&self, other: &Self) -> bool {
        *self == *other
    }

    fn tile_eq(&self, other: &Self) -> (r: bool) {
        self.x == other.x && self.y == other.y
    }

    fn duplicate(&self) -> (r: Self) {
        *self
    }

    proof fn lemma_same_tile_equivalence(a: Self, b: Self, c: Self) {
    }
}

/// A step on the plane can always be undone by a step the other way.
pub proof fn lemma_coords_go_inverse(c: Coords, dir: Direction)
    ensures
        c.spec_go(dir) matches Some(n) ==> n.spec_go(spec_inverse(dir)) == Some(c),
{
}

/// A coordinate for each tile.
///
/// A tile's up neighbor must have coordinate with y + 1 of its own.
/// A tile's right neighbor must have coordinate with x + 1 of its own.
///
/// Do not implement this if this is not possible.
pub trait PlanarProjection: Grid {
    /// Whether the projection fits in `Coords`.
    spec fn projectable(&self) -> bool;

    spec fn spec_project(&self) -> Coords;

    fn project_coords(&self) -> (r: Coords)
        requires
            self.projectable(),
        ensures
            r == self.spec_project(),
    ;
}

impl PlanarProjection for Coords {
    open spec fn projectable(&self) -> bool {
        true
    }

    open spec fn spec_project(&self) -> Coords {
        *self
    }

    fn project_coords(&self) -> (r: Coords) {
        *self
    }
}

/// Moving `dir` on the plane moves the projection by exactly the offset of `dir`.
pub proof fn lemma_coords_projection_follows_steps(c: Coords, dir: Direction)
    ensures
        c.spec_go(dir) matches Some(n) ==> n.spec_project().x == c.spec_project().x + dir_offset(dir).0
            && n.spec_project().y == c.spec_project().y + dir_offset(dir).1,
{
}

} // verus!
