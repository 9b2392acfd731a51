use vstd::prelude::*;

use crate::geom::grid::TileEq;

verus! {

/// Each square tile has four neighbors.
/// A tile's up neighbor's down neighbor must be itself.
/// A tile's right neighbor's left neighbor must be itself.
#[derive(Debug, Clone, Copy, PartialEq, Eq, Structural)]
pub enum Direction {
    Up,
    Down,
    Left,
    Right,
}

pub open spec fn spec_inverse(dir: Direction) -> Direction {
    match dir {
        Direction::Up => Direction::Down,
        Direction::Down => Direction::Up,
        Direction::Left => Direction::Right,
        Direction::Right => Direction::Left,
    }
}

impl Direction {
    pub fn inverse(self) -> (r: Direction)
        ensures
            r == spec_inverse(self),
    {
        match self {
            Direction::Up => Direction::Down,
            Direction::Down => Direction::Up,
            Direction::Left => Direction::Right,
            Direction::Right => Direction::Left,
        }
    }
}

/// Subgraphs of the grid graph.
///
/// Usually, symmetry makes it easier to implement `go` than the individual directions.
///
/// Implementors must ensure:
/// `t.up() == None || t.up().down() == Some(t)`
/// `t.right() == None || t.right().left() == Some(t)`
pub trait Grid: Sized {
    type NeighborType;

    spec fn spec_go(&self, dir: Direction) -> Option<Self::NeighborType>;

    fn go(&self, dir: Direction) -> (r: Option<Self::NeighborType>)
        ensures
            r == self.spec_go(dir),
    ;

    fn up(&self) -> (r: Option<Self::NeighborType>)
        ensures
            r == self.spec_go(Direction::Up),
    {
        self.go(Direction::Up)
    }

    fn down(&self) -> (r: Option<Self::NeighborType>)
        ensures
            r == self.spec_go(Direction::Down),
    {
        self.go(Direction::Down)
    }

    fn left(&self) -> (r: Option<Self::NeighborType>)
        ensures
            r == self.spec_go(Direction::Left),
    {
        self.go(Direction::Left)
    }

    fn right(&self) -> (r: Option<Self::NeighborType>)
        ensures
            r == self.spec_go(Direction::Right),
    {
        self.go(Direction::Right)
    }
}

/// A coordinate for each tile.
///
/// A tile's up neighbor must have coordinate with y + 1 of its own.
/// A tile's right neighbor must have coordinate with x + 1 of its own.
pub trait PlanarProjection: Grid {
    spec fn spec_project(&self) -> (i32, i32);

    fn project_coords(&self) -> (r: (i32, i32))
        ensures
            r == self.spec_project(),
    ;
}

/// A convenience to avoid `and_then` all over the place.
impl<T: Grid> Grid for Option<T> {
    type NeighborType = T::NeighborType;

    open spec fn spec_go(&self, dir: Direction) -> Option<T::NeighborType> {
        match self {
            Some(t) => t.spec_go(dir),
            None => None,
        }
    }

    fn go(&self, dir: Direction) -> (r: Option<T::NeighborType>) {
        match self {
            Some(t) => t.go(dir),
            None => None,
        }
    }
}

#[derive(Debug, Clone, Copy, PartialEq, Eq, Structural, Hash)]
pub struct Tile {
    pub x: i32,
    pub y: i32,
}

impl Tile {
    pub fn new(x: i32, y: i32) -> (r: Self)
        ensures
            r == (Tile { x, y }),
    {
        Self { x, y }
    }
}

/// `t` moved one step in `dir`, if the result fits in `i32`.
pub open spec fn step_tile(t: Tile, dir: Direction) -> Option<Tile> {
    let (dx, dy) = match dir {
        Direction::Up => (0int, 1int),
        Direction::Down => (0int, -1int),
        Direction::Left => (-1int, 0int),
        Direction::Right => (1int, 0int),
    };
    let nx = t.x + dx;
    let ny = t.y + dy;
    if i32::MIN <= nx <= i32::MAX && i32::MIN <= ny <= i32::MAX {
        Some(Tile { x: nx as i32, y: ny as i32 })
    } else {
        None
    }
}

impl Grid for Tile {
    type NeighborType = Tile;

    open spec fn spec_go(&self, dir: Direction) -> Option<Tile> {
        step_tile(*self, dir)
    }

    fn go(&self, dir: Direction) -> (r: Option<Tile>) {
        match dir {
            Direction::Up => match self.y.checked_add(1) {
                Some(y) => Some(Tile { x: self.x, y }),
                None => None,
            },
            Direction::Down => match self.y.checked_add(-1) {
                Some(y) => Some(Tile { x: self.x, y }),
                None => None,
            },
            Direction::Left => match self.x.checked_add(-1) {
                Some(x) => Some(Tile { x, y: self.y }),
                None => None,
            },
            Direction::Right => match self.x.checked_add(1) {
                Some(x) => Some(Tile { x, y: self.y }),
                None => None,
            },
        }
    }
}

impl PlanarProjection for Tile {
    open spec fn spec_project(&self) -> (i32, i32) {
        (self.x, self.y)
    }

    fn project_coords(&self) -> (r: (i32, i32)) {
        (self.x, self.y)
    }
}

impl TileEq for Tile {
    open spec fn same_tile(&self, other: &Self) -> bool {
        *self == *other
    }

    fn tile_eq(&self, other: &Self) -> (r: bool) {
        self.x == other.x && self.y == other.y
    }

    fn duplicate(&self) -> (r: Self) {
        *self
    }

    proof fn lemma_same_tile_equivalence(a: Self, b: Self, c: Self) {
    }
}

/// Tiles obey the grid rule: a step followed by the opposite step comes back.
pub proof fn lemma_tile_go_inverse(t: Tile, dir: Direction)
    ensures
        t.spec_go(dir) matches Some(n) ==> n.spec_go(spec_inverse(dir)) == Some(t),
{
}

/// Moving `dir` moves the projection by exactly one unit that way.
pub proof fn lemma_tile_projection_follows_steps(t: Tile, dir: Direction)
    ensures
        t.spec_go(dir) matches Some(n) ==> n.spec_project().0 == t.spec_project().0 + match dir {
            Direction::Left => -1int,
            Direction::Right => 1int,
            _ => 0int,
        } && n.spec_project().1 == t.spec_project().1 + match dir {
            Direction::Down => -1int,
            Direction::Up => 1int,
            _ => 0int,
        },
{
}

} // verus!

