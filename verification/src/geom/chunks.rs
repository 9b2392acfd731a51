use vstd::prelude::*;

use crate::geom::grid::Direction;
use crate::geom::grid::Grid;
use crate::geom::grid::spec_inverse;
use crate::geom::grid::TileEq;

verus! {

pub const CHUNK_SIZE: i8 = 8;

/// A tile of a coarser grid, subdivided into `CHUNK_SIZE` by `CHUNK_SIZE` positions.
#[derive(Debug, PartialEq, Eq)]
pub struct Chunk<T> {
    tile: T,
    x: i8,
    y: i8,
}

impl<T> Chunk<T> {
    #[verifier::type_invariant]
    spec fn inside(self) -> bool {
        0 <= self.x < CHUNK_SIZE && 0 <= self.y < CHUNK_SIZE
    }

    pub closed spec fn spec_tile(self) -> T {
        self.tile
    }

    pub closed spec fn spec_x(self) -> int {
        self.x as int
    }

    pub closed spec fn spec_y(self) -> int {
        self.y as int
    }

    /// The tile's offsets, x then y. Both are in `0..CHUNK_SIZE`.
    pub open spec fn offsets(self) -> (int, int) {
        (self.spec_x(), self.spec_y())
    }
}

impl<T: Clone> Clone for Chunk<T> {
    fn clone(&self) -> (r: Self) {
        proof {
            use_type_invariant(self);
        }
        Chunk { tile: self.tile.clone(), x: self.x, y: self.y }
    }
}

/// The step of `dir` inside the chunk.
pub open spec fn chunk_delta(dir: Direction) -> (int, int) {
    match dir {
        Direction::Up => (0, 1),
        Direction::Down => (0, -1),
        Direction::Left => (-1, 0),
        Direction::Right => (1, 0),
    }
}

/// Whether stepping `dir` from `(x, y)` leaves the chunk.
pub open spec fn leaves_chunk(dir: Direction, x: int, y: int) -> bool {
    match dir {
        Direction::Up => y == CHUNK_SIZE - 1,
        Direction::Down => y == 0,
        Direction::Left => x == 0,
        Direction::Right => x == CHUNK_SIZE - 1,
    }
}

impl<T> Grid for Chunk<T> where T: Grid<Neighbor = T> + TileEq {
    type Neighbor = Self;

    /// Stepping inside the chunk keeps the tile; stepping out of it moves the tile
    /// and wraps around to the far side.
    closed spec fn spec_go(&self, dir: Direction) -> Option<Self> {
        let (x, y) = self.offsets();
        let tile = if leaves_chunk(dir, x, y) {
            self.tile.spec_go(dir)
        } else {
            Some(self.tile)
        };
        match tile {
            Some(t) => Some(
                Chunk {
                    tile: t,
                    x: ((x + chunk_delta(dir).0) % (CHUNK_SIZE as int)) as i8,
                    y: ((y + chunk_delta(dir).1) % (CHUNK_SIZE as int)) as i8,
                },
            ),
            None => None,
        }
    }

    fn go(&self, dir: Direction) -> (r: Option<Self>) {
        proof {
            use_type_invariant(self);
        }
        let last_valid_coord: i8 = CHUNK_SIZE - 1;
        let leaving = match dir {
            Direction::Up => self.y == last_valid_coord,
            Direction::Down => self.y == 0,
            Direction::Left => self.x == 0,
            Direction::Right => self.x == last_valid_coord,
        };
        let tile = if leaving {
            match self.tile.go(dir) {
                Some(t) => t,
                None => return None,
            }
        } else {
            self.tile.duplicate()
        };
        let dx: i8 = match dir {
            Direction::Left => -1,
            Direction::Right => 1,
            _ => 0,
        };
        let dy: i8 = match dir {
            Direction::Up => 1,
            Direction::Down => -1,
            _ => 0,
        };
        let x = wrap(self.x + dx);
        let y = wrap(self.y + dy);
        Some(Chunk { tile, x, y })
    }
}

/// Where every step of the coarse grid can be undone, so can every step between chunk
/// positions: a position's neighbor's neighbor the other way is the position itself.
pub proof fn lemma_chunk_go_inverse<T: Grid<Neighbor = T> + TileEq>(c: Chunk<T>, dir: Direction)
    requires
        0 <= c.spec_x() < CHUNK_SIZE,
        0 <= c.spec_y() < CHUNK_SIZE,
        forall|t: T, d: Direction|
            (#[trigger] t.spec_go(d)) matches Some(n) ==> n.spec_go(spec_inverse(d)) == Some(t),
    ensures
        c.spec_go(dir) matches Some(n) ==> n.spec_go(spec_inverse(dir)) == Some(c),
{
    if let Some(n) = c.spec_go(dir) {
        let (x, y) = c.offsets();
        if leaves_chunk(dir, x, y) {
            assert(c.tile.spec_go(dir) == Some(n.tile));
        }
        let back = n.spec_go(spec_inverse(dir));
        assert(back == Some(c));
    }
}

/// `v` taken into `0..CHUNK_SIZE` by adding or removing one `CHUNK_SIZE`.
fn wrap(v: i8) -> (r: i8)
    requires
        -CHUNK_SIZE <= v < 2 * CHUNK_SIZE,
    ensures
        r as int == (v as int) % (CHUNK_SIZE as int),
        0 <= r < CHUNK_SIZE,
{
    if v < 0 {
        v + CHUNK_SIZE
    } else if v >= CHUNK_SIZE {
        v - CHUNK_SIZE
    } else {
        v
    }
}

} // verus!
