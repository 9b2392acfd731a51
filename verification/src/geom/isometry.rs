use vstd::prelude::*;

use crate::geom::coords::dir_offset;
use crate::geom::coords::Coords;
use crate::geom::coords::PlanarProjection;
use crate::geom::grid::spec_inverse;
use crate::geom::grid::Direction;
use crate::geom::grid::Grid;

verus! {

/// One of the eight symmetries of the square grid.
#[derive(Debug, Clone, Copy, PartialEq, Eq, Structural)]
pub enum Orientation {
    UpRight,  // The Identity
    UpLeft,  // Flip X = 0
    DownRight,  // Flip Y = 0
    DownLeft,  // Rotate 180 degrees
    LeftUp,  // Rotate 90 degrees counterclockwise
    LeftDown,  // Flip Y = -X
    RightUp,  // Flip Y = X
    RightDown,  // Rotate 90 degrees clockwise
}

/// Whether two directions are perpendicular.
pub open spec fn perpendicular(a: Direction, b: Direction) -> bool {
    match a {
        Direction::Up | Direction::Down => b == Direction::Left || b == Direction::Right,
        Direction::Left | Direction::Right => b == Direction::Up || b == Direction::Down,
    }
}

/// Where the local up and local right directions point in the inner grid.
pub open spec fn spec_to_pair(o: Orientation) -> (Direction, Direction) {
    match o {
        Orientation::UpRight => (Direction::Up, Direction::Right),
        Orientation::UpLeft => (Direction::Up, Direction::Left),
        Orientation::DownRight => (Direction::Down, Direction::Right),
        Orientation::DownLeft => (Direction::Down, Direction::Left),
        Orientation::LeftUp => (Direction::Left, Direction::Up),
        Orientation::LeftDown => (Direction::Left, Direction::Down),
        Orientation::RightUp => (Direction::Right, Direction::Up),
        Orientation::RightDown => (Direction::Right, Direction::Down),
    }
}

/// The orientation whose up and right are `up` and `right`, if they are perpendicular.
pub open spec fn spec_new_from_dirs(up: Direction, right: Direction) -> Option<Orientation> {
    if perpendicular(up, right) {
        Some(choose|o: Orientation| spec_to_pair(o) == (up, right))
    } else {
        None
    }
}

pub open spec fn abs(x: int) -> int {
    if x < 0 {
        -x
    } else {
        x
    }
}

/// The orientation that takes the octant `0 <= y <= x` onto the octant holding `c`.
/// "right" is the direction with most contribution, "up" the one with second most.
pub open spec fn spec_new_from_symmetry(c: Coords) -> Orientation {
    let up = if c.y < 0 { Direction::Down } else { Direction::Up };
    let right = if c.x < 0 { Direction::Left } else { Direction::Right };
    if abs(c.x as int) < abs(c.y as int) {
        spec_new_from_dirs(right, up).unwrap()
    } else {
        spec_new_from_dirs(up, right).unwrap()
    }
}

pub open spec fn spec_orientation_inverse(o: Orientation) -> Orientation {
    match o {
        Orientation::RightDown => Orientation::LeftUp,
        Orientation::LeftUp => Orientation::RightDown,
        _ => o,
    }
}

/// The inner coordinates of the local point `(x, y)`.
pub open spec fn spec_local_to_inner(o: Orientation, x: int, y: int) -> (int, int) {
    match o {
        Orientation::UpLeft => (-x, y),
        Orientation::UpRight => (x, y),
        Orientation::DownLeft => (-x, -y),
        Orientation::DownRight => (x, -y),
        Orientation::LeftUp => (-y, x),
        Orientation::LeftDown => (-y, -x),
        Orientation::RightUp => (y, x),
        Orientation::RightDown => (y, -x),
    }
}

/// The local coordinates of the inner point `(x, y)`.
pub open spec fn spec_inner_to_local(o: Orientation, x: int, y: int) -> (int, int) {
    spec_local_to_inner(spec_orientation_inverse(o), x, y)
}

pub open spec fn fits_i32(p: (int, int)) -> bool {
    i32::MIN <= p.0 <= i32::MAX && i32::MIN <= p.1 <= i32::MAX
}

pub open spec fn spec_local_direction_to_inner(o: Orientation, d: Direction) -> Direction {
    match d {
        Direction::Up => spec_to_pair(o).0,
        Direction::Down => spec_inverse(spec_to_pair(o).0),
        Direction::Left => spec_inverse(spec_to_pair(o).1),
        Direction::Right => spec_to_pair(o).1,
    }
}

pub open spec fn spec_inner_direction_to_local(o: Orientation, d: Direction) -> Direction {
    spec_local_direction_to_inner(spec_orientation_inverse(o), d)
}

impl Orientation {
    pub fn new_from_dirs(up: Direction, right: Direction) -> (r: Option<Self>)
        ensures
            r == spec_new_from_dirs(up, right),
            r matches Some(o) ==> spec_to_pair(o) == (up, right),
    {
        let r = match (up, right) {
            (Direction::Up, Direction::Left) => Some(Self::UpLeft),
            (Direction::Up, Direction::Right) => Some(Self::UpRight),
            (Direction::Down, Direction::Left) => Some(Self::DownLeft),
            (Direction::Down, Direction::Right) => Some(Self::DownRight),
            (Direction::Left, Direction::Up) => Some(Self::LeftUp),
            (Direction::Left, Direction::Down) => Some(Self::LeftDown),
            (Direction::Right, Direction::Up) => Some(Self::RightUp),
            (Direction::Right, Direction::Down) => Some(Self::RightDown),
            _ => None,
        };
        proof {
            if let Some(o) = r {
                lemma_to_pair_injective(o);
            }
        }
        r
    }

    pub fn to_pair(self) -> (r: (Direction, Direction))
        ensures
            r == spec_to_pair(self),
    {
        match self {
            Orientation::UpRight => (Direction::Up, Direction::Right),
            Orientation::UpLeft => (Direction::Up, Direction::Left),
            Orientation::DownRight => (Direction::Down, Direction::Right),
            Orientation::DownLeft => (Direction::Down, Direction::Left),
            Orientation::LeftUp => (Direction::Left, Direction::Up),
            Orientation::LeftDown => (Direction::Left, Direction::Down),
            Orientation::RightUp => (Direction::Right, Direction::Up),
            Orientation::RightDown => (Direction::Right, Direction::Down),
        }
    }

    /// "right" is the direction with most contribution.
    /// "up" is the direction with second most contribution
    /// This puts the vec inside the octant x >= 0, y >= 0, y <= x.
    pub fn new_from_symmetry(coords: Coords) -> (r: Self)
        requires
            coords.x > i32::MIN,
            coords.y > i32::MIN,
        ensures
            r == spec_new_from_symmetry(coords),
    {
        let mut x = coords.x;
        let mut y = coords.y;
        let mut up = Direction::Up;
        let mut right = Direction::Right;

        if x < 0 {
            right = right.inverse();
            x *= -1;
        }
        if y < 0 {
            up = up.inverse();
            y *= -1;
        }
        if x < y {
            let tmp = up;
            up = right;
            right = tmp;
        }
        proof {
            let u = if coords.y < 0 { Direction::Down } else { Direction::Up };
            let rt = if coords.x < 0 { Direction::Left } else { Direction::Right };
            lemma_new_from_dirs_perpendicular(u, rt);
            lemma_new_from_dirs_perpendicular(rt, u);
        }
        match Self::new_from_dirs(up, right) {
            Some(o) => o,
            None => {
                proof {
                    assert(false);
                }
                Orientation::UpRight
            },
        }
    }

    pub fn to_up(self) -> (r: Direction)
        ensures
            r == spec_to_pair(self).0,
    {
        self.to_pair().0
    }

    pub fn to_right(self) -> (r: Direction)
        ensures
            r == spec_to_pair(self).1,
    {
        self.to_pair().1
    }

    pub fn inverse(self) -> (r: Self)
        ensures
            r == spec_orientation_inverse(self),
    {
        match self {
            Orientation::RightDown => Self::LeftUp,
            Orientation::LeftUp => Self::RightDown,
            // All other orientations are flips, 180 degree rotations, and the identity
            // These are their own identity
            _ => self,
        }
    }

    pub fn local_coords_to_inner(self, local: Coords) -> (r: Coords)
        requires
            fits_i32(spec_local_to_inner(self, local.x as int, local.y as int)),
        ensures
            (r.x as int, r.y as int) == spec_local_to_inner(self, local.x as int, local.y as int),
    {
        let x = local.x;
        let y = local.y;
        let (inner_x, inner_y) = match self {
            Self::UpLeft => (-x, y),
            Self::UpRight => (x, y),
            Self::DownLeft => (-x, -y),
            Self::DownRight => (x, -y),
            Self::LeftUp => (-y, x),
            Self::LeftDown => (-y, -x),
            Self::RightUp => (y, x),
            Self::RightDown => (y, -x),
        };
        Coords::new(inner_x, inner_y)
    }

    pub fn inner_coords_to_local(self, inner: Coords) -> (r: Coords)
        requires
            fits_i32(spec_inner_to_local(self, inner.x as int, inner.y as int)),
        ensures
            (r.x as int, r.y as int) == spec_inner_to_local(self, inner.x as int, inner.y as int),
    {
        self.inverse().local_coords_to_inner(inner)
    }

    pub fn local_direction_to_inner(self, local_dir: Direction) -> (r: Direction)
        ensures
            r == spec_local_direction_to_inner(self, local_dir),
    {
        match local_dir {
            Direction::Up => self.to_up(),
            Direction::Down => self.to_up().inverse(),
            Direction::Left => self.to_right().inverse(),
            Direction::Right => self.to_right(),
        }
    }

    pub fn inner_direction_to_local(self, inner_dir: Direction) -> (r: Direction)
        ensures
            r == spec_inner_direction_to_local(self, inner_dir),
    {
        self.inverse().local_direction_to_inner(inner_dir)
    }
}

/// Each orientation is determined by its (up, right) pair, and that pair is perpendicular.
pub proof fn lemma_to_pair_injective(o: Orientation)
    ensures
        perpendicular(spec_to_pair(o).0, spec_to_pair(o).1),
        forall|p: Orientation| spec_to_pair(p) == spec_to_pair(o) ==> p == o,
        spec_new_from_dirs(spec_to_pair(o).0, spec_to_pair(o).1) == Some(o),
{
    let pair = spec_to_pair(o);
    assert(spec_to_pair(o) == pair);
    let c = choose|q: Orientation| spec_to_pair(q) == pair;
    assert(spec_to_pair(c) == pair);
}

/// Perpendicular pairs are exactly the pairs of some orientation.
pub proof fn lemma_new_from_dirs_perpendicular(up: Direction, right: Direction)
    ensures
        spec_new_from_dirs(up, right) is Some <==> perpendicular(up, right),
        spec_new_from_dirs(up, right) matches Some(o) ==> spec_to_pair(o) == (up, right),
{
    if perpendicular(up, right) {
        let o = match (up, right) {
            (Direction::Up, Direction::Left) => Orientation::UpLeft,
            (Direction::Up, Direction::Right) => Orientation::UpRight,
            (Direction::Down, Direction::Left) => Orientation::DownLeft,
            (Direction::Down, Direction::Right) => Orientation::DownRight,
            (Direction::Left, Direction::Up) => Orientation::LeftUp,
            (Direction::Left, Direction::Down) => Orientation::LeftDown,
            (Direction::Right, Direction::Up) => Orientation::RightUp,
            _ => Orientation::RightDown,
        };
        assert(spec_to_pair(o) == (up, right));
    }
}

/// Inverting an orientation twice gives it back, and the inverse undoes the coordinate
/// change in both orders.
pub proof fn lemma_orientation_inverse(o: Orientation, x: int, y: int)
    ensures
        spec_orientation_inverse(spec_orientation_inverse(o)) == o,
        ({
            let (ix, iy) = spec_local_to_inner(o, x, y);
            spec_inner_to_local(o, ix, iy) == (x, y)
        }),
        ({
            let (lx, ly) = spec_inner_to_local(o, x, y);
            spec_local_to_inner(o, lx, ly) == (x, y)
        }),
{
}

/// Translating a direction to the inner grid and back gives the same direction, and the
/// coordinate change maps the unit step of a local direction onto the unit step of its
/// inner direction.
pub proof fn lemma_direction_translation(o: Orientation, d: Direction)
    ensures
        spec_inner_direction_to_local(o, spec_local_direction_to_inner(o, d)) == d,
        spec_local_direction_to_inner(o, spec_inner_direction_to_local(o, d)) == d,
        spec_local_to_inner(o, dir_offset(d).0, dir_offset(d).1) == dir_offset(
            spec_local_direction_to_inner(o, d),
        ),
{
}

/// Where every step of the inner grid can be undone, so can every step of its isometry:
/// a tile's neighbor's neighbor the other way is the tile itself.
pub proof fn lemma_isometry_go_inverse<T: Grid<Neighbor = T>>(g: GridIsometry<T>, dir: Direction)
    requires
        forall|t: T, d: Direction|
            (#[trigger] t.spec_go(d)) matches Some(n) ==> n.spec_go(spec_inverse(d)) == Some(t),
    ensures
        g.spec_go(dir) matches Some(n) ==> n.spec_go(spec_inverse(dir)) == Some(g),
{
    let inner = spec_local_direction_to_inner(g.orientation, dir);
    assert(spec_local_direction_to_inner(g.orientation, spec_inverse(dir)) == spec_inverse(inner));
    if let Some(t) = g.tile.spec_go(inner) {
        assert(t.spec_go(spec_inverse(inner)) == Some(g.tile));
    }
}

/// Where every step of the inner grid moves its projection by the step's offset, every step
/// of the isometry moves its own projection by the offset of the local step: up adds one
/// to `y`, right adds one to `x`.
pub proof fn lemma_isometry_projection_follows_steps<T: Grid<Neighbor = T> + PlanarProjection>(
    g: GridIsometry<T>,
    dir: Direction,
)
    requires
        forall|t: T, d: Direction|
            (#[trigger] t.spec_go(d)) matches Some(n) ==> (t.projectable() && n.projectable()
                ==> n.spec_project().x == t.spec_project().x + dir_offset(d).0 && n.spec_project().y
                == t.spec_project().y + dir_offset(d).1),
        g.projectable(),
    ensures
        g.spec_go(dir) matches Some(n) ==> (n.projectable() ==> n.spec_project().x == g.spec_project().x
            + dir_offset(dir).0 && n.spec_project().y == g.spec_project().y + dir_offset(dir).1),
{
    let o = g.orientation;
    let inner = spec_local_direction_to_inner(o, dir);
    lemma_direction_translation(o, dir);
    lemma_orientation_inverse(o, dir_offset(dir).0, dir_offset(dir).1);
    if let Some(n) = g.spec_go(dir) {
        if n.projectable() {
            assert(g.tile.spec_go(inner) == Some(n.tile));
        }
    }
}

/// The orientation chosen by symmetry takes its coordinates into the octant `0 <= y <= x`.
pub proof fn lemma_symmetry_lands_in_octant(c: Coords)
    ensures
        ({
            let (lx, ly) = spec_inner_to_local(spec_new_from_symmetry(c), c.x as int, c.y as int);
            0 <= ly <= lx && lx == (if abs(c.x as int) < abs(c.y as int) {
                abs(c.y as int)
            } else {
                abs(c.x as int)
            })
        }),
{
    let up = if c.y < 0 { Direction::Down } else { Direction::Up };
    let right = if c.x < 0 { Direction::Left } else { Direction::Right };
    lemma_new_from_dirs_perpendicular(up, right);
    lemma_new_from_dirs_perpendicular(right, up);
    let o = spec_new_from_symmetry(c);
    lemma_to_pair_injective(o);
}

/// Moving up on this grid moves `Isometry::Up` instead.
///
/// Moving right on this grid moves perpendicular.
#[derive(Clone, Copy)]
pub struct GridIsometry<T: Grid> {
    pub tile: T,
    pub orientation: Orientation,
}

impl<T: Grid> GridIsometry<T> {
    pub fn new_from_symmetry(tile: T, coords: Coords) -> (r: GridIsometry<T>)
        requires
            coords.x > i32::MIN,
            coords.y > i32::MIN,
        ensures
            r.tile == tile,
            r.orientation == spec_new_from_symmetry(coords),
    {
        GridIsometry { tile, orientation: Orientation::new_from_symmetry(coords) }
    }

    pub fn new_from_orientation(tile: T, orientation: Orientation) -> (r: GridIsometry<T>)
        ensures
            r.tile == tile,
            r.orientation == orientation,
    {
        GridIsometry { tile, orientation }
    }

    pub fn new_from_dirs(tile: T, up: Direction, right: Direction) -> (r: Option<GridIsometry<T>>)
        ensures
            r.is_some() == spec_new_from_dirs(up, right).is_some(),
            r matches Some(i) ==> i.tile == tile && Some(i.orientation) == spec_new_from_dirs(
                up,
                right,
            ),
    {
        match Orientation::new_from_dirs(up, right) {
            Some(orientation) => Some(GridIsometry { tile, orientation }),
            None => None,
        }
    }

    pub fn forget(self) -> (r: T)
        ensures
            r == self.tile,
    {
        self.tile
    }
}

impl<T: Grid<Neighbor = T>> Grid for GridIsometry<T> {
    type Neighbor = Self;

    open spec fn spec_go(&self, dir: Direction) -> Option<Self> {
        match self.tile.spec_go(spec_local_direction_to_inner(self.orientation, dir)) {
            Some(tile) => Some(GridIsometry { tile, orientation: self.orientation }),
            None => None,
        }
    }

    fn go(&self, dir: Direction) -> (r: Option<Self>) {
        match self.tile.go(self.orientation.local_direction_to_inner(dir)) {
            Some(tile) => Some(GridIsometry { tile, orientation: self.orientation }),
            None => None,
        }
    }
}

/// Calling `Grid::up` must increase the y value by 1.
/// Calling `Grid::right` must increase the x value by 1.
impl<T: Grid<Neighbor = T> + PlanarProjection> PlanarProjection for GridIsometry<T> {
    open spec fn projectable(&self) -> bool {
        &&& self.tile.projectable()
        &&& fits_i32(
            spec_inner_to_local(
                self.orientation,
                self.tile.spec_project().x as int,
                self.tile.spec_project().y as int,
            ),
        )
    }

    open spec fn spec_project(&self) -> Coords {
        let (x, y) = spec_inner_to_local(
            self.orientation,
            self.tile.spec_project().x as int,
            self.tile.spec_project().y as int,
        );
        Coords { x: x as i32, y: y as i32 }
    }

    fn project_coords(&self) -> (r: Coords) {
        self.orientation.inner_coords_to_local(self.tile.project_coords())
    }
}

} // verus!
