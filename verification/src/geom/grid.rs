use vstd::prelude::*;

verus! {

/// Each square tile has four neighbors.
/// A tile's up neighbor's down neighbor must be itself.
/// A tile's right neighbor's left neighbor must be itself.
#[derive(Debug, Clone, Copy, PartialEq, Eq, Structural, Hash)]
pub enum Direction {
    Up,
    Down,
    Left,
    Right,
}

/// The direction that undoes `dir`.
pub open spec fn spec_inverse(dir: Direction) -> Direction {
    match dir {
        Direction::Up => Direction::Down,
        Direction::Down => Direction::Up,
        Direction::Left => Direction::Right,
        Direction::Right => Direction::Left,
    }
}

impl Direction {
    pub fn inverse(self) -> (r: Direction)
        ensures
            r == spec_inverse(self),
    {
        match self {
            Direction::Up => Direction::Down,
            Direction::Down => Direction::Up,
            Direction::Left => Direction::Right,
            Direction::Right => Direction::Left,
        }
    }
}

/// Inverting a direction twice gives it back, and never gives the same direction.
pub proof fn lemma_inverse_involution(dir: Direction)
    ensures
        spec_inverse(spec_inverse(dir)) == dir,
        spec_inverse(dir) != dir,
{
}

/// Subgraphs of the grid graph.
///
/// Implementors must ensure:
/// `t.up() == None || t.up().down() == Some(t)`
/// `t.right() == None || t.right().left() == Some(t)`
pub trait Grid: Clone + Sized {
    type Neighbor;

    spec fn spec_go(&self, dir: Direction) -> Option<Self::Neighbor>;

    fn go(&self, dir: Direction) -> (r: Option<Self::Neighbor>)
        ensures
            r == self.spec_go(dir),
    ;
}

/// A convenience to avoid `and_then` all over the place.
impl<T: Grid> Grid for Option<T> {
    type Neighbor = T::Neighbor;

    open spec fn spec_go(&self, dir: Direction) -> Option<T::Neighbor> {
        match self {
            Some(t) => t.spec_go(dir),
            None => None,
        }
    }

    fn go(&self, dir: Direction) -> (r: Option<T::Neighbor>) {
        match self {
            Some(t) => t.go(dir),
            None => None,
        }
    }
}

pub trait GridShortcuts: Grid {
    fn up(&self) -> (r: Option<Self::Neighbor>)
        ensures
            r == self.spec_go(Direction::Up),
    {
        self.go(Direction::Up)
    }

    fn down(&self) -> (r: Option<Self::Neighbor>)
        ensures
            r == self.spec_go(Direction::Down),
    {
        self.go(Direction::Down)
    }

    fn left(&self) -> (r: Option<Self::Neighbor>)
        ensures
            r == self.spec_go(Direction::Left),
    {
        self.go(Direction::Left)
    }

    fn right(&self) -> (r: Option<Self::Neighbor>)
        ensures
            r == self.spec_go(Direction::Right),
    {
        self.go(Direction::Right)
    }
}

impl<T: Grid> GridShortcuts for T {}

/// Tiles that can be told apart and copied.
///
/// `same_tile` is the equality used wherever a set of tiles is searched.
pub trait TileEq: Sized {
    spec fn same_tile(&self, other: &Self) -> bool;

    fn tile_eq(&self, other: &Self) -> (r: bool)
        ensures
            r == self.same_tile(other),
    ;

    fn duplicate(&self) -> (r: Self)
        ensures
            r == *self,
    ;

    /// `same_tile` is an equivalence relation.
    proof fn lemma_same_tile_equivalence(a: Self, b: Self, c: Self)
        ensures
            a.same_tile(&a),
            a.same_tile(&b) ==> b.same_tile(&a),
            a.same_tile(&b) && b.same_tile(&c) ==> a.same_tile(&c),
    ;
}

} // verus!
