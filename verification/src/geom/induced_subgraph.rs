use vstd::prelude::*;
use std::rc::Rc;

use crate::geom::coords::Coords;
use crate::geom::coords::PlanarProjection;
use crate::geom::grid::Direction;
use crate::geom::grid::Grid;
use crate::geom::grid::spec_inverse;
use crate::geom::grid::TileEq;

verus! {

/// Implementors are runtime defined induced subgraphs of the tiles. Tiles are still connected as they defined.
///
/// Trait implementors can use `InducedSubgraphElement` to traverse the subset, since it implements `Grid`.
pub trait IsInducedSubgraph: Clone + Sized {
    type Original: Grid<Neighbor = Self::Original>;

    spec fn spec_to_grid(&self, tile: &Self::Original) -> Option<InducedSubgraphElement<Self>>;

    fn to_grid(&self, tile: &Self::Original) -> (r: Option<InducedSubgraphElement<Self>>)
        ensures
            r == self.spec_to_grid(tile),
    ;

    /// Another handle to the same subgraph.
    fn share(&self) -> (r: Self)
        ensures
            r == *self,
    ;
}

#[derive(Debug)]
pub struct InducedSubgraphElement<Subgraph> where Subgraph: IsInducedSubgraph {
    pub map: Subgraph,
    pub tile: Subgraph::Original,
}

impl<Subgraph: IsInducedSubgraph> Clone for InducedSubgraphElement<Subgraph> {
    fn clone(&self) -> (r: Self) {
        InducedSubgraphElement { map: self.map.share(), tile: self.tile.clone() }
    }
}

impl<Subgraph: IsInducedSubgraph> Grid for InducedSubgraphElement<Subgraph> {
    type Neighbor = Self;

    open spec fn spec_go(&self, dir: Direction) -> Option<Self> {
        match self.tile.spec_go(dir) {
            Some(n) => self.map.spec_to_grid(&n),
            None => None,
        }
    }

    fn go(&self, dir: Direction) -> (r: Option<Self>) {
        match self.tile.go(dir) {
            Some(n) => self.map.share().to_grid(&n),
            None => None,
        }
    }
}

impl<Subset> PlanarProjection for InducedSubgraphElement<Subset> where
    Subset: IsInducedSubgraph,
    Subset::Original: PlanarProjection,
 {
    open spec fn projectable(&self) -> bool {
        self.tile.projectable()
    }

    open spec fn spec_project(&self) -> Coords {
        self.tile.spec_project()
    }

    fn project_coords(&self) -> (r: Coords) {
        self.tile.project_coords()
    }
}

/// Elements are equal when their tiles are; the subgraph is not compared.
impl<Subgraph> PartialEq for InducedSubgraphElement<Subgraph> where
    Subgraph: IsInducedSubgraph,
    Subgraph::Original: TileEq,
 {
    fn eq(&self, other: &Self) -> (r: bool) {
        self.tile.tile_eq(&other.tile)
    }
}

impl<Subgraph> vstd::std_specs::cmp::PartialEqSpecImpl for InducedSubgraphElement<Subgraph> where
    Subgraph: IsInducedSubgraph,
    Subgraph::Original: TileEq,
 {
    open spec fn obeys_eq_spec() -> bool {
        true
    }

    open spec fn eq_spec(&self, other: &Self) -> bool {
        self.tile.same_tile(&other.tile)
    }
}

impl<Subgraph> TileEq for InducedSubgraphElement<Subgraph> where
    Subgraph: IsInducedSubgraph,
    Subgraph::Original: TileEq,
 {
    /// Elements are the same when their tiles are: the subgraph is not compared.
    open spec fn same_tile(&self, other: &Self) -> bool {
        self.tile.same_tile(&other.tile)
    }

    fn tile_eq(&self, other: &Self) -> (r: bool) {
        self.tile.tile_eq(&other.tile)
    }

    fn duplicate(&self) -> (r: Self) {
        InducedSubgraphElement { map: self.map.share(), tile: self.tile.duplicate() }
    }

    proof fn lemma_same_tile_equivalence(a: Self, b: Self, c: Self) {
        Subgraph::Original::lemma_same_tile_equivalence(a.tile, b.tile, c.tile);
    }
}

/// A set of tiles, connected if they exist in the set.
#[derive(Debug)]
pub struct IndoorsMap<T>(Vec<T>);

/// Whether `i` is the first index of `s` holding the same tile as `t`.
pub open spec fn is_first_same<T: TileEq>(s: Seq<T>, t: &T, i: int) -> bool {
    &&& 0 <= i < s.len()
    &&& s[i].same_tile(t)
    &&& forall|j: int| 0 <= j < i ==> !(#[trigger] s[j]).same_tile(t)
}

/// The first match is unique.
pub proof fn lemma_first_same_unique<T: TileEq>(s: Seq<T>, t: &T, i: int)
    requires
        is_first_same(s, t, i),
    ensures
        (choose|k: int| is_first_same(s, t, k)) == i,
{
    assert forall|k: int| is_first_same(s, t, k) implies k == i by {
        if k < i {
            assert(!s[k].same_tile(t));
        }
        if i < k {
            assert(!s[i].same_tile(t));
        }
    }
}

impl<T: TileEq> IndoorsMap<T> {
    /// The tiles of the set, in insertion order.
    pub closed spec fn tiles(&self) -> Seq<T> {
        self.0@
    }

    pub open spec fn spec_contains(&self, t: &T) -> bool {
        exists|i: int| 0 <= i < self.tiles().len() && (#[trigger] self.tiles()[i]).same_tile(t)
    }

    /// The index of the copy of `t` held by the set.
    pub open spec fn spec_index_of(&self, t: &T) -> Option<int> {
        if exists|i: int| is_first_same(self.tiles(), t, i) {
            Some(choose|i: int| is_first_same(self.tiles(), t, i))
        } else {
            None
        }
    }

    pub fn new_empty() -> (r: Self)
        ensures
            r.tiles() == Seq::<T>::empty(),
    {
        Self(Vec::new())
    }

    fn find(&self, tile: &T) -> (r: Option<usize>)
        ensures
            r matches Some(i) ==> self.spec_index_of(tile) == Some(i as int),
            r is None ==> self.spec_index_of(tile) is None && !self.spec_contains(tile),
    {
        let mut i: usize = 0;
        while i < self.0.len()
            invariant
                i <= self.0@.len(),
                forall|j: int| 0 <= j < i ==> !(#[trigger] self.0@[j]).same_tile(tile),
            decreases self.0@.len() - i,
        {
            if self.0[i].tile_eq(tile) {
                proof {
                    lemma_first_same_unique(self.tiles(), tile, i as int);
                }
                return Some(i);
            }
            i += 1;
        }
        None
    }

    /// Adds `tile` unless the same tile is present. Returns whether it was added.
    pub fn insert(&mut self, tile: T) -> (r: bool)
        ensures
            r == !old(self).spec_contains(&tile),
            r ==> final(self).tiles() == old(self).tiles().push(tile),
            !r ==> final(self).tiles() == old(self).tiles(),
    {
        match self.find(&tile) {
            Some(_) => false,
            None => {
                self.0.push(tile);
                true
            },
        }
    }
}

impl<'a, T> IsInducedSubgraph for &'a IndoorsMap<T> where T: Grid<Neighbor = T> + TileEq {
    type Original = T;

    open spec fn spec_to_grid(&self, tile: &T) -> Option<InducedSubgraphElement<Self>> {
        match (*self).spec_index_of(tile) {
            Some(i) => Some(InducedSubgraphElement { map: *self, tile: (*self).tiles()[i] }),
            None => None,
        }
    }

    fn to_grid(&self, tile: &T) -> (r: Option<InducedSubgraphElement<Self>>) {
        match (*self).find(tile) {
            Some(i) => Some(InducedSubgraphElement { map: *self, tile: self.0[i].duplicate() }),
            None => None,
        }
    }

    fn share(&self) -> (r: Self) {
        *self
    }
}

/// Where every step of the original grid can be undone and the same tile means the equal
/// tile, every step inside the set can be undone too, from a tile the set holds.
pub proof fn lemma_induced_go_inverse<'a, T: Grid<Neighbor = T> + TileEq>(
    e: InducedSubgraphElement<&'a IndoorsMap<T>>,
    dir: Direction,
)
    requires
        forall|t: T, d: Direction|
            (#[trigger] t.spec_go(d)) matches Some(n) ==> n.spec_go(spec_inverse(d)) == Some(t),
        forall|a: T, b: T| #[trigger] a.same_tile(&b) <==> a == b,
        e.map.spec_contains(&e.tile),
    ensures
        e.spec_go(dir) matches Some(n) ==> n.spec_go(spec_inverse(dir)) == Some(e),
{
    let m = *e.map;
    if let Some(n) = e.spec_go(dir) {
        let t = e.tile.spec_go(dir)->0;
        let i = choose|i: int| is_first_same(m.tiles(), &t, i);
        assert(m.tiles()[i].same_tile(&t));
        assert(n.tile == t);
        assert(t.spec_go(spec_inverse(dir)) == Some(e.tile));
        let k = choose|k: int| 0 <= k < m.tiles().len() && (#[trigger] m.tiles()[k]).same_tile(&e.tile);
        lemma_some_first_same(m.tiles(), &e.tile, k);
        let f = choose|f: int| is_first_same(m.tiles(), &e.tile, f);
        assert(m.tiles()[f] == e.tile);
    }
}

/// A sequence holding a tile has a first index holding it.
proof fn lemma_some_first_same<T: TileEq>(s: Seq<T>, t: &T, k: int)
    requires
        0 <= k < s.len(),
        s[k].same_tile(t),
    ensures
        exists|f: int| is_first_same(s, t, f),
    decreases k,
{
    if forall|j: int| 0 <= j < k ==> !(#[trigger] s[j]).same_tile(t) {
        assert(is_first_same(s, t, k));
    } else {
        let j = choose|j: int| 0 <= j < k && (#[trigger] s[j]).same_tile(t);
        lemma_some_first_same(s, t, j);
    }
}

impl<T> IsInducedSubgraph for Rc<IndoorsMap<T>> where T: Grid<Neighbor = T> + TileEq {
    type Original = T;

    open spec fn spec_to_grid(&self, tile: &T) -> Option<InducedSubgraphElement<Self>> {
        match (**self).spec_index_of(tile) {
            Some(i) => Some(InducedSubgraphElement { map: *self, tile: (**self).tiles()[i] }),
            None => None,
        }
    }

    fn to_grid(&self, tile: &T) -> (r: Option<InducedSubgraphElement<Self>>) {
        match (**self).find(tile) {
            Some(i) => Some(InducedSubgraphElement { map: Rc::clone(self), tile: self.0[i].duplicate() }),
            None => None,
        }
    }

    fn share(&self) -> (r: Self) {
        Rc::clone(self)
    }
}

} // verus!
