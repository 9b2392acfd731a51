use vstd::prelude::*;

use crate::geom::grid::TileEq;
use crate::geom::tiles::Direction;
use crate::geom::tiles::Grid;
use crate::geom::tiles::spec_inverse;
use crate::geom::tiles::PlanarProjection;

verus! {

/// A set of tiles, each with a decoration. Tiles are connected if both are in the map.
#[derive(Debug)]
pub struct TileMap<T, D = ()> {
    tiles: Vec<(T, D)>,
}

/// Whether `i` is the first index of `s` whose tile is the same as `t`.
pub open spec fn is_first_match<T: TileEq, D>(s: Seq<(T, D)>, t: &T, i: int) -> bool {
    &&& 0 <= i < s.len()
    &&& s[i].0.same_tile(t)
    &&& forall|j: int| 0 <= j < i ==> !(#[trigger] s[j].0).same_tile(t)
}

impl<T: TileEq, D> TileMap<T, D> {
    /// The tiles and decorations, in insertion order.
    pub closed spec fn entries(&self) -> Seq<(T, D)> {
        self.tiles@
    }

    pub open spec fn spec_contains(&self, t: &T) -> bool {
        exists|i: int| 0 <= i < self.entries().len() && (#[trigger] self.entries()[i]).0.same_tile(t)
    }

    /// The index where `t` is stored, if any.
    pub open spec fn spec_index_of(&self, t: &T) -> Option<int> {
        if exists|i: int| is_first_match(self.entries(), t, i) {
            Some(choose|i: int| is_first_match(self.entries(), t, i))
        } else {
            None
        }
    }

    pub fn new_empty() -> (r: Self)
        ensures
            r.entries() == Seq::<(T, D)>::empty(),
    {
        Self { tiles: Vec::new() }
    }

    fn find(&self, tile: &T) -> (r: Option<usize>)
        ensures
            r matches Some(i) ==> is_first_match(self.entries(), tile, i as int),
            r is None ==> !self.spec_contains(tile),
    {
        let mut i: usize = 0;
        while i < self.tiles.len()
            invariant
                i <= self.tiles@.len(),
                forall|j: int| 0 <= j < i ==> !(#[trigger] self.tiles@[j]).0.same_tile(tile),
            decreases self.tiles@.len() - i,
        {
            if self.tiles[i].0.tile_eq(tile) {
                return Some(i);
            }
            i += 1;
        }
        None
    }

    /// Adds a tile with its decoration, or replaces the decoration of the same tile.
    /// Returns the replaced decoration.
    pub fn insert(&mut self, tile: T, decoration: D) -> (r: Option<D>)
        ensures
            match old(self).spec_index_of(&tile) {
                Some(i) => {
                    &&& r == Some(old(self).entries()[i].1)
                    &&& final(self).entries() == old(self).entries().update(
                        i,
                        (old(self).entries()[i].0, decoration),
                    )
                },
                None => {
                    &&& r is None
                    &&& final(self).entries() == old(self).entries().push((tile, decoration))
                },
            },
    {
        match self.find(&tile) {
            Some(i) => {
                proof {
                    lemma_first_match_unique(self.entries(), &tile, i as int);
                }
                let (key, old_decoration) = self.tiles.remove(i);
                self.tiles.insert(i, (key, decoration));
                Some(old_decoration)
            },
            None => {
                proof {
                    if exists|i: int| is_first_match(self.entries(), &tile, i) {
                        let i = choose|i: int| is_first_match(self.entries(), &tile, i);
                        assert(self.entries()[i].0.same_tile(&tile));
                    }
                }
                self.tiles.push((tile, decoration));
                None
            },
        }
    }

    /// The map's copy of `tile`, as an element that can walk the map.
    pub fn locate<'a>(&'a self, tile: &T) -> (r: Option<InTilemap<'a, T, D>>)
        ensures
            r == self.spec_locate(tile),
            r is Some <==> self.spec_contains(tile),
    {
        match self.find(tile) {
            Some(i) => {
                proof {
                    lemma_first_match_unique(self.entries(), tile, i as int);
                }
                Some(InTilemap { map: self, tile: &self.tiles[i].0 })
            },
            None => {
                proof {
                    if exists|i: int| is_first_match(self.entries(), tile, i) {
                        let i = choose|i: int| is_first_match(self.entries(), tile, i);
                        assert(self.entries()[i].0.same_tile(tile));
                    }
                }
                None
            },
        }
    }

    pub open spec fn spec_locate<'a>(&'a self, tile: &T) -> Option<InTilemap<'a, T, D>> {
        match self.spec_index_of(tile) {
            Some(i) => Some(InTilemap { map: self, tile: &self.entries()[i].0 }),
            None => None,
        }
    }
}

/// Where every step of the tiles can be undone and the same tile means the equal tile,
/// every step inside the map can be undone too, from a tile the map holds.
pub proof fn lemma_tilemap_go_inverse<'a, T: TileEq + Grid<NeighborType = T>, D>(e: InTilemap<'a, T, D>, dir: Direction)
    requires
        forall|t: T, d: Direction|
            (#[trigger] t.spec_go(d)) matches Some(n) ==> n.spec_go(spec_inverse(d)) == Some(t),
        forall|a: T, b: T| #[trigger] a.same_tile(&b) <==> a == b,
        e.map.spec_contains(e.tile),
    ensures
        e.spec_go(dir) matches Some(n) ==> n.spec_go(spec_inverse(dir)) == Some(e),
{
    let m = e.map;
    if let Some(n) = e.spec_go(dir) {
        let t = e.tile.spec_go(dir)->0;
        let i = choose|i: int| is_first_match(m.entries(), &t, i);
        assert(m.entries()[i].0.same_tile(&t));
        assert(*n.tile == t);
        assert(t.spec_go(spec_inverse(dir)) == Some(*e.tile));
        let k = choose|k: int| 0 <= k < m.entries().len() && (#[trigger] m.entries()[k]).0.same_tile(e.tile);
        lemma_some_first_match(m.entries(), e.tile, k);
        let f = choose|f: int| is_first_match(m.entries(), e.tile, f);
        assert(m.entries()[f].0 == *e.tile);
    }
}

/// A sequence holding a tile has a first index holding it.
proof fn lemma_some_first_match<T: TileEq, D>(s: Seq<(T, D)>, t: &T, k: int)
    requires
        0 <= k < s.len(),
        s[k].0.same_tile(t),
    ensures
        exists|f: int| is_first_match(s, t, f),
    decreases k,
{
    if forall|j: int| 0 <= j < k ==> !(#[trigger] s[j].0).same_tile(t) {
        assert(is_first_match(s, t, k));
    } else {
        let j = choose|j: int| 0 <= j < k && (#[trigger] s[j].0).same_tile(t);
        lemma_some_first_match(s, t, j);
    }
}

/// The first match is unique.
pub proof fn lemma_first_match_unique<T: TileEq, D>(s: Seq<(T, D)>, t: &T, i: int)
    requires
        is_first_match(s, t, i),
    ensures
        forall|k: int| is_first_match(s, t, k) ==> k == i,
        (choose|k: int| is_first_match(s, t, k)) == i,
{
    assert forall|k: int| is_first_match(s, t, k) implies k == i by {
        if k < i {
            assert(!s[k].0.same_tile(t));
        }
        if i < k {
            assert(!s[i].0.same_tile(t));
        }
    }
}

#[derive(Debug)]
pub struct InTilemap<'a, T, D> {
    pub map: &'a TileMap<T, D>,
    pub tile: &'a T,
}

impl<'a, T: TileEq + Grid<NeighborType = T>, D> Grid for InTilemap<'a, T, D> {
    type NeighborType = Self;

    open spec fn spec_go(&self, dir: Direction) -> Option<Self> {
        match self.tile.spec_go(dir) {
            Some(n) => self.map.spec_locate(&n),
            None => None,
        }
    }

    fn go(&self, dir: Direction) -> (r: Option<Self>) {
        match self.tile.go(dir) {
            Some(n) => self.map.locate(&n),
            None => None,
        }
    }
}

impl<'a, T: TileEq + Grid<NeighborType = T> + PlanarProjection, D> PlanarProjection for InTilemap<
    'a,
    T,
    D,
> {
    open spec fn spec_project(&self) -> (i32, i32) {
        self.tile.spec_project()
    }

    fn project_coords(&self) -> (r: (i32, i32)) {
        self.tile.project_coords()
    }
}

} // verus!
