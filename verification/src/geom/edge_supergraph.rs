use vstd::prelude::*;
use std::rc::Rc;

use crate::geom::coords::dir_offset;
use crate::geom::coords::Coords;
use crate::geom::coords::PlanarProjection;
use crate::geom::grid::lemma_inverse_involution;
use crate::geom::grid::spec_inverse;
use crate::geom::grid::Direction;
use crate::geom::grid::Grid;
use crate::geom::grid::TileEq;

verus! {

/// A grid with extra edges added on top of the edges it already has.
pub trait IsPlanarEdgeSupergraph: Clone + Sized {
    type Original: Grid<Neighbor = Self::Original> + PlanarProjection;

    spec fn spec_added_edge(&self, from: &Self::Original, dir: Direction) -> Option<Self::Original>;

    /// Another handle to the same supergraph.
    fn share(&self) -> (r: Self)
        ensures
            r == *self,
    ;

    // There does not exist an alternate implementation.
    fn to_grid(&self, tile: Self::Original) -> (r: SupergraphElement<Self>)
        ensures
            r.original == *self,
            r.tile == tile,
    {
        SupergraphElement { original: self.share(), tile }
    }

    /// This will only be called when `from` does not have a `dir` neighbor.
    /// This only needs to return Some for edges not already in the graph.
    ///
    /// Implementers, be sure that `get_edge(get_edge(from, dir)?, dir.inverse()) == from`
    fn get_added_edge(&self, from: &Self::Original, dir: Direction) -> (r: Option<Self::Original>)
        ensures
            r == self.spec_added_edge(from, dir),
    ;
}

#[derive(Debug)]
pub struct SupergraphElement<Supergraph> where Supergraph: IsPlanarEdgeSupergraph {
    pub original: Supergraph,
    pub tile: Supergraph::Original,
}

impl<S: IsPlanarEdgeSupergraph> Clone for SupergraphElement<S> {
    fn clone(&self) -> (r: Self) {
        SupergraphElement { original: self.original.share(), tile: self.tile.clone() }
    }
}

impl<T: IsPlanarEdgeSupergraph> Grid for SupergraphElement<T> {
    type Neighbor = Self;

    /// An original edge is taken first; an added edge only where there is none.
    open spec fn spec_go(&self, dir: Direction) -> Option<Self> {
        let next = match self.tile.spec_go(dir) {
            Some(n) => Some(n),
            None => self.original.spec_added_edge(&self.tile, dir),
        };
        match next {
            Some(n) => Some(SupergraphElement { original: self.original, tile: n }),
            None => None,
        }
    }

    fn go(&self, dir: Direction) -> (r: Option<Self>) {
        let next = match self.tile.go(dir) {
            Some(n) => Some(n),
            None => self.original.get_added_edge(&self.tile, dir),
        };
        match next {
            Some(n) => Some(SupergraphElement { original: self.original.share(), tile: n }),
            None => None,
        }
    }
}

impl<T: IsPlanarEdgeSupergraph> PlanarProjection for SupergraphElement<T> {
    open spec fn projectable(&self) -> bool {
        self.tile.projectable()
    }

    open spec fn spec_project(&self) -> Coords {
        self.tile.spec_project()
    }

    fn project_coords(&self) -> (r: Coords) {
        self.tile.project_coords()
    }
}

///////////////////////////////////////

/// Edges added to a grid, each stored in both directions.
#[derive(Debug)]
pub struct PlanarEdgeSupergraph<T> {
    edges: Vec<((T, Direction), T)>,
}

#[derive(Debug, PartialEq, Eq, Structural)]
pub enum AddEdgeError {
    ProjectionNotAdjacent,
    OriginalFromAlreadyConnected,
    OriginalToAlreadyConnected,
    OverwritingFromConnection,
    OverwritingToConnection,
}

/// The direction from `from` to `to`, when `to` is one unit step away.
pub open spec fn adjacent_dir(from: Coords, to: Coords) -> Option<Direction> {
    let dx = to.x - from.x;
    let dy = to.y - from.y;
    if dx == 0 && dy == 1 {
        Some(Direction::Up)
    } else if dx == 0 && dy == -1 {
        Some(Direction::Down)
    } else if dx == -1 && dy == 0 {
        Some(Direction::Left)
    } else if dx == 1 && dy == 0 {
        Some(Direction::Right)
    } else {
        None
    }
}

/// Every stored edge is stored both ways, joins tiles whose projections are one unit step
/// apart, leaves its tile where the original grid has no edge, and is the only one leaving
/// its tile that way.
pub open spec fn edges_wf<T: TileEq + PlanarProjection>(s: Seq<((T, Direction), T)>) -> bool {
    &&& edges_paired(s)
    &&& edges_free(s)
    &&& edges_unique(s)
}

/// Every stored edge is stored both ways and joins tiles whose projections are one unit step
/// apart.
pub open spec fn edges_paired<T: PlanarProjection>(s: Seq<((T, Direction), T)>) -> bool {
    forall|i: int|
        0 <= i < s.len() ==> {
            let ((from, dir), to) = #[trigger] s[i];
            &&& from.projectable() && to.projectable()
            &&& to.spec_project().x == from.spec_project().x + dir_offset(dir).0
            &&& to.spec_project().y == from.spec_project().y + dir_offset(dir).1
            &&& exists|k: int| 0 <= k < s.len() && s[k] == ((to, spec_inverse(dir)), from)
        }
}

/// Every stored edge leaves its tile where the original grid has no edge.
pub open spec fn edges_free<T: Grid>(s: Seq<((T, Direction), T)>) -> bool {
    forall|i: int| 0 <= i < s.len() ==> (#[trigger] s[i]).0.0.spec_go(s[i].0.1) is None
}

/// No two stored edges leave the same tile the same way.
pub open spec fn edges_unique<T: TileEq>(s: Seq<((T, Direction), T)>) -> bool {
    forall|i: int, j: int|
        0 <= i < j < s.len() ==> !((#[trigger] s[i]).0.0.same_tile(&(#[trigger] s[j]).0.0) && s[i].0.1 == s[j].0.1)
}

/// Storing an edge both ways, where neither end has an edge that way yet, in the original
/// grid or among the stored ones, keeps the stored edges well formed.
proof fn lemma_edges_push<T: TileEq + PlanarProjection>(before: Seq<((T, Direction), T)>, from: T, dir: Direction, to: T)
    requires
        from.projectable(),
        to.projectable(),
        to.spec_project().x == from.spec_project().x + dir_offset(dir).0,
        to.spec_project().y == from.spec_project().y + dir_offset(dir).1,
        from.spec_go(dir) is None,
        to.spec_go(spec_inverse(dir)) is None,
        forall|i: int| 0 <= i < before.len() ==> !((#[trigger] before[i]).0.0.same_tile(&from) && before[i].0.1 == dir),
        forall|i: int|
            0 <= i < before.len() ==> !((#[trigger] before[i]).0.0.same_tile(&to) && before[i].0.1 == spec_inverse(dir)),
    ensures
        edges_wf(before) ==> edges_wf(before.push(((from, dir), to)).push(((to, spec_inverse(dir)), from))),
{
    if edges_wf(before) {
        lemma_paired_push(before, from, dir, to);
        lemma_free_push(before, from, dir, to);
        lemma_unique_push(before, from, dir, to);
    }
}

proof fn lemma_paired_push<T: PlanarProjection>(before: Seq<((T, Direction), T)>, from: T, dir: Direction, to: T)
    requires
        from.projectable(),
        to.projectable(),
        to.spec_project().x == from.spec_project().x + dir_offset(dir).0,
        to.spec_project().y == from.spec_project().y + dir_offset(dir).1,
        edges_paired(before),
    ensures
        edges_paired(before.push(((from, dir), to)).push(((to, spec_inverse(dir)), from))),
{
    let after = before.push(((from, dir), to)).push(((to, spec_inverse(dir)), from));
    let n = before.len() as int;
    assert(after[n] == ((from, dir), to));
    assert(after[n + 1] == ((to, spec_inverse(dir)), from));
    lemma_inverse_involution(dir);
    assert forall|i: int| 0 <= i < after.len() implies {
        let ((f, d), t) = #[trigger] after[i];
        &&& f.projectable() && t.projectable()
        &&& t.spec_project().x == f.spec_project().x + dir_offset(d).0
        &&& t.spec_project().y == f.spec_project().y + dir_offset(d).1
        &&& exists|k: int| 0 <= k < after.len() && after[k] == ((t, spec_inverse(d)), f)
    } by {
        if i < n {
            assert(after[i] == before[i]);
            let ((f, d), t) = before[i];
            let k = choose|k: int| 0 <= k < before.len() && before[k] == ((t, spec_inverse(d)), f);
            assert(after[k] == before[k]);
        } else if i == n {
            assert(after[n + 1] == ((to, spec_inverse(dir)), from));
        } else {
            assert(after[n] == ((from, dir), to));
        }
    }
}

proof fn lemma_free_push<T: Grid>(before: Seq<((T, Direction), T)>, from: T, dir: Direction, to: T)
    requires
        from.spec_go(dir) is None,
        to.spec_go(spec_inverse(dir)) is None,
        edges_free(before),
    ensures
        edges_free(before.push(((from, dir), to)).push(((to, spec_inverse(dir)), from))),
{
    let after = before.push(((from, dir), to)).push(((to, spec_inverse(dir)), from));
    let n = before.len() as int;
    assert forall|i: int| 0 <= i < after.len() implies (#[trigger] after[i]).0.0.spec_go(after[i].0.1) is None by {
        if i < n {
            assert(after[i] == before[i]);
        } else if i == n {
            assert(after[n] == ((from, dir), to));
        } else {
            assert(after[n + 1] == ((to, spec_inverse(dir)), from));
        }
    }
}

proof fn lemma_unique_push<T: TileEq>(before: Seq<((T, Direction), T)>, from: T, dir: Direction, to: T)
    requires
        forall|i: int| 0 <= i < before.len() ==> !((#[trigger] before[i]).0.0.same_tile(&from) && before[i].0.1 == dir),
        forall|i: int|
            0 <= i < before.len() ==> !((#[trigger] before[i]).0.0.same_tile(&to) && before[i].0.1 == spec_inverse(dir)),
        edges_unique(before),
    ensures
        edges_unique(before.push(((from, dir), to)).push(((to, spec_inverse(dir)), from))),
{
    let after = before.push(((from, dir), to)).push(((to, spec_inverse(dir)), from));
    let n = before.len() as int;
    lemma_inverse_involution(dir);
    assert forall|i: int, j: int| 0 <= i < j < after.len() implies !((#[trigger] after[i]).0.0.same_tile(
        &(#[trigger] after[j]).0.0,
    ) && after[i].0.1 == after[j].0.1) by {
        if j < n {
            assert(after[i] == before[i] && after[j] == before[j]);
        } else if i < n {
            assert(after[i] == before[i]);
            if j == n {
                assert(after[n] == ((from, dir), to));
            } else {
                assert(after[n + 1] == ((to, spec_inverse(dir)), from));
            }
        } else {
            assert(after[n] == ((from, dir), to));
            assert(after[n + 1] == ((to, spec_inverse(dir)), from));
        }
    }
}

/// Whether `i` is the first edge stored from `from` in direction `dir`.
pub open spec fn is_first_edge<T: TileEq>(
    s: Seq<((T, Direction), T)>,
    from: &T,
    dir: Direction,
    i: int,
) -> bool {
    &&& 0 <= i < s.len()
    &&& s[i].0.0.same_tile(from) && s[i].0.1 == dir
    &&& forall|j: int|
        0 <= j < i ==> !((#[trigger] s[j]).0.0.same_tile(from) && s[j].0.1 == dir)
}

impl<T: TileEq + PlanarProjection> PlanarEdgeSupergraph<T> {
    /// The stored edges, each as `((from, dir), to)`.
    pub closed spec fn edge_list(&self) -> Seq<((T, Direction), T)> {
        self.edges@
    }

    pub open spec fn spec_has_edge(&self, from: &T, dir: Direction) -> bool {
        exists|i: int|
            0 <= i < self.edge_list().len() && (#[trigger] self.edge_list()[i]).0.0.same_tile(from)
                && self.edge_list()[i].0.1 == dir
    }

    /// Where the edge from `from` in direction `dir` leads, if it was added.
    pub open spec fn spec_edge(&self, from: &T, dir: Direction) -> Option<T> {
        if exists|i: int| is_first_edge(self.edge_list(), from, dir, i) {
            Some(self.edge_list()[choose|i: int| is_first_edge(self.edge_list(), from, dir, i)].1)
        } else {
            None
        }
    }

    /// Every added edge is stored in both directions, and joins tiles whose projections
    /// are one unit step apart; it leaves a tile where the original grid has no edge, and
    /// no tile has two added edges the same way.
    pub open spec fn wf(&self) -> bool {
        edges_wf(self.edge_list())
    }

    pub fn new_empty() -> (r: Self)
        ensures
            r.edge_list() == Seq::<((T, Direction), T)>::empty(),
            r.wf(),
    {
        Self { edges: Vec::new() }
    }

    fn find(&self, from: &T, dir: Direction) -> (r: Option<usize>)
        ensures
            r matches Some(i) ==> is_first_edge(self.edge_list(), from, dir, i as int),
            r is None ==> !self.spec_has_edge(from, dir) && self.spec_edge(from, dir) is None,
    {
        let mut i: usize = 0;
        while i < self.edges.len()
            invariant
                i <= self.edges@.len(),
                forall|j: int|
                    0 <= j < i ==> !((#[trigger] self.edges@[j]).0.0.same_tile(from)
                        && self.edges@[j].0.1 == dir),
            decreases self.edges@.len() - i,
        {
            if self.edges[i].0.1 == dir && self.edges[i].0.0.tile_eq(from) {
                return Some(i);
            }
            i += 1;
        }
        proof {
            if exists|i: int| is_first_edge(self.edge_list(), from, dir, i) {
                let i = choose|i: int| is_first_edge(self.edge_list(), from, dir, i);
                assert(self.edges@[i].0.0.same_tile(from));
            }
        }
        None
    }

    pub fn add_edge(&mut self, from: &T, to: &T) -> (r: Result<(), AddEdgeError>)
        requires
            from.projectable(),
            to.projectable(),
            i32::MIN <= to.spec_project().x - from.spec_project().x <= i32::MAX,
            i32::MIN <= to.spec_project().y - from.spec_project().y <= i32::MAX,
        ensures
            r == add_edge_outcome(*old(self), *from, *to),
            r is Ok ==> ({
                let dir = adjacent_dir(from.spec_project(), to.spec_project()).unwrap();
                final(self).edge_list() == old(self).edge_list().push(((*from, dir), *to)).push(
                    ((*to, spec_inverse(dir)), *from),
                )
            }),
            r is Err ==> final(self).edge_list() == old(self).edge_list(),
            old(self).wf() ==> final(self).wf(),
    {
        let from_coords = from.project_coords();
        let to_coords = to.project_coords();

        // This check makes it planar.
        let dx = to_coords.x - from_coords.x;
        let dy = to_coords.y - from_coords.y;
        let dir = if dx == 0 && dy == 1 {
            Direction::Up
        } else if dx == 0 && dy == -1 {
            Direction::Down
        } else if dx == -1 && dy == 0 {
            Direction::Left
        } else if dx == 1 && dy == 0 {
            Direction::Right
        } else {
            return Err(AddEdgeError::ProjectionNotAdjacent);
        };

        if from.go(dir).is_some() {
            return Err(AddEdgeError::OriginalFromAlreadyConnected);
        }
        if to.go(dir.inverse()).is_some() {
            return Err(AddEdgeError::OriginalToAlreadyConnected);
        }

        if self.find(from, dir).is_some() {
            return Err(AddEdgeError::OverwritingFromConnection);
        }
        if self.find(to, dir.inverse()).is_some() {
            return Err(AddEdgeError::OverwritingToConnection);
        }

        let ghost before = self.edge_list();
        self.edges.push(((from.duplicate(), dir), to.duplicate()));
        self.edges.push(((to.duplicate(), dir.inverse()), from.duplicate()));
        proof {
            let n: int = before.len() as int;
            let after = self.edge_list();
            assert(after[n as int] == ((*from, dir), *to));
            assert(after[n + 1int] == ((*to, spec_inverse(dir)), *from));
            lemma_edges_push(before, *from, dir, *to);
        }
        Ok(())
    }
}

/// What `add_edge` answers: the first of its checks that fails, else success.
pub open spec fn add_edge_outcome<T: TileEq + PlanarProjection>(
    g: PlanarEdgeSupergraph<T>,
    from: T,
    to: T,
) -> Result<(), AddEdgeError> {
    match adjacent_dir(from.spec_project(), to.spec_project()) {
        None => Err(AddEdgeError::ProjectionNotAdjacent),
        Some(dir) => if from.spec_go(dir) is Some {
            Err(AddEdgeError::OriginalFromAlreadyConnected)
        } else if to.spec_go(spec_inverse(dir)) is Some {
            Err(AddEdgeError::OriginalToAlreadyConnected)
        } else if g.spec_has_edge(&from, dir) {
            Err(AddEdgeError::OverwritingFromConnection)
        } else if g.spec_has_edge(&to, spec_inverse(dir)) {
            Err(AddEdgeError::OverwritingToConnection)
        } else {
            Ok(())
        },
    }
}

impl<'a, T> IsPlanarEdgeSupergraph for &'a PlanarEdgeSupergraph<T> where
    T: Grid<Neighbor = T> + PlanarProjection + TileEq,
 {
    type Original = T;

    open spec fn spec_added_edge(&self, from: &T, dir: Direction) -> Option<T> {
        (*self).spec_edge(from, dir)
    }

    fn share(&self) -> (r: Self) {
        *self
    }

    fn get_added_edge(&self, from: &T, dir: Direction) -> (r: Option<T>) {
        match (*self).find(from, dir) {
            Some(i) => {
                proof {
                    lemma_first_edge_unique((*self).edge_list(), from, dir, i as int);
                }
                Some(self.edges[i].1.duplicate())
            },
            None => None,
        }
    }
}

impl<T> IsPlanarEdgeSupergraph for Rc<PlanarEdgeSupergraph<T>> where
    T: Grid<Neighbor = T> + PlanarProjection + TileEq,
 {
    type Original = T;

    open spec fn spec_added_edge(&self, from: &T, dir: Direction) -> Option<T> {
        (**self).spec_edge(from, dir)
    }

    fn share(&self) -> (r: Self) {
        Rc::clone(self)
    }

    fn get_added_edge(&self, from: &T, dir: Direction) -> (r: Option<T>) {
        match (**self).find(from, dir) {
            Some(i) => {
                proof {
                    lemma_first_edge_unique((**self).edge_list(), from, dir, i as int);
                }
                Some(self.edges[i].1.duplicate())
            },
            None => None,
        }
    }
}

/// Where every step of the original grid can be undone, every step of the supergraph can
/// be undone too, back to the same tile: along an original edge to the tile itself, along an
/// added one to the tile it was added from.
#[verifier::rlimit(50)]
pub proof fn lemma_supergraph_go_inverse<'a, T: Grid<Neighbor = T> + PlanarProjection + TileEq>(
    e: SupergraphElement<&'a PlanarEdgeSupergraph<T>>,
    dir: Direction,
)
    requires
        e.original.wf(),
        forall|t: T, d: Direction|
            (#[trigger] t.spec_go(d)) matches Some(n) ==> n.spec_go(spec_inverse(d)) == Some(t),
    ensures
        e.spec_go(dir) matches Some(n) ==> (n.spec_go(spec_inverse(dir)) matches Some(b) && b.original == e.original
            && b.tile.same_tile(&e.tile)),
{
    let g = *e.original;
    let s = g.edge_list();
    let back = spec_inverse(dir);
    T::lemma_same_tile_equivalence(e.tile, e.tile, e.tile);
    if let Some(n) = e.spec_go(dir) {
        let t = n.tile;
        if e.tile.spec_go(dir) is None {
            let i = choose|i: int| is_first_edge(s, &e.tile, dir, i);
            assert(t == s[i].1);
            let k = choose|k: int| 0 <= k < s.len() && s[k] == ((t, spec_inverse(dir)), s[i].0.0);
            assert(s[k].0.0.spec_go(s[k].0.1) is None);
            T::lemma_same_tile_equivalence(t, t, t);
            assert forall|j: int| 0 <= j < k implies !((#[trigger] s[j]).0.0.same_tile(&t) && s[j].0.1 == back) by {
                assert(!(s[j].0.0.same_tile(&s[k].0.0) && s[j].0.1 == s[k].0.1));
            }
            assert(is_first_edge(s, &t, back, k));
            lemma_first_edge_unique(s, &t, back, k);
        }
    }
}

/// The first stored edge is unique./// The first stored edge is unique.
pub proof fn lemma_first_edge_unique<T: TileEq>(
    s: Seq<((T, Direction), T)>,
    from: &T,
    dir: Direction,
    i: int,
)
    requires
        is_first_edge(s, from, dir, i),
    ensures
        (choose|k: int| is_first_edge(s, from, dir, k)) == i,
{
    assert forall|k: int| is_first_edge(s, from, dir, k) implies k == i by {
        if k < i {
            assert(!(s[k].0.0.same_tile(from) && s[k].0.1 == dir));
        }
        if i < k {
            assert(!(s[i].0.0.same_tile(from) && s[i].0.1 == dir));
        }
    }
}

} // verus!
