//! The tiles of a floor.
use std::rc::Rc;
use vstd::prelude::*;

use crate::pathfinding::PathfindingContext;
use crate::pathfinding::free_tiles;
use crate::pathfinding::has_key;
use crate::pathfinding::lemma_distance_triangle;
use crate::pathfinding::lemma_walk_distance;
use crate::pathfinding::lemma_walk_weaken;
use crate::pathfinding::open_tiles;
use crate::pathfinding::sound_search;
use crate::pathfinding::walks;
use crate::pathfinding::in_table;
use crate::pathfinding::key_index;
use crate::pathfinding::normalized;
use crate::positional::AbsolutePosition;

verus! {

#[derive(Clone, Copy, Debug, PartialEq, Eq, Structural)]
pub enum FloorTile {
    Floor,
    Wall,
}

impl FloorTile {
    #[must_use]
    pub fn is_tile_floor(self) -> (r: bool)
        ensures
            r == (self == FloorTile::Floor),
    {
        // clean (and obvious) but more floors will be added ig.
        matches!(self, FloorTile::Floor)
    }
}

/// Whether no position occurs twice among the pairs.
pub open spec fn keys_unique(s: Seq<(AbsolutePosition, FloorTile)>) -> bool {
    forall|i: int, j: int| 0 <= i < s.len() && 0 <= j < s.len() && i != j ==> s[i].0 != s[j].0
}

/// The tile stored for `pos`, else `default`.
pub open spec fn tile_in(s: Seq<(AbsolutePosition, FloorTile)>, default: FloorTile, pos: AbsolutePosition) -> FloorTile {
    if exists|i: int| 0 <= i < s.len() && #[trigger] s[i].0 == pos {
        s[choose|i: int| 0 <= i < s.len() && #[trigger] s[i].0 == pos].1
    } else {
        default
    }
}

/// The tile listed last for `pos`, else `default`.
pub open spec fn last_tile_in(s: Seq<(AbsolutePosition, FloorTile)>, default: FloorTile, pos: AbsolutePosition) -> FloorTile
    decreases s.len(),
{
    if s.len() == 0 {
        default
    } else if s.last().0 == pos {
        s.last().1
    } else {
        last_tile_in(s.drop_last(), default, pos)
    }
}

proof fn lemma_tile_in_set(s: Seq<(AbsolutePosition, FloorTile)>, j: int, p: AbsolutePosition, t: FloorTile)
    requires
        keys_unique(s),
        0 <= j < s.len(),
        s[j].0 == p,
    ensures
        keys_unique(s.update(j, (p, t))),
        forall|q: AbsolutePosition| #[trigger] tile_in(s.update(j, (p, t)), FloorTile::Wall, q)
            == if q == p { t } else { tile_in(s, FloorTile::Wall, q) },
{
    let u = s.update(j, (p, t));
    assert forall|q: AbsolutePosition| #[trigger] tile_in(u, FloorTile::Wall, q)
        == if q == p { t } else { tile_in(s, FloorTile::Wall, q) } by {
        if q == p {
            assert(u[j].0 == q);
            let k = choose|k: int| 0 <= k < u.len() && #[trigger] u[k].0 == q;
            assert(k == j);
        } else {
            if exists|k: int| 0 <= k < s.len() && #[trigger] s[k].0 == q {
                let k = choose|k: int| 0 <= k < s.len() && #[trigger] s[k].0 == q;
                assert(u[k].0 == q);
                let k2 = choose|k: int| 0 <= k < u.len() && #[trigger] u[k].0 == q;
                assert(s[k2].0 == q);
            } else {
                assert forall|k: int| 0 <= k < u.len() implies #[trigger] u[k].0 != q by {
                    assert(s[k].0 != q);
                }
            }
        }
    }
}

proof fn lemma_tile_in_push(s: Seq<(AbsolutePosition, FloorTile)>, p: AbsolutePosition, t: FloorTile)
    requires
        keys_unique(s),
        forall|k: int| 0 <= k < s.len() ==> (#[trigger] s[k]).0 != p,
    ensures
        keys_unique(s.push((p, t))),
        forall|q: AbsolutePosition| #[trigger] tile_in(s.push((p, t)), FloorTile::Wall, q)
            == if q == p { t } else { tile_in(s, FloorTile::Wall, q) },
{
    let u = s.push((p, t));
    assert forall|q: AbsolutePosition| #[trigger] tile_in(u, FloorTile::Wall, q)
        == if q == p { t } else { tile_in(s, FloorTile::Wall, q) } by {
        if q == p {
            assert(u[s.len() as int].0 == q);
            let k = choose|k: int| 0 <= k < u.len() && #[trigger] u[k].0 == q;
            if k < s.len() {
                assert(s[k].0 == p);
            }
        } else {
            if exists|k: int| 0 <= k < s.len() && #[trigger] s[k].0 == q {
                let k = choose|k: int| 0 <= k < s.len() && #[trigger] s[k].0 == q;
                assert(u[k].0 == q);
                let k2 = choose|k: int| 0 <= k < u.len() && #[trigger] u[k].0 == q;
                assert(s[k2].0 == q);
            } else {
                assert forall|k: int| 0 <= k < u.len() implies #[trigger] u[k].0 != q by {
                    if k < s.len() {
                        assert(s[k].0 != q);
                    }
                }
            }
        }
    }
    assert forall|a: int, b: int| 0 <= a < u.len() && 0 <= b < u.len() && a != b implies u[a].0 != u[b].0 by {
        if a == s.len() {
            assert(s[b].0 != p);
        } else if b == s.len() {
            assert(s[a].0 != p);
        }
    }
}

/// Looks `pos` up among the pairs.
fn lookup_tile(tiles: &Vec<(AbsolutePosition, FloorTile)>, default: FloorTile, pos: AbsolutePosition) -> (r: FloorTile)
    requires
        keys_unique(tiles@),
    ensures
        r == tile_in(tiles@, default, pos),
{
    let mut i: usize = 0;
    while i < tiles.len()
        invariant
            keys_unique(tiles@),
            i <= tiles.len(),
            forall|k: int| 0 <= k < i ==> (#[trigger] tiles@[k]).0 != pos,
        decreases tiles.len() - i,
    {
        if tiles[i].0.x == pos.x && tiles[i].0.y == pos.y {
            proof {
                let j = choose|j: int| 0 <= j < tiles@.len() && #[trigger] tiles@[j].0 == pos;
                assert(tiles@[i as int].0 == pos);
            }
            return tiles[i].1;
        }
        i += 1;
    }
    default
}

/// The tiles of a floor: those listed, and a default for every other position.
#[derive(Debug)]
pub struct FloorMap {
    pub tiles: Rc<Vec<(AbsolutePosition, FloorTile)>>,
    pub default: FloorTile,
}

impl Clone for FloorMap {
    fn clone(&self) -> (r: Self)
        ensures
            r == *self,
    {
        FloorMap { tiles: Rc::clone(&self.tiles), default: self.default }
    }
}

impl FloorMap {
    pub open spec fn wf(&self) -> bool {
        keys_unique(self.tiles@)
    }

    /// The tile at `pos`.
    pub open spec fn tile(&self, pos: AbsolutePosition) -> FloorTile {
        tile_in(self.tiles@, self.default, pos)
    }

    /// An "outdoors" map: floor everywhere.
    #[must_use]
    pub fn new_empty() -> (r: Self)
        ensures
            r.wf(),
            forall|p: AbsolutePosition| #[trigger] r.tile(p) == FloorTile::Floor,
    {
        FloorMap { tiles: Rc::new(Vec::new()), default: FloorTile::Floor }
    }

    /// An "indoors" map: the listed tiles, where a position listed twice takes its last
    /// tile, and walls everywhere else.
    #[must_use]
    pub fn new_with_tiles(tiles: Vec<(AbsolutePosition, FloorTile)>) -> (r: Self)
        ensures
            r.wf(),
            forall|p: AbsolutePosition| #[trigger] r.tile(p) == last_tile_in(tiles@, FloorTile::Wall, p),
    {
        let mut out: Vec<(AbsolutePosition, FloorTile)> = Vec::new();
        let mut i: usize = 0;
        while i < tiles.len()
            invariant
                i <= tiles.len(),
                keys_unique(out@),
                forall|p: AbsolutePosition|
                    #[trigger] tile_in(out@, FloorTile::Wall, p) == last_tile_in(
                        tiles@.subrange(0, i as int),
                        FloorTile::Wall,
                        p,
                    ),
            decreases tiles.len() - i,
        {
            let (p, t) = tiles[i];
            let ghost before = out@;
            let mut j: usize = 0;
            let mut found = false;
            while j < out.len()
                invariant_except_break
                    !found,
                invariant
                    j <= out.len(),
                    out@ == before,
                    forall|k: int| 0 <= k < j ==> (#[trigger] out@[k]).0 != p,
                ensures
                    (found && j < out.len() && out@[j as int].0 == p) || (!found && forall|k: int|
                        0 <= k < out.len() ==> (#[trigger] out@[k]).0 != p),
                decreases out.len() - j,
            {
                if out[j].0.x == p.x && out[j].0.y == p.y {
                    found = true;
                    break;
                }
                j += 1;
            }
            if found {
                out.set(j, (p, t));
                proof {
                    lemma_tile_in_set(before, j as int, p, t);
                }
            } else {
                out.push((p, t));
                proof {
                    lemma_tile_in_push(before, p, t);
                }
            }
            proof {
                let next = tiles@.subrange(0, i + 1);
                assert(next.drop_last() =~= tiles@.subrange(0, i as int));
                assert(next.last() == (p, t));
            }
            i += 1;
        }
        proof {
            assert(tiles@.subrange(0, tiles.len() as int) =~= tiles@);
        }
        FloorMap { tiles: Rc::new(out), default: FloorTile::Wall }
    }

    #[must_use]
    pub fn get_tile(&self, pos: AbsolutePosition) -> (r: FloorTile)
        requires
            self.wf(),
        ensures
            r == self.tile(pos),
    {
        lookup_tile(&self.tiles, self.default, pos)
    }

    #[must_use]
    pub fn is_tile_floor(&self, pos: AbsolutePosition) -> (r: bool)
        requires
            self.wf(),
        ensures
            r == (self.tile(pos) == FloorTile::Floor),
    {
        self.get_tile(pos).is_tile_floor()
    }

    /// The floor tiles of the map.
    pub open spec fn floor_tiles(&self) -> spec_fn(AbsolutePosition) -> bool {
        |p: AbsolutePosition| self.tile(p) == FloorTile::Floor
    }

    /// `len` is the length of a shortest walk of king moves from `a` to `b` over floor tiles.
    pub open spec fn floor_distance(&self, a: AbsolutePosition, b: AbsolutePosition, len: nat) -> bool {
        &&& walks(self.floor_tiles(), a, b, len)
        &&& forall|l: nat| #[trigger] walks(self.floor_tiles(), a, b, l) ==> len <= l
    }

    /// What the step search from `start` to `destination` gives: the destination where it is
    /// the start; else, if anything, a floor neighbor of the start on a shortest floor walk to
    /// the destination, which is itself the step where it is a floor neighbor; and a step
    /// wherever a floor walk is at most five moves longer than the straight distance.
    pub open spec fn step_search(&self, start: AbsolutePosition, destination: AbsolutePosition, r: Option<AbsolutePosition>) -> bool {
        &&& r matches Some(t) ==> (t == start && start == destination) || start.spec_distance(t) == 1
        &&& start == destination ==> r == Some(destination)
        &&& start != destination ==> (r matches Some(t) ==> self.tile(t) == FloorTile::Floor)
        &&& start.spec_distance(destination) == 1 && self.tile(destination) == FloorTile::Floor ==> r == Some(
            destination,
        )
        &&& r is Some && start != destination ==> exists|d: nat|
            #[trigger] self.floor_distance(start, destination, d) && walks(
                self.floor_tiles(),
                r->0,
                destination,
                (d - 1) as nat,
            )
        &&& (exists|len: nat|
            #[trigger] walks(self.floor_tiles(), start, destination, len) && len <= start.spec_distance(destination) + 5)
            ==> r is Some
    }

    /// The first step of a path from `start` to `destination` over floor tiles, if one is
    /// found: the destination itself where it is the start, else a neighbor of the start on a
    /// shortest floor walk. A walk is found wherever one is at most five moves longer than the
    /// straight distance.
    #[must_use]
    pub fn get_step(&self, start: AbsolutePosition, destination: AbsolutePosition) -> (r: Option<AbsolutePosition>)
        requires
            self.wf(),
        ensures
            self.step_search(start, destination, r),
    {
        let tiles = Rc::clone(&self.tiles);
        let default = self.default;
        let ghost map = *self;
        let blocked = move |pos: AbsolutePosition| -> (b: bool)
            ensures
                b == (tile_in(tiles@, default, pos) != FloorTile::Floor),
            { !lookup_tile(&tiles, default, pos).is_tile_floor() };
        let mut context = PathfindingContext::new(blocked, AbsolutePosition::distance);
        proof {
            let blk = context.blocker();
            let fl = self.floor_tiles();
            assert forall|p: AbsolutePosition| #[trigger] free_tiles(blk)(p) implies fl(p) by {
                assert(blk.ensures((p,), false));
            }
            assert forall|p: AbsolutePosition| #[trigger] fl(p) implies open_tiles(blk)(p) by {
                if blk.ensures((p,), true) {
                    assert(tile_in(tiles@, default, p) != FloorTile::Floor);
                }
            }
            assert forall|p: AbsolutePosition, hp: u32, len: nat|
                AbsolutePosition::distance.ensures((p, destination), hp) && walks(open_tiles(blk), p, destination, len)
                implies hp <= len by {
                lemma_walk_distance(open_tiles(blk), p, destination, len);
            }
            assert forall|p: AbsolutePosition, q: AbsolutePosition, hp: u32, hq: u32, len: nat|
                AbsolutePosition::distance.ensures((p, destination), hp) && AbsolutePosition::distance.ensures(
                    (q, destination),
                    hq,
                ) && walks(open_tiles(blk), p, q, len) implies hp <= len + hq by {
                lemma_walk_distance(open_tiles(blk), p, q, len);
                lemma_distance_triangle(p, q, destination);
            }
            assert(sound_search(blk, context.estimator(), destination));
            assert(context.sound_search_from(start, destination));
            if exists|len: nat|
                #[trigger] walks(self.floor_tiles(), start, destination, len) && len <= start.spec_distance(destination) + 5 {
                let len = choose|len: nat|
                    #[trigger] walks(self.floor_tiles(), start, destination, len) && len <= start.spec_distance(destination) + 5;
                lemma_walk_weaken(fl, open_tiles(blk), start, destination, len);
                assert(context.within_reach(start, destination));
            }
        }
        let ghost adjacent_floor = start.spec_distance(destination) == 1 && self.tile(destination)
            == FloorTile::Floor;
        proof {
            if adjacent_floor {
                assert(context.clear_adjacent(start, destination));
            }
        }
        if context.find_path(start, destination) {
            let r = context.get_step(start, destination);
            proof {
                if start != destination {
                    let blk = context.blocker();
                    let fl = self.floor_tiles();
                    let s = context.table();
                    let d = s[key_index(s, normalized(start, destination))].distance;
                    assert(context.found_shortest(start, destination));
                    lemma_walk_weaken(free_tiles(blk), fl, start, destination, d as nat);
                    let t = r->0;
                    lemma_walk_weaken(free_tiles(blk), fl, t, destination, (d - 1) as nat);
                    assert forall|l: nat| #[trigger] walks(fl, start, destination, l) implies d <= l by {
                        lemma_walk_weaken(fl, open_tiles(blk), start, destination, l);
                    }
                    assert(self.floor_distance(start, destination, d as nat));
                }
                if adjacent_floor {
                    let s = context.table();
                    let k = normalized(start, destination);
                    assert(has_key(s, k));
                    let i = key_index(s, k);
                    assert(s[i].key == k);
                    assert(s[i].step == k.0 || s[i].step == k.1);
                    assert(r == Some(destination));
                }
                if let Some(t) = r {
                    if start != destination {
                        assert(in_table(context.table(), t));
                        assert(context.blocker().ensures((t,), false));
                    }
                }
            }
            return r;
        }
        None
    }
}

impl Default for FloorMap {
    fn default() -> (r: Self)
        ensures
            r.wf(),
            forall|p: AbsolutePosition| #[trigger] r.tile(p) == FloorTile::Floor,
    {
        Self::new_empty()
    }
}

} // verus!
