//! What each entity has seen of the map.
use vstd::prelude::*;

use crate::actions::events::FloorEvent;
use crate::actions::events::SeeMapEvent;
use crate::entity::EntityId;
use crate::entity::EntityModel;
use crate::floor::map::FloorMap;
use crate::floor::map::FloorTile;
use crate::positional::fits_i32;
use crate::positional::fov::StrictFOV;
use crate::positional::fov::clear_from;
use crate::positional::fov::in_sight;
use crate::positional::fov::lemma_in_sight_monotone;
use crate::positional::fov::offset_by;
use crate::positional::fov::open_from;
use crate::positional::fov::radius_supported;
use crate::positional::fov::shift_fits;
use crate::positional::RelativePosition;
use crate::positional::AbsolutePosition;
use crate::posmap::PosMap;
use crate::writer::Writer;

verus! {

/// How far entities see.
pub const VISION_RADIUS: u32 = 8;

/// The order in which positions are listed: by `x`, then by `y`.
pub open spec fn pos_lt(a: AbsolutePosition, b: AbsolutePosition) -> bool {
    a.x < b.x || (a.x == b.x && a.y < b.y)
}

/// Whether `center` is far enough from the edge of `i32` for the whole field of view.
pub open spec fn vision_fits(center: AbsolutePosition) -> bool {
    fits_i32(center.x - VISION_RADIUS) && fits_i32(center.x + VISION_RADIUS) && fits_i32(center.y
        - VISION_RADIUS) && fits_i32(center.y + VISION_RADIUS)
}

/// The offsets from `center` whose tile is floor: vision passes through floor only.
pub open spec fn floor_from(map: FloorMap, center: AbsolutePosition) -> spec_fn(RelativePosition) -> bool {
    |q: RelativePosition| shift_fits(center, q) && map.tile(offset_by(center, q)) == FloorTile::Floor
}

/// Whether `v` lists the position `p`.
pub open spec fn lists(v: Seq<(AbsolutePosition, FloorTile)>, p: AbsolutePosition) -> bool {
    exists|i: int| 0 <= i < v.len() && (#[trigger] v[i]).0 == p
}

/// What a look from `center` returns: the tiles of the map in sight from `center`, through
/// floor, within the radius, each once, in order.
pub open spec fn vision_ok(map: FloorMap, center: AbsolutePosition, v: Seq<(AbsolutePosition, FloorTile)>) -> bool {
    &&& forall|i: int, j: int| 0 <= i < j < v.len() ==> pos_lt(#[trigger] v[i].0, #[trigger] v[j].0)
    &&& forall|i: int| 0 <= i < v.len() ==> (#[trigger] v[i]).1 == map.tile(v[i].0) && center.spec_distance(v[i].0) <= VISION_RADIUS
    &&& vision_fits(center) ==> exists|i: int| 0 <= i < v.len() && (#[trigger] v[i]).0 == center
    &&& vision_fits(center) ==> forall|p: AbsolutePosition| #[trigger]
        lists(v, p) ==> exists|q: RelativePosition|
            #[trigger] in_sight(VISION_RADIUS as int, floor_from(map, center), q) && p == offset_by(center, q)
    &&& vision_fits(center) ==> forall|q: RelativePosition| #[trigger]
        in_sight(VISION_RADIUS as int, floor_from(map, center), q) ==> lists(v, offset_by(center, q))
    &&& !vision_fits(center) ==> v.len() == 0
}

/// The positions of `v`, each once, in order.
pub fn sort_dedup(v: &Vec<AbsolutePosition>) -> (r: Vec<AbsolutePosition>)
    ensures
        forall|i: int, j: int| 0 <= i < j < r.len() ==> pos_lt(#[trigger] r@[i], #[trigger] r@[j]),
        forall|p: AbsolutePosition| r@.contains(p) <==> v@.contains(p),
{
    let mut out: Vec<AbsolutePosition> = Vec::new();
    let mut i: usize = 0;
    while i < v.len()
        invariant
            i <= v.len(),
            forall|a: int, b: int| 0 <= a < b < out.len() ==> pos_lt(#[trigger] out@[a], #[trigger] out@[b]),
            forall|p: AbsolutePosition| out@.contains(p) <==> v@.subrange(0, i as int).contains(p),
        decreases v.len() - i,
    {
        let p = v[i];
        let mut k: usize = 0;
        while k < out.len() && (out[k].x < p.x || (out[k].x == p.x && out[k].y < p.y))
            invariant
                k <= out.len(),
                forall|a: int| 0 <= a < k ==> pos_lt(#[trigger] out@[a], p),
                forall|a: int, b: int| 0 <= a < b < out.len() ==> pos_lt(#[trigger] out@[a], #[trigger] out@[b]),
                forall|q: AbsolutePosition| out@.contains(q) <==> v@.subrange(0, i as int).contains(q),
            decreases out.len() - k,
        {
            k += 1;
        }
        let ghost before = out@;
        if k < out.len() && out[k].x == p.x && out[k].y == p.y {
            proof {
                assert(out@[k as int] == p);
                assert forall|q: AbsolutePosition| out@.contains(q) <==> (before.contains(q) || q == p) by {
                    if q == p {
                        assert(out@.contains(p));
                    }
                }
            }
        } else {
            out.insert(k, p);
            proof {
                assert forall|a: int| 0 <= a < out.len() implies #[trigger] out@[a] == if a < k {
                    before[a]
                } else if a == k {
                    p
                } else {
                    before[a - 1]
                } by {}
                assert forall|a: int, b: int| 0 <= a < b < out.len() implies pos_lt(#[trigger] out@[a], #[trigger] out@[b]) by {
                    if a < k && b == k {
                    } else if a == k && b > k {
                        let q = before[b - 1];
                        assert(b - 1 >= k);
                        if b - 1 > k {
                            assert(pos_lt(before[k as int], q));
                        }
                        assert(!pos_lt(before[k as int], p));
                    } else if a < k && b > k {
                        assert(pos_lt(before[a], before[b - 1]));
                    } else if b < k {
                        assert(pos_lt(before[a], before[b]));
                    } else {
                        assert(pos_lt(before[a - 1], before[b - 1]));
                    }
                }
                assert forall|q: AbsolutePosition| out@.contains(q) <==> (before.contains(q) || q == p) by {
                    if out@.contains(q) {
                        let a = choose|a: int| 0 <= a < out.len() && out@[a] == q;
                        if a < k {
                            assert(before[a] == q);
                        } else if a > k {
                            assert(before[a - 1] == q);
                        }
                    }
                    if before.contains(q) {
                        let a = choose|a: int| 0 <= a < before.len() && before[a] == q;
                        if a < k {
                            assert(out@[a] == q);
                        } else {
                            assert(out@[a + 1] == q);
                        }
                    }
                    if q == p {
                        assert(out@[k as int] == p);
                    }
                }
            }
        }
        proof {
            let pre = v@.subrange(0, i as int);
            let post = v@.subrange(0, i + 1);
            assert(post =~= pre.push(p));
            assert forall|q: AbsolutePosition| post.contains(q) <==> (pre.contains(q) || q == p) by {
                if post.contains(q) {
                    let a = choose|a: int| 0 <= a < post.len() && post[a] == q;
                    if a < i {
                        assert(pre[a] == q);
                    }
                }
                if pre.contains(q) {
                    let a = choose|a: int| 0 <= a < pre.len() && pre[a] == q;
                    assert(post[a] == q);
                }
                if q == p {
                    assert(post[i as int] == p);
                }
            }
            assert forall|q: AbsolutePosition| out@.contains(q) <==> post.contains(q) by {
                assert(out@.contains(q) <==> (before.contains(q) || q == p));
                assert(before.contains(q) <==> pre.contains(q));
            }
        }
        i += 1;
    }
    proof {
        assert(v@.subrange(0, v.len() as int) =~= v@);
    }
    out
}

/// A copy of the list.
fn copy_tiles(v: &Vec<(AbsolutePosition, FloorTile)>) -> (r: Vec<(AbsolutePosition, FloorTile)>)
    ensures
        r@ == v@,
{
    let mut out: Vec<(AbsolutePosition, FloorTile)> = Vec::new();
    let mut i: usize = 0;
    while i < v.len()
        invariant
            i <= v.len(),
            out@ == v@.subrange(0, i as int),
        decreases v.len() - i,
    {
        out.push(v[i]);
        i += 1;
        proof {
            assert(out@ =~= v@.subrange(0, i as int));
        }
    }
    proof {
        assert(out@ =~= v@);
    }
    out
}

/// What each entity has seen: where it last looked from, what it saw there, and every tile
/// seen by anyone.
#[derive(Debug)]
pub struct FloorMapVision {
    entity_last_at: Vec<Option<AbsolutePosition>>,
    map_vision: Vec<Vec<(AbsolutePosition, FloorTile)>>,
    map_history: PosMap<FloorTile>,
}

impl FloorMapVision {
    pub closed spec fn wf(&self) -> bool {
        &&& self.entity_last_at.len() == self.map_vision.len()
        &&& self.map_history.wf()
    }

    /// Where the entity at index `i` last looked from.
    pub closed spec fn last_at(&self, i: int) -> Option<AbsolutePosition> {
        if 0 <= i < self.entity_last_at.len() {
            self.entity_last_at@[i]
        } else {
            None
        }
    }

    /// What the entity at index `i` last saw.
    pub closed spec fn seen_by(&self, i: int) -> Seq<(AbsolutePosition, FloorTile)> {
        if 0 <= i < self.map_vision.len() {
            self.map_vision@[i]@
        } else {
            Seq::empty()
        }
    }

    /// Every tile seen by anyone, as last seen.
    pub closed spec fn history(&self) -> Map<AbsolutePosition, FloorTile> {
        self.map_history@
    }

    #[must_use]
    pub fn new() -> (r: Self)
        ensures
            r.wf(),
            forall|i: int| r.last_at(i) is None && r.seen_by(i) == Seq::<(AbsolutePosition, FloorTile)>::empty(),
            r.history() == Map::<AbsolutePosition, FloorTile>::empty(),
    {
        FloorMapVision { entity_last_at: Vec::new(), map_vision: Vec::new(), map_history: PosMap::new() }
    }

    /// What can be seen from `pos`.
    pub fn get_vision(map: &FloorMap, pos: AbsolutePosition) -> (r: Vec<(AbsolutePosition, FloorTile)>)
        requires
            map.wf(),
        ensures
            vision_ok(*map, pos, r@),
    {
        if !(pos.x >= i32::MIN + 8 && pos.x <= i32::MAX - 8 && pos.y >= i32::MIN + 8 && pos.y <= i32::MAX - 8) {
            return Vec::new();
        }
        // HACK: StrictFOV doesn't make sense for vision. You can *infer* extra data (what is/isn't a wall) from what is returned.
        // HACK: Avoid expensive construction on every call!
        let fov: StrictFOV = StrictFOV::new(VISION_RADIUS);
        let blocks = |x: AbsolutePosition| -> (b: bool)
            ensures
                b == (map.tile(x) != FloorTile::Floor),
            { !map.is_tile_floor(x) };
        let tiles = fov.get_field_of_view_tiles(pos, VISION_RADIUS, blocks);
        let sorted = sort_dedup(&tiles);
        proof {
            assert(sorted@.contains(pos));
            assert forall|q: RelativePosition| #[trigger] clear_from(blocks, pos)(q) implies floor_from(*map, pos)(q) by {}
            assert forall|q: RelativePosition| #[trigger] floor_from(*map, pos)(q) implies open_from(blocks, pos)(q) by {}
        }
        let mut out: Vec<(AbsolutePosition, FloorTile)> = Vec::new();
        let mut i: usize = 0;
        while i < sorted.len()
            invariant
                map.wf(),
                i <= sorted.len(),
                out.len() == i,
                forall|k: int| 0 <= k < i ==> (#[trigger] out@[k]) == (sorted@[k], map.tile(sorted@[k])),
            decreases sorted.len() - i,
        {
            let p = sorted[i];
            out.push((p, map.get_tile(p)));
            i += 1;
        }
        proof {
            assert forall|a: int, b: int| 0 <= a < b < out.len() implies pos_lt(#[trigger] out@[a].0, #[trigger] out@[b].0) by {
                assert(pos_lt(sorted@[a], sorted@[b]));
            }
            assert forall|a: int| 0 <= a < out.len() implies (#[trigger] out@[a]).1 == map.tile(out@[a].0)
                && pos.spec_distance(out@[a].0) <= VISION_RADIUS by {
                assert(tiles@.contains(sorted@[a]));
                let k = choose|k: int| 0 <= k < tiles.len() && tiles@[k] == sorted@[a];
                assert(tiles@[k].spec_distance(pos) <= VISION_RADIUS);
            }
            let c = choose|c: int| 0 <= c < sorted.len() && sorted@[c] == pos;
            assert(out@[c].0 == pos);
            assert forall|p: AbsolutePosition| #[trigger] lists(out@, p) implies exists|q: RelativePosition|
                #[trigger] in_sight(VISION_RADIUS as int, floor_from(*map, pos), q) && p == offset_by(pos, q) by {
                let i = choose|i: int| 0 <= i < out.len() && (#[trigger] out@[i]).0 == p;
                assert(sorted@[i] == p);
                assert(sorted@.contains(p));
                assert(tiles@.contains(p));
                let q = choose|q: RelativePosition|
                    #[trigger] in_sight(VISION_RADIUS as int, clear_from(blocks, pos), q) && p == offset_by(pos, q);
                lemma_in_sight_monotone(VISION_RADIUS as int, clear_from(blocks, pos), floor_from(*map, pos), q);
            }
            assert forall|q: RelativePosition| #[trigger] in_sight(VISION_RADIUS as int, floor_from(*map, pos), q) implies lists(
                out@,
                offset_by(pos, q),
            ) by {
                lemma_in_sight_monotone(VISION_RADIUS as int, floor_from(*map, pos), open_from(blocks, pos), q);
                assert(tiles@.contains(offset_by(pos, q)));
                assert(sorted@.contains(offset_by(pos, q)));
                let i = choose|i: int| 0 <= i < sorted.len() && sorted@[i] == offset_by(pos, q);
                assert(out@[i].0 == offset_by(pos, q));
            }
        }
        out
    }


    /// Looks from `pos` on behalf of the entity at `id`, records what it saw, and says so.
    fn update_and_emit_event(&mut self, id: EntityId, pos: AbsolutePosition, map: &FloorMap) -> (r: FloorEvent)
        requires
            old(self).wf(),
            map.wf(),
        ensures
            final(self).wf(),
            forall|i: int| #[trigger] final(self).last_at(i) == if i == id.index() { Some(pos) } else { old(self).last_at(i) },
            forall|i: int| i != id.index() ==> #[trigger] final(self).seen_by(i) == old(self).seen_by(i),
            vision_ok(*map, pos, final(self).seen_by(id.index())),
            r matches FloorEvent::SeeMap(e) && e.subject == id && e.vision@ == final(self).seen_by(id.index())
                && e.implied_tiles@ == Seq::<(AbsolutePosition, FloorTile)>::empty(),
            forall|p: AbsolutePosition| #[trigger] final(self).history().contains_key(p) <==> (old(self).history().contains_key(p)
                || exists|k: int| 0 <= k < final(self).seen_by(id.index()).len() && final(self).seen_by(id.index())[k].0 == p),
            forall|p: AbsolutePosition| #[trigger] final(self).history().contains_key(p) ==> final(self).history()[p] == if exists|k: int|
                0 <= k < final(self).seen_by(id.index()).len() && final(self).seen_by(id.index())[k].0 == p {
                map.tile(p)
            } else {
                old(self).history()[p]
            },
    {
        let vision = FloorMapVision::get_vision(map, pos);
        while self.entity_last_at.len() <= id.0
            invariant
                self.wf(),
                forall|i: int| #[trigger] self.last_at(i) == old(self).last_at(i),
                forall|i: int| #[trigger] self.seen_by(i) == old(self).seen_by(i),
                self.history() == old(self).history(),
            decreases id.0 + 1 - self.entity_last_at.len(),
        {
            let ghost prev = *self;
            self.entity_last_at.push(None);
            self.map_vision.push(Vec::new());
            proof {
                assert forall|i: int| #[trigger] self.last_at(i) == old(self).last_at(i) by {
                    assert(prev.last_at(i) == old(self).last_at(i));
                    if 0 <= i < prev.entity_last_at@.len() {
                        assert(self.entity_last_at@[i] == prev.entity_last_at@[i]);
                    }
                }
                assert forall|i: int| #[trigger] self.seen_by(i) == old(self).seen_by(i) by {
                    assert(prev.seen_by(i) == old(self).seen_by(i));
                    if 0 <= i < prev.map_vision@.len() {
                        assert(self.map_vision@[i] == prev.map_vision@[i]);
                    } else if i == prev.map_vision@.len() {
                        assert(self.map_vision@[i]@ =~= Seq::<(AbsolutePosition, FloorTile)>::empty());
                    }
                }
            }
        }
        let ghost grown = *self;
        self.entity_last_at.set(id.0, Some(pos));
        let stored = copy_tiles(&vision);
        self.map_vision.set(id.0, stored);
        proof {
            assert forall|i: int| #[trigger] self.last_at(i) == if i == id.index() { Some(pos) } else { old(self).last_at(i) } by {
                assert(grown.last_at(i) == old(self).last_at(i));
            }
            assert forall|i: int| i != id.index() implies #[trigger] self.seen_by(i) == old(self).seen_by(i) by {
                assert(grown.seen_by(i) == old(self).seen_by(i));
            }
            assert(self.seen_by(id.index()) == vision@);
        }
        let ghost placed = *self;
        proof {
            assert(self.history() == old(self).history());
        }
        let ghost h0 = self.history();
        let mut k: usize = 0;
        while k < vision.len()
            invariant
                self.wf(),
                self.entity_last_at@ == placed.entity_last_at@,
                self.map_vision@ == placed.map_vision@,
                h0 == old(self).history(),
                k <= vision.len(),
                map.wf(),
                vision_ok(*map, pos, vision@),
                forall|p: AbsolutePosition| #[trigger] self.history().contains_key(p) <==> (h0.contains_key(p)
                    || exists|w: int| 0 <= w < k && vision@[w].0 == p),
                forall|p: AbsolutePosition| #[trigger] self.history().contains_key(p) ==> self.history()[p] == if exists|w: int|
                    0 <= w < k && vision@[w].0 == p {
                    map.tile(p)
                } else {
                    h0[p]
                },
            decreases vision.len() - k,
        {
            let (p, t) = vision[k];
            proof {
                assert(vision@[k as int] == (p, t));
                assert(t == map.tile(p));
            }
            let ghost hb = self.history();
            self.map_history.insert(p, t);
            proof {
                assert(self.history() == hb.insert(p, t));
                assert forall|q: AbsolutePosition| #[trigger] self.history().contains_key(q) <==> (h0.contains_key(q)
                    || exists|w: int| 0 <= w < k + 1 && vision@[w].0 == q) by {
                    if q == p {
                        assert(vision@[k as int].0 == q);
                    }
                    if exists|w: int| 0 <= w < k + 1 && vision@[w].0 == q {
                        let w = choose|w: int| 0 <= w < k + 1 && vision@[w].0 == q;
                        if w < k {
                            assert(exists|w2: int| 0 <= w2 < k && vision@[w2].0 == q);
                        }
                    }
                }
                assert forall|q: AbsolutePosition| #[trigger] self.history().contains_key(q) implies self.history()[q] == if exists|w: int|
                    0 <= w < k + 1 && vision@[w].0 == q {
                    map.tile(q)
                } else {
                    h0[q]
                } by {
                    if q != p {
                        if exists|w: int| 0 <= w < k + 1 && vision@[w].0 == q {
                            let w = choose|w: int| 0 <= w < k + 1 && vision@[w].0 == q;
                            assert(w < k);
                            assert(exists|w2: int| 0 <= w2 < k && vision@[w2].0 == q);
                        }
                        if exists|w: int| 0 <= w < k && vision@[w].0 == q {
                            let w = choose|w: int| 0 <= w < k && vision@[w].0 == q;
                            assert(exists|w2: int| 0 <= w2 < k + 1 && vision@[w2].0 == q);
                        }
                    } else {
                        assert(vision@[k as int].0 == q);
                    }
                }
            }
            k += 1;
        }
        proof {
            assert forall|i: int| #[trigger] self.last_at(i) == if i == id.index() { Some(pos) } else { old(self).last_at(i) } by {
                assert(placed.last_at(i) == if i == id.index() { Some(pos) } else { old(self).last_at(i) });
            }
            assert forall|i: int| i != id.index() implies #[trigger] self.seen_by(i) == old(self).seen_by(i) by {
                assert(placed.seen_by(i) == old(self).seen_by(i));
            }
            assert(self.seen_by(id.index()) == placed.seen_by(id.index()));
        }
        FloorEvent::SeeMap(SeeMapEvent { subject: id, vision, implied_tiles: Vec::new() })
    }
}

/// Whether `ev` says that `subject` saw, from `center`, what can be seen there.
pub open spec fn see_map_ok(ev: FloorEvent, subject: EntityId, center: AbsolutePosition, map: FloorMap) -> bool {
    &&& ev matches FloorEvent::SeeMap(e)
    &&& ev->SeeMap_0.subject == subject
    &&& vision_ok(map, center, ev->SeeMap_0.vision@)
    &&& ev->SeeMap_0.implied_tiles@ == Seq::<(AbsolutePosition, FloorTile)>::empty()
}

/// What looking again from the moved entities does: each moved entity's last position
/// becomes its new one, and each that looked from elsewhere before says, in order, what it
/// sees now.
pub open spec fn vision_updated(
    old: FloorMapVision,
    moved: Seq<(EntityId, AbsolutePosition)>,
    map: FloorMap,
    new: FloorMapVision,
    log: Seq<FloorEvent>,
) -> bool {
    &&& new.wf()
    &&& forall|i: int| #[trigger] new.last_at(i) == if exists|w: int| 0 <= w < moved.len() && moved[w].0.index() == i {
        Some(moved[choose|w: int| 0 <= w < moved.len() && moved[w].0.index() == i].1)
    } else {
        old.last_at(i)
    }
    &&& log.len() == old.changed(moved).len()
    &&& forall|k: int| 0 <= k < log.len() ==> see_map_ok(#[trigger] log[k], old.changed(moved)[k].0, old.changed(moved)[k].1, map)
}

/// Whether two optional vision systems hold the same.
pub open spec fn same_vision(a: Option<FloorMapVision>, b: Option<FloorMapVision>) -> bool {
    match (a, b) {
        (None, None) => true,
        (Some(x), Some(y)) => {
            &&& x.wf() == y.wf()
            &&& forall|i: int| #[trigger] x.last_at(i) == y.last_at(i)
            &&& forall|i: int| #[trigger] x.seen_by(i) == y.seen_by(i)
            &&& x.history() == y.history()
        },
        _ => false,
    }
}

impl FloorMapVision {
    /// The moves whose entity last looked from elsewhere.
    pub open spec fn changed(&self, moved: Seq<(EntityId, AbsolutePosition)>) -> Seq<(EntityId, AbsolutePosition)> {
        moved.filter(|m: (EntityId, AbsolutePosition)| self.last_at(m.0.index()) != Some(m.1))
    }

    /// Looks again from every moved entity that last looked from elsewhere, in order, and
    /// says what each saw.
    pub fn update_entities(&self, moved: &Vec<(EntityId, AbsolutePosition)>, map: &FloorMap) -> (r: Writer<FloorMapVision, FloorEvent>)
        requires
            self.wf(),
            map.wf(),
            forall|a: int, b: int| 0 <= a < moved.len() && 0 <= b < moved.len() && a != b ==> moved@[a].0 != moved@[b].0,
        ensures
            vision_updated(*self, moved@, *map, r.value(), r.entries()),
            r.value().wf(),
            forall|i: int| #[trigger] r.value().last_at(i) == if exists|w: int| 0 <= w < moved.len() && moved@[w].0.index() == i {
                Some(moved@[choose|w: int| 0 <= w < moved.len() && moved@[w].0.index() == i].1)
            } else {
                self.last_at(i)
            },
            r.entries().len() == self.changed(moved@).len(),
            forall|k: int| 0 <= k < r.entries().len() ==> see_map_ok(
                #[trigger] r.entries()[k],
                self.changed(moved@)[k].0,
                self.changed(moved@)[k].1,
                *map,
            ),
    {
        let mut vision = self.clone();
        let mut log: Vec<FloorEvent> = Vec::new();
        let mut w: usize = 0;
        while w < moved.len()
            invariant
                vision.wf(),
                map.wf(),
                self.wf(),
                w <= moved.len(),
                forall|a: int, b: int| 0 <= a < moved.len() && 0 <= b < moved.len() && a != b ==> moved@[a].0 != moved@[b].0,
                forall|i: int| #[trigger] vision.last_at(i) == if exists|v: int| 0 <= v < w && moved@[v].0.index() == i {
                    Some(moved@[choose|v: int| 0 <= v < w && moved@[v].0.index() == i].1)
                } else {
                    self.last_at(i)
                },
                log.len() == self.changed(moved@.subrange(0, w as int)).len(),
                forall|k: int| 0 <= k < log.len() ==> see_map_ok(
                    #[trigger] log@[k],
                    self.changed(moved@.subrange(0, w as int))[k].0,
                    self.changed(moved@.subrange(0, w as int))[k].1,
                    *map,
                ),
            decreases moved.len() - w,
        {
            let (id, pos) = moved[w];
            let ghost before = vision;
            let ghost pre = moved@.subrange(0, w as int);
            proof {
                assert(moved@.subrange(0, w + 1) =~= pre.push((id, pos)));
                lemma_changed_push(*self, pre, (id, pos));
                if exists|v: int| 0 <= v < w && moved@[v].0.index() == id.index() {
                    let v = choose|v: int| 0 <= v < w && moved@[v].0.index() == id.index();
                    assert(moved@[v].0 == moved@[w as int].0);
                }
                assert(vision.last_at(id.index()) == self.last_at(id.index()));
            }
            let seen = if id.0 < vision.entity_last_at.len() {
                vision.entity_last_at[id.0]
            } else {
                None
            };
            let same = match seen {
                Some(p) => p.x == pos.x && p.y == pos.y,
                None => false,
            };
            if !same {
                let event = vision.update_and_emit_event(id, pos, map);
                log.push(event);
            }
            proof {
                assert forall|i: int| #[trigger] vision.last_at(i) == if exists|v: int| 0 <= v < w + 1 && moved@[v].0.index() == i {
                    Some(moved@[choose|v: int| 0 <= v < w + 1 && moved@[v].0.index() == i].1)
                } else {
                    self.last_at(i)
                } by {
                    assert(before.last_at(i) == if exists|v: int| 0 <= v < w && moved@[v].0.index() == i {
                        Some(moved@[choose|v: int| 0 <= v < w && moved@[v].0.index() == i].1)
                    } else {
                        self.last_at(i)
                    });
                    if i == id.index() {
                        assert(moved@[w as int].0.index() == i);
                        let v = choose|v: int| 0 <= v < w + 1 && moved@[v].0.index() == i;
                        assert(moved@[v].0 == moved@[w as int].0);
                        assert(v == w);
                    } else {
                        if exists|v: int| 0 <= v < w + 1 && moved@[v].0.index() == i {
                            let v = choose|v: int| 0 <= v < w + 1 && moved@[v].0.index() == i;
                            assert(v < w);
                            assert(exists|v2: int| 0 <= v2 < w && moved@[v2].0.index() == i);
                            let v2 = choose|v2: int| 0 <= v2 < w && moved@[v2].0.index() == i;
                            assert(moved@[v].0 == moved@[v2].0);
                        }
                        if exists|v: int| 0 <= v < w && moved@[v].0.index() == i {
                            let v = choose|v: int| 0 <= v < w && moved@[v].0.index() == i;
                            assert(exists|v2: int| 0 <= v2 < w + 1 && moved@[v2].0.index() == i);
                        }
                    }
                }
            }
            w += 1;
        }
        proof {
            assert(moved@.subrange(0, moved.len() as int) =~= moved@);
        }
        Writer::new_with_log(vision, log)
    }
}

proof fn lemma_changed_push(v: FloorMapVision, s: Seq<(EntityId, AbsolutePosition)>, m: (EntityId, AbsolutePosition))
    ensures
        v.changed(s.push(m)) == if v.last_at(m.0.index()) != Some(m.1) { v.changed(s).push(m) } else { v.changed(s) },
{
    reveal(Seq::filter);
    assert(s.push(m).drop_last() =~= s);
}

impl Clone for FloorMapVision {
    fn clone(&self) -> (r: Self)
        ensures
            r.wf() == self.wf(),
            forall|i: int| #[trigger] r.last_at(i) == self.last_at(i),
            forall|i: int| #[trigger] r.seen_by(i) == self.seen_by(i),
            r.history() == self.history(),
    {
        let last = self.entity_last_at.clone();
        proof {
            assert(last@ =~= self.entity_last_at@);
        }
        let mut seen: Vec<Vec<(AbsolutePosition, FloorTile)>> = Vec::new();
        let mut i: usize = 0;
        while i < self.map_vision.len()
            invariant
                i <= self.map_vision.len(),
                seen.len() == i,
                forall|k: int| 0 <= k < i ==> (#[trigger] seen@[k])@ == self.map_vision@[k]@,
            decreases self.map_vision.len() - i,
        {
            let v = copy_tiles(&self.map_vision[i]);
            seen.push(v);
            i += 1;
        }
        FloorMapVision { entity_last_at: last, map_vision: seen, map_history: self.map_history.clone() }
    }
}

} // verus!
