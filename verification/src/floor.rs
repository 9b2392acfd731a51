//! The logic and data of the main game. The map, turntaking, etc.
use vstd::prelude::*;

pub mod map;
pub mod mutators;
pub mod occupiers;
pub mod vision;

use crate::actions::events::EventModel;
use crate::actions::events::FloorEvent;
use crate::actions::events::log_models;
use crate::entity::BatchEntityUpdate;
use crate::entity::BatchEntityUpdateContextless;
use crate::entity::Entity;
use crate::entity::EntityId;
use crate::entity::EntityModel;
use crate::entity::EntitySet;
use crate::entity::EntityState;
use crate::entity::StateModel;
use crate::entity::ids_unique;
use crate::entity::apply_updates;
use crate::floor::occupiers::lemma_occupancy_push;
use crate::floor::vision::same_vision;
use crate::floor::map::FloorMap;
use crate::floor::map::FloorTile;
use crate::floor::mutators::DownedStateMutator;
use crate::floor::mutators::downed_events;
use crate::floor::mutators::mission_failed_events;
use crate::floor::mutators::settle_all;
use crate::floor::mutators::settle_updates;
use crate::floor::occupiers::Occupiers;
use crate::floor::occupiers::occupancy_map;
use crate::floor::occupiers::occupancy_unique;
use crate::floor::vision::FloorMapVision;
use crate::floor::vision::vision_updated;
use crate::positional::AbsolutePosition;
use crate::writer::Writer;
use crate::actions::public::KnockdownAfterJuggleAction;
use crate::actions::public::KnockdownAfterJuggleCommand;
use crate::actions::public::TryToStandUpAction;
use crate::actions::public::TryToStandUpCommand;
use crate::strategy::plan_result;
use crate::actions::utils::DelayCommand;
use crate::strategy::turn_limits;

verus! {

#[derive(Debug, PartialEq, Eq, Structural, Clone, Copy)]
pub enum TurntakingError {
    PlayerTurn { who: EntityId },
    NoTurntakers,
}

#[derive(Debug, PartialEq, Eq, Structural, Clone, Copy)]
pub enum FloorEndState {
    Undetermined,
    AnyPartyMemberDowned,
    AllPartyMembersExited,
    ExitedButNoFood,
}

/// A floor together with what happened to it.
pub type FloorUpdate = Writer<Floor, FloorEvent>;

/// Whether every entity that stands on a tile stands on a floor tile of `map`.
pub open spec fn stands_on_floor(ents: Seq<EntityModel>, map: FloorMap) -> bool {
    forall|i: int|
        0 <= i < ents.len() ==> ((#[trigger] ents[i]).occupied_position() matches Some(p) ==> map.tile(p)
            == FloorTile::Floor)
}

/// `(round, index)` pairs, ordered by round and then by index.
pub open spec fn turn_le(a: (u32, int), b: (u32, int)) -> bool {
    a.0 < b.0 || (a.0 == b.0 && a.1 <= b.1)
}

/// Whether it is the turn of entity `t.1` in round `t.0`: no entity has an earlier turn, and
/// ties go to the lower id.
pub open spec fn is_current_turn(ents: Seq<EntityModel>, t: (u32, EntityId)) -> bool {
    &&& 0 <= t.1.index() < ents.len()
    &&& ents[t.1.index()].state.next_round() == Some(t.0)
    &&& forall|i: int|
        0 <= i < ents.len() ==> ((#[trigger] ents[i]).state.next_round() matches Some(r) ==> turn_le(
            (t.0, t.1.index()),
            (r, i),
        ))
}

/// Whether any entity takes turns.
pub open spec fn has_turntaker(ents: Seq<EntityModel>) -> bool {
    exists|i: int| 0 <= i < ents.len() && (#[trigger] ents[i]).state.next_round() is Some
}

/// Whose turn it is, and in which round.
pub open spec fn current_turn(ents: Seq<EntityModel>) -> Option<(u32, EntityId)> {
    if has_turntaker(ents) {
        Some(choose|t: (u32, EntityId)| is_current_turn(ents, t))
    } else {
        None
    }
}

/// The current round; 0 where nobody takes turns.
pub open spec fn current_round(ents: Seq<EntityModel>) -> u32 {
    match current_turn(ents) {
        Some(t) => t.0,
        None => 0,
    }
}

/// Applying one update replaces one entity.
pub proof fn lemma_apply_single(ents: Seq<EntityModel>, id: EntityId, m: EntityModel)
    requires
        id.index() < ents.len(),
    ensures
        apply_updates(ents, seq![(id, m)]) == ents.update(id.index(), m),
{
    let u = seq![(id, m)];
    let l = apply_updates(ents, u);
    let r = ents.update(id.index(), m);
    assert forall|i: int| 0 <= i < ents.len() implies l[i] == r[i] by {
        if i == id.index() {
            assert(u[0].0.index() == i);
        } else {
            if crate::entity::updates_index(u, i) {
                let w = choose|w: int| 0 <= w < u.len() && #[trigger] u[w].0.index() == i;
                assert(w == 0);
            }
        }
    }
    assert(l =~= r);
}

/// The downing system only ever makes entities stop standing, so it keeps the floor valid.
pub proof fn lemma_settle_keeps_standing(s: Seq<EntityModel>, map: FloorMap, round: u32)
    requires
        occupancy_unique(s),
        stands_on_floor(s, map),
    ensures
        occupancy_unique(settle_all(s, round)),
        stands_on_floor(settle_all(s, round), map),
{
    let t = settle_all(s, round);
    assert forall|i: int| 0 <= i < t.len() implies (#[trigger] t[i]).occupied_position() is None || t[i].occupied_position()
        == s[i].occupied_position() by {}
    assert forall|a: int, b: int|
        0 <= a < t.len() && 0 <= b < t.len() && a != b && (#[trigger] t[a]).occupied_position() is Some
            implies t[a].occupied_position() != (#[trigger] t[b]).occupied_position() by {
        assert(t[a].occupied_position() == s[a].occupied_position());
        if t[b].occupied_position() is Some {
            assert(t[b].occupied_position() == s[b].occupied_position());
        }
    }
}

/// One update to an entity is allowed where the entity would stand on a floor tile that
/// nobody else stands on.
pub proof fn lemma_single_allowed(floor: Floor, id: EntityId, m: EntityModel)
    requires
        floor.wf(),
        id.index() < floor.entities@.len(),
        m.occupied_position() matches Some(p) ==> floor.map.tile(p) == FloorTile::Floor && (
        floor.occupiers@.contains_key(p) ==> floor.occupiers@[p] == id),
    ensures
        update_allowed(floor, seq![(id, m)]),
        settled_after(floor, seq![(id, m)]) == if floor.downing is Some {
            settle_all(floor.entities@.update(id.index(), m), current_round(floor.entities@))
        } else {
            floor.entities@.update(id.index(), m)
        },
{
    let s = floor.entities@;
    lemma_apply_single(s, id, m);
    let t = s.update(id.index(), m);
    assert(occupancy_unique(t)) by {
        assert forall|a: int, b: int|
            0 <= a < t.len() && 0 <= b < t.len() && a != b && (#[trigger] t[a]).occupied_position() is Some
                implies t[a].occupied_position() != (#[trigger] t[b]).occupied_position() by {
            if a == id.index() {
                let p = m.occupied_position()->0;
                if t[b].occupied_position() == Some(p) {
                    assert(t[b] == s[b]);
                    assert(occupied_by_witness(s, p, b));
                    assert(floor.occupiers@.contains_key(p));
                    let c = choose|c: int| #[trigger] occupied_by_witness(s, p, c);
                    if c != b {
                        assert(s[c].occupied_position() == s[b].occupied_position());
                    }
                }
            } else if b == id.index() {
                let p = t[a].occupied_position()->0;
                if m.occupied_position() == Some(p) {
                    assert(t[a] == s[a]);
                    assert(occupied_by_witness(s, p, a));
                    let c = choose|c: int| #[trigger] occupied_by_witness(s, p, c);
                    if c != a {
                        assert(s[c].occupied_position() == s[a].occupied_position());
                    }
                }
            } else {
                assert(t[a] == s[a] && t[b] == s[b]);
            }
        }
    }
    assert(stands_on_floor(t, floor.map)) by {
        assert forall|i: int| 0 <= i < t.len() implies ((#[trigger] t[i]).occupied_position() matches Some(p)
            ==> floor.map.tile(p) == FloorTile::Floor) by {
            if i != id.index() {
                assert(t[i] == s[i]);
            }
        }
    }
    if floor.downing is Some {
        lemma_settle_keeps_standing(t, floor.map, current_round(s));
    }
    assert(ids_unique(seq![(id, m)]));
}

/// Updates that move nobody and make nobody stand who did not stand already are allowed.
pub proof fn lemma_stationary_allowed(floor: Floor, updates: Seq<(EntityId, EntityModel)>)
    requires
        floor.wf(),
        ids_unique(updates),
        forall|w: int| 0 <= w < updates.len() ==> (#[trigger] updates[w]).0.index() < floor.entities@.len(),
        forall|w: int|
            0 <= w < updates.len() ==> ((#[trigger] updates[w]).1.occupied_position() matches Some(q)
                ==> floor.entities@[updates[w].0.index()].occupied_position() == Some(q)),
    ensures
        update_allowed(floor, updates),
{
    let s = floor.entities@;
    let t = apply_updates(s, updates);
    assert forall|j: int| 0 <= j < t.len() implies ((#[trigger] t[j]).occupied_position() is None
        || t[j].occupied_position() == s[j].occupied_position()) by {
        if crate::entity::updates_index(updates, j) {
            let w = choose|w: int| 0 <= w < updates.len() && #[trigger] updates[w].0.index() == j;
            assert(t[j] == updates[w].1);
        }
    }
    assert(occupancy_unique(t)) by {
        assert forall|a: int, b: int|
            0 <= a < t.len() && 0 <= b < t.len() && a != b && (#[trigger] t[a]).occupied_position() is Some
                implies t[a].occupied_position() != (#[trigger] t[b]).occupied_position() by {
            assert(t[a].occupied_position() == s[a].occupied_position());
            if t[b].occupied_position() is Some {
                assert(t[b].occupied_position() == s[b].occupied_position());
            }
        }
    }
    assert(stands_on_floor(t, floor.map)) by {
        assert forall|i: int| 0 <= i < t.len() implies ((#[trigger] t[i]).occupied_position() matches Some(p)
            ==> floor.map.tile(p) == FloorTile::Floor) by {
            if t[i].occupied_position() is Some {
                assert(t[i].occupied_position() == s[i].occupied_position());
            }
        }
    }
    if floor.downing is Some {
        lemma_settle_keeps_standing(t, floor.map, current_round(s));
    }
}

/// Updates that move nobody and make nobody stand keep a tile that only `id` may stand on
/// that way.
pub proof fn lemma_tile_stays_free(floor: Floor, updates: Seq<(EntityId, EntityModel)>, next: Floor, log: Seq<FloorEvent>, p: AbsolutePosition, id: EntityId)
    requires
        floor.wf(),
        updated(floor, updates, next, log),
        forall|w: int| 0 <= w < updates.len() ==> (#[trigger] updates[w]).0.index() < floor.entities@.len(),
        forall|w: int|
            0 <= w < updates.len() ==> ((#[trigger] updates[w]).1.occupied_position() matches Some(q) ==> floor.entities@[updates[w].0.index()].occupied_position() == Some(q)),
        forall|j: int| 0 <= j < floor.entities@.len() && j != id.index() ==> (#[trigger] floor.entities@[j]).occupied_position() != Some(p),
    ensures
        !next.occupiers@.contains_key(p) || next.occupiers@[p] == id,
{
    let s = floor.entities@;
    let t = apply_updates(s, updates);
    assert forall|j: int| 0 <= j < t.len() && j != id.index() implies (#[trigger] t[j]).occupied_position() != Some(p) by {
        if crate::entity::updates_index(updates, j) {
            let w = choose|w: int| 0 <= w < updates.len() && #[trigger] updates[w].0.index() == j;
            assert(t[j] == updates[w].1);
        }
    }
    let n = next.entities@;
    assert forall|j: int| 0 <= j < n.len() && j != id.index() implies (#[trigger] n[j]).occupied_position() != Some(p) by {
        assert(t[j].occupied_position() != Some(p));
    }
    if next.occupiers@.contains_key(p) {
        assert(next.occupiers@ == crate::floor::occupiers::occupancy_map(n));
        let c = choose|c: int| #[trigger] crate::floor::occupiers::occupied_by(n, p, c);
        assert(next.occupiers@[p] == EntityId(c as usize));
        assert(c == id.index());
    }
}

spec fn occupied_by_witness(s: Seq<EntityModel>, p: AbsolutePosition, i: int) -> bool {
    crate::floor::occupiers::occupied_by(s, p, i)
}

proof fn lemma_current_turn_unique(ents: Seq<EntityModel>, t: (u32, EntityId))
    requires
        is_current_turn(ents, t),
    ensures
        has_turntaker(ents),
        current_turn(ents) == Some(t),
{
    assert(ents[t.1.index()].state.next_round() is Some);
    let c = choose|c: (u32, EntityId)| is_current_turn(ents, c);
    assert(turn_le((t.0, t.1.index()), (c.0, c.1.index())));
    assert(turn_le((c.0, c.1.index()), (t.0, t.1.index())));
    assert(c.1 == t.1);
}

/// The log of the systems that run after an update: the downing system, then vision.
pub open spec fn systems_log(
    floor: Floor,
    round: u32,
    updates: Seq<(EntityId, EntityModel)>,
    latest: Seq<EntityModel>,
    next: Floor,
    log: Seq<FloorEvent>,
) -> bool {
    let settled_updates = if floor.downing is Some {
        settle_updates(updates, latest, round, latest.len())
    } else {
        updates
    };
    let settled = if floor.downing is Some { settle_all(latest, round) } else { latest };
    let downing_log = if floor.downing is Some {
        downed_events(latest, latest.len()) + mission_failed_events(settled_updates, settled)
    } else {
        Seq::<EventModel>::empty()
    };
    let moved = settled_updates.map_values(|u: (EntityId, EntityModel)| (u.0, u.1.pos));
    exists|k: int|
        0 <= k <= log.len() && log_models(log.subrange(0, k)) == downing_log && match (floor.vision, next.vision) {
            (Some(v), Some(nv)) => vision_updated(v, moved, floor.map, nv, log.subrange(k, log.len() as int)),
            (None, None) => k == log.len(),
            _ => false,
        }
}

/// The entities once the updates are applied and the downing system has run.
pub open spec fn settled_after(floor: Floor, updates: Seq<(EntityId, EntityModel)>) -> Seq<EntityModel> {
    let latest = apply_updates(floor.entities@, updates);
    if floor.downing is Some {
        settle_all(latest, current_round(floor.entities@))
    } else {
        latest
    }
}

/// Whether the floor accepts the updates: each names an entity of the floor, none twice, and
/// afterwards every standing entity stands on its own floor tile.
pub open spec fn update_allowed(floor: Floor, updates: Seq<(EntityId, EntityModel)>) -> bool {
    &&& ids_unique(updates)
    &&& forall|w: int| 0 <= w < updates.len() ==> (#[trigger] updates[w]).0.index() < floor.entities@.len()
    &&& occupancy_unique(settled_after(floor, updates))
    &&& stands_on_floor(settled_after(floor, updates), floor.map)
}

/// The entities after the updates, settled by the downing system where there is one.
pub open spec fn settled_entities(ents: Seq<EntityModel>, downing: bool, updates: Seq<(EntityId, EntityModel)>) -> Seq<EntityModel> {
    let latest = apply_updates(ents, updates);
    if downing {
        settle_all(latest, current_round(ents))
    } else {
        latest
    }
}

/// Whether a floor with these entities, this map and this downing system accepts the updates.
pub open spec fn allowed_entities(ents: Seq<EntityModel>, map: FloorMap, downing: bool, updates: Seq<(EntityId, EntityModel)>) -> bool {
    &&& ids_unique(updates)
    &&& forall|w: int| 0 <= w < updates.len() ==> (#[trigger] updates[w]).0.index() < ents.len()
    &&& occupancy_unique(settled_entities(ents, downing, updates))
    &&& stands_on_floor(settled_entities(ents, downing, updates), map)
}

/// Whether a floor accepts updates depends on its entities, map and downing system alone.
pub proof fn lemma_allowed_entities(floor: Floor, updates: Seq<(EntityId, EntityModel)>)
    ensures
        settled_after(floor, updates) == settled_entities(floor.entities@, floor.downing is Some, updates),
        update_allowed(floor, updates) == allowed_entities(floor.entities@, floor.map, floor.downing is Some, updates),
{
}

/// Whether `next`, with `log`, is the floor after the updates: the entities are settled, the
/// map and the downing system are kept, and the systems logged what they did.
pub open spec fn updated(floor: Floor, updates: Seq<(EntityId, EntityModel)>, next: Floor, log: Seq<FloorEvent>) -> bool {
    &&& next.wf()
    &&& next.entities@ == settled_after(floor, updates)
    &&& next.map == floor.map
    &&& next.downing == floor.downing
    &&& systems_log(
        floor,
        current_round(floor.entities@),
        updates,
        apply_updates(floor.entities@, updates),
        next,
        log,
    )
}

#[derive(Debug)]
pub struct Floor {
    // Rc is shared between Floor generations.
    // Prefer to use indices since serializing Rcs does not preserve identity.
    pub entities: EntitySet,
    pub occupiers: Occupiers,
    pub map: FloorMap,
    pub downing: Option<DownedStateMutator>,
    pub vision: Option<FloorMapVision>,
}

impl Clone for Floor {
    fn clone(&self) -> (r: Self)
        ensures
            r.entities@ == self.entities@,
            r.occupiers@ == self.occupiers@,
            r.occupiers.wf() == self.occupiers.wf(),
            r.map == self.map,
            r.downing == self.downing,
            same_vision(self.vision, r.vision),
            self.wf() ==> r.wf(),
    {
        let vision = match &self.vision {
            Some(v) => Some(v.clone()),
            None => None,
        };
        Floor {
            entities: self.entities.clone(),
            occupiers: self.occupiers.clone(),
            map: self.map.clone(),
            downing: self.downing,
            vision,
        }
    }
}

impl Default for Floor {
    fn default() -> (r: Self)
        ensures
            r.wf(),
            r.entities@ == Seq::<EntityModel>::empty(),
            r.downing is Some,
            r.vision is Some,
    {
        // Honestly this shouldn't be the default. Maybe the default for library users I guess?
        Floor::new_with_all_systems()
    }
}

impl Floor {
    /// The floor's invariants: every standing entity stands on its own floor tile, and the
    /// occupiers say who stands where.
    pub open spec fn wf(&self) -> bool {
        &&& self.map.wf()
        &&& self.occupiers.wf()
        &&& self.entities@.len() <= usize::MAX
        &&& occupancy_unique(self.entities@)
        &&& self.occupiers@ == occupancy_map(self.entities@)
        &&& stands_on_floor(self.entities@, self.map)
        &&& (self.vision matches Some(v) ==> v.wf())
    }

    #[must_use]
    pub fn new_with_all_systems() -> (r: Self)
        ensures
            r.wf(),
            r.entities@ == Seq::<EntityModel>::empty(),
            r.downing is Some,
            r.vision is Some,
    {
        let r = Floor {
            entities: EntitySet::new(),
            occupiers: Occupiers::new(),
            map: FloorMap::new_empty(),
            downing: Some(DownedStateMutator),
            vision: Some(FloorMapVision::new()),
        };
        proof {
            assert(occupancy_map(r.entities@) =~= Map::<AbsolutePosition, EntityId>::empty());
        }
        r
    }

    /// For testing. If you want to enable specific things, mutate or construct.
    #[must_use]
    pub fn new_minimal() -> (r: Self)
        ensures
            r.wf(),
            r.entities@ == Seq::<EntityModel>::empty(),
            forall|p: AbsolutePosition| #[trigger] r.map.tile(p) == FloorTile::Floor,
            r.downing is None,
            r.vision is None,
    {
        let r = Floor {
            entities: EntitySet::new(),
            occupiers: Occupiers::new(),
            map: FloorMap::new_empty(),
            downing: None,
            vision: None,
        };
        proof {
            assert(occupancy_map(r.entities@) =~= Map::<AbsolutePosition, EntityId>::empty());
        }
        r
    }

    /// Adds an entity; the floor must hold its tile, and no one may stand there if it stands.
    #[must_use]
    pub fn add_entity(&self, new: Entity) -> (r: (FloorUpdate, EntityId))
        requires
            self.wf(),
            self.entities@.len() < usize::MAX,
            self.map.tile(new@.pos) == FloorTile::Floor,
            new@.occupied_position() matches Some(p) ==> !self.occupiers@.contains_key(p),
        ensures
            r.1.index() == self.entities@.len(),
            r.0.value().wf(),
            r.0.value().entities@ == self.entities@.push(new@),
            r.0.value().map == self.map,
            r.0.value().downing == self.downing,
            match (self.vision, r.0.value().vision) {
                (Some(v), Some(nv)) => vision_updated(v, seq![(r.1, new@.pos)], self.map, nv, r.0.entries()),
                (None, None) => r.0.entries() == Seq::<FloorEvent>::empty(),
                _ => false,
            },
    {
        let mut next_entities = self.entities.clone();
        let pos = new.pos;
        let ghost nm = new@;
        let id = next_entities.add(new);
        let next_occupiers = self.occupiers.add_entity((id, next_entities.get(id)));
        proof {
            let s = self.entities@;
            let t = s.push(nm);
            assert(t == next_entities@);
            assert(occupancy_unique(t)) by {
                assert forall|a: int, b: int|
                    0 <= a < t.len() && 0 <= b < t.len() && a != b && (#[trigger] t[a]).occupied_position() is Some
                        implies t[a].occupied_position() != (#[trigger] t[b]).occupied_position() by {
                    if a < s.len() && b < s.len() {
                        assert(t[a] == s[a] && t[b] == s[b]);
                    } else if a == s.len() {
                        assert(t[b] == s[b]);
                        if t[a].occupied_position() == t[b].occupied_position() {
                            let p = nm.occupied_position()->0;
                            assert(occupied_by_witness(s, p, b));
                        }
                    } else {
                        assert(t[a] == s[a]);
                        if t[a].occupied_position() == t[b].occupied_position() {
                            let p = nm.occupied_position()->0;
                            assert(occupied_by_witness(s, p, a));
                        }
                    }
                }
            }
            lemma_occupancy_push(s, nm);
            assert(stands_on_floor(t, self.map)) by {
                assert forall|i: int| 0 <= i < t.len() implies ((#[trigger] t[i]).occupied_position() matches Some(p)
                    ==> self.map.tile(p) == FloorTile::Floor) by {
                    if i < s.len() {
                        assert(t[i] == s[i]);
                    }
                }
            }
        }
        let (next_vision, log) = match &self.vision {
            Some(v) => {
                let moved = vec![(id, pos)];
                proof {
                    assert(moved@ =~= seq![(id, pos)]);
                }
                let w = v.update_entities(&moved, &self.map);
                let (nv, log) = w.into_both();
                (Some(nv), log)
            },
            None => (None, Vec::new()),
        };
        (
            Writer::new_with_log(
                Floor {
                    entities: next_entities,
                    occupiers: next_occupiers,
                    map: self.map.clone(),
                    downing: self.downing,
                    vision: next_vision,
                },
                log,
            ),
            id,
        )
    }

    /// The same floor on another map, which must hold every standing entity on a floor tile.
    #[must_use]
    pub fn set_map(&self, map: FloorMap) -> (r: Self)
        requires
            self.wf(),
            map.wf(),
            stands_on_floor(self.entities@, map),
        ensures
            r.wf(),
            r.entities@ == self.entities@,
            r.map == map,
            r.downing == self.downing,
            same_vision(self.vision, r.vision),
    {
        let vision = match &self.vision {
            Some(v) => Some(v.clone()),
            None => None,
        };
        Floor {
            entities: self.entities.clone(),
            occupiers: self.occupiers.clone(),
            map,
            downing: self.downing,
            vision,
        }
    }

    /// Applies a batch of updates (a map from ids to their new entities), runs the downing
    /// system, rebuilds the occupiers, and lets the updated entities look again.
    #[must_use]
    pub fn update_entities_map(&self, batch: BatchEntityUpdateContextless) -> (r: FloorUpdate)
        requires
            self.wf(),
            update_allowed(*self, batch.updates()),
        ensures
            updated(*self, batch.updates(), r.value(), r.entries()),
    {
        let round = self.get_current_round();
        let ghost u0 = batch.updates();
        let ghost latest = apply_updates(self.entities@, u0);
        let mut batch = BatchEntityUpdate { contextless: batch, context: &self.entities };
        let downing_log: Vec<FloorEvent> = match self.downing {
            Some(d) => {
                let w = d.mutate_entities(round, &mut batch);
                let l = w.into_both().1;
                proof {
                    assert(log_models(l@) == downed_events(latest, latest.len()) + mission_failed_events(
                        batch.contextless.updates(),
                        batch.latest(),
                    ));
                }
                l
            },
            None => Vec::new(),
        };
        let ghost settled_updates = batch.contextless.updates();
        let ghost settled = batch.latest();
        let mut moved: Vec<(EntityId, AbsolutePosition)> = Vec::new();
        let mut i: usize = 0;
        while i < batch.contextless.0.len()
            invariant
                settled_updates == batch.contextless.updates(),
                i <= settled_updates.len(),
                moved@ == settled_updates.subrange(0, i as int).map_values(|u: (EntityId, EntityModel)| (u.0, u.1.pos)),
            decreases settled_updates.len() - i,
        {
            moved.push((batch.contextless.0[i].0, batch.contextless.0[i].1.pos));
            i += 1;
            proof {
                assert(moved@ =~= settled_updates.subrange(0, i as int).map_values(|u: (EntityId, EntityModel)| (u.0, u.1.pos)));
            }
        }
        proof {
            assert(settled_updates.subrange(0, settled_updates.len() as int) =~= settled_updates);
        }
        let next_occupiers = self.occupiers.update_entities(&batch);
        let next_entities = batch.commit();
        let (next_vision, vision_log) = match &self.vision {
            Some(v) => {
                proof {
                    assert forall|a: int, b: int| 0 <= a < moved.len() && 0 <= b < moved.len() && a != b implies moved@[a].0
                        != moved@[b].0 by {
                        assert(moved@[a].0 == settled_updates[a].0);
                        assert(moved@[b].0 == settled_updates[b].0);
                    }
                }
                let w = v.update_entities(&moved, &self.map);
                let (nv, log) = w.into_both();
                (Some(nv), log)
            },
            None => (None, Vec::new()),
        };
        let mut log = downing_log;
        let ghost k = log.len();
        let mut vision_log = vision_log;
        let ghost vision_log_copy = vision_log;
        log.append(&mut vision_log);
        let next = Floor {
            entities: next_entities,
            occupiers: next_occupiers,
            map: self.map.clone(),
            downing: self.downing,
            vision: next_vision,
        };
        proof {
            assert(log@.subrange(0, k as int) =~= downing_log@);
            assert(log@.subrange(k as int, log@.len() as int) =~= vision_log_copy@);
            assert(settled == settled_after(*self, u0));
            assert(next.entities@ == settled_after(*self, u0));
            assert(next.occupiers@ == occupancy_map(next.entities@));
            assert(next.wf());
            let round_s = current_round(self.entities@);
            let su = if self.downing is Some { settle_updates(u0, latest, round_s, latest.len()) } else { u0 };
            let st = if self.downing is Some { settle_all(latest, round_s) } else { latest };
            let dl = if self.downing is Some {
                downed_events(latest, latest.len()) + mission_failed_events(su, st)
            } else {
                Seq::<EventModel>::empty()
            };
            assert(su == settled_updates);
            assert(st == settled);
            if self.downing is None {
                assert(log_models(downing_log@) =~= Seq::<EventModel>::empty());
            }
            assert(log_models(log@.subrange(0, k as int)) == dl);
            let mv = su.map_values(|u: (EntityId, EntityModel)| (u.0, u.1.pos));
            assert(moved@ == mv);
            assert(0 <= k <= log@.len());
            assert(systems_log(*self, current_round(self.entities@), u0, latest, next, log@));
        }
        Writer::new_with_log(next, log)
    }

    /// Updates one entity.
    #[must_use]
    pub fn update_entity(&self, new: (EntityId, Entity)) -> (r: FloorUpdate)
        requires
            self.wf(),
            update_allowed(*self, seq![(new.0, new.1@)]),
        ensures
            updated(*self, seq![(new.0, new.1@)], r.value(), r.entries()),
    {
        let (id, e) = new;
        let mut batch = BatchEntityUpdateContextless::new();
        let ghost em = e@;
        let _ = batch.insert(id, e);
        proof {
            assert(batch.updates() =~= seq![(id, em)]);
        }
        self.update_entities_map(batch)
    }

    /// Updates several entities at once; each may be named once.
    #[must_use]
    pub fn update_entities(&self, new_set: Vec<(EntityId, Entity)>) -> (r: FloorUpdate)
        requires
            self.wf(),
            update_allowed(*self, new_set@.map_values(|p: (EntityId, Entity)| (p.0, p.1@))),
        ensures
            updated(*self, new_set@.map_values(|p: (EntityId, Entity)| (p.0, p.1@)), r.value(), r.entries()),
    {
        let ghost u = new_set@.map_values(|p: (EntityId, Entity)| (p.0, p.1@));
        let batch = BatchEntityUpdateContextless(new_set);
        proof {
            assert(batch.updates() =~= u);
        }
        self.update_entities_map(batch)
    }

    /// Whose turn it is, and in which round: the earliest next round, ties to the lower id.
    #[must_use]
    pub fn get_current_turn(&self) -> (r: Option<(u32, EntityId)>)
        requires
            self.wf(),
        ensures
            r == current_turn(self.entities@),
            r matches Some(t) ==> is_current_turn(self.entities@, t),
    {
        let n = self.entities.len();
        let mut best: Option<(u32, EntityId)> = None;
        let mut i: usize = 0;
        while i < n
            invariant
                self.wf(),
                n == self.entities@.len(),
                i <= n,
                best is None <==> !has_turntaker(self.entities@.subrange(0, i as int)),
                best matches Some(t) ==> is_current_turn(self.entities@.subrange(0, i as int), t),
            decreases n - i,
        {
            let e = self.entities.get(EntityId(i));
            let ghost pre = self.entities@.subrange(0, i as int);
            let ghost post = self.entities@.subrange(0, i + 1);
            proof {
                assert(post =~= pre.push(self.entities@[i as int]));
            }
            match e.get_next_round() {
                Some(round) => {
                    let better = match best {
                        Some(t) => round < t.0,
                        None => true,
                    };
                    if better {
                        best = Some((round, EntityId(i)));
                    }
                },
                None => {},
            }
            proof {
                assert(post[i as int] == self.entities@[i as int]);
                if self.entities@[i as int].state.next_round() is Some {
                    assert(post[i as int].state.next_round() is Some);
                }
                if has_turntaker(post) {
                    let w = choose|w: int| 0 <= w < post.len() && (#[trigger] post[w]).state.next_round() is Some;
                    if w < i {
                        assert(pre[w] == post[w]);
                    }
                }
                if has_turntaker(pre) {
                    let w = choose|w: int| 0 <= w < pre.len() && (#[trigger] pre[w]).state.next_round() is Some;
                    assert(post[w] == pre[w]);
                }
                if let Some(t) = best {
                    assert forall|k: int| 0 <= k < post.len() implies ((#[trigger] post[k]).state.next_round() matches Some(r)
                        ==> turn_le((t.0, t.1.index()), (r, k))) by {
                        if k < i {
                            assert(post[k] == pre[k]);
                        }
                    }
                }
            }
            i += 1;
        }
        proof {
            assert(self.entities@.subrange(0, n as int) =~= self.entities@);
            if let Some(t) = best {
                lemma_current_turn_unique(self.entities@, t);
            }
        }
        best
    }

    #[must_use]
    pub fn get_current_entity(&self) -> (r: Option<EntityId>)
        requires
            self.wf(),
        ensures
            r == match current_turn(self.entities@) {
                Some(t) => Some(t.1),
                None => None::<EntityId>,
            },
    {
        match self.get_current_turn() {
            Some(t) => Some(t.1),
            None => None,
        }
    }

    /// If there are no turntaking entities, the next turn can safely be 0 without "going back in time".
    #[must_use]
    pub fn get_current_round(&self) -> (r: u32)
        requires
            self.wf(),
        ensures
            r == current_round(self.entities@),
    {
        match self.get_current_turn() {
            Some(t) => t.0,
            None => 0,
        }
    }

    /// How the floor ended, if it has: a party member is down, or every party member left.
    #[must_use]
    pub fn get_end_state(&self) -> (r: FloorEndState)
        requires
            self.wf(),
        ensures
            r == if exists|i: int|
                0 <= i < self.entities@.len() && (#[trigger] self.entities@[i]).is_player_friendly
                    && self.entities@[i].state is Downed {
                FloorEndState::AnyPartyMemberDowned
            } else if forall|i: int|
                0 <= i < self.entities@.len() && (#[trigger] self.entities@[i]).is_player_friendly
                    ==> self.entities@[i].state is Exited {
                FloorEndState::AllPartyMembersExited
            } else {
                FloorEndState::Undetermined
            },
    {
        let n = self.entities.len();
        let mut any_downed = false;
        let mut all_exited = true;
        let mut i: usize = 0;
        while i < n
            invariant
                n == self.entities@.len(),
                i <= n,
                any_downed == exists|k: int|
                    0 <= k < i && (#[trigger] self.entities@[k]).is_player_friendly && self.entities@[k].state is Downed,
                all_exited == forall|k: int|
                    0 <= k < i && (#[trigger] self.entities@[k]).is_player_friendly ==> self.entities@[k].state is Exited,
            decreases n - i,
        {
            let e = self.entities.get(EntityId(i));
            if e.is_player_friendly {
                match e.state {
                    crate::entity::EntityState::Downed { .. } => {
                        any_downed = true;
                        all_exited = false;
                    },
                    crate::entity::EntityState::Exited { .. } => {},
                    _ => {
                        all_exited = false;
                    },
                }
            }
            i += 1;
        }
        if any_downed {
            FloorEndState::AnyPartyMemberDowned
        } else if all_exited {
            FloorEndState::AllPartyMembersExited
        } else {
            FloorEndState::Undetermined
        }
    }
}


/// Whether the turn that `take_npc_turn` takes can run: the queued command of a committed
/// entity, the standing up of a knocked down one, the fall of one in hitstun, or the
/// strategy of one that nobody controls.
pub open spec fn npc_turn_ready(floor: Floor) -> bool {
    let ents = floor.entities@;
    match current_turn(ents) {
        None => true,
        Some(t) => {
            let id = t.1;
            match ents[id.index()].state {
                StateModel::Committed { queued_command, .. } => queued_command.spec_verify(id).can_run(floor),
                StateModel::Knockdown { next_round } => (TryToStandUpCommand { subject_id: id, now: next_round }).can_run(
                    floor,
                ),
                StateModel::Hitstun { next_round, .. } => (KnockdownAfterJuggleCommand {
                    subject_id: id,
                    now: next_round,
                }).can_run(floor),
                _ => ents[id.index()].is_player_controlled || turn_limits(floor, id),
            }
        },
    }
}

/// What `take_npc_turn` gives back.
pub open spec fn npc_turn_result(floor: Floor, r: Result<FloorUpdate, TurntakingError>) -> bool {
    let ents = floor.entities@;
    match current_turn(ents) {
        None => r == Err::<FloorUpdate, TurntakingError>(TurntakingError::NoTurntakers),
        Some(t) => {
            let id = t.1;
            match ents[id.index()].state {
                StateModel::Committed { queued_command, .. } => r matches Ok(u) && queued_command.spec_verify(id).result(
                    floor,
                    u.value(),
                    u.entries(),
                ),
                StateModel::Knockdown { next_round } => r matches Ok(u) && (TryToStandUpCommand {
                    subject_id: id,
                    now: next_round,
                }).result(floor, u.value(), u.entries()),
                StateModel::Hitstun { next_round, .. } => r matches Ok(u) && (KnockdownAfterJuggleCommand {
                    subject_id: id,
                    now: next_round,
                }).result(floor, u.value(), u.entries()),
                _ => if ents[id.index()].is_player_controlled {
                    r == Err::<FloorUpdate, TurntakingError>(TurntakingError::PlayerTurn { who: id })
                } else {
                    r matches Ok(u) && exists|path_step: Option<AbsolutePosition>|
                        ents[id.index()].strategy.path_search(floor, id, path_step) && plan_result(
                            ents[id.index()].strategy.plan(floor, id, path_step),
                            floor,
                            id,
                            u.value(),
                            u.entries(),
                        )
                },
            }
        },
    }
}

impl Floor {
    /// Takes the turn of whoever's turn it is, where nobody controls it: a committed entity
    /// runs its queued command, a knocked down one tries to stand up, one in hitstun falls,
    /// and any other follows its strategy. A player's turn is not taken.
    pub fn take_npc_turn(&self) -> (r: Result<FloorUpdate, TurntakingError>)
        requires
            self.wf(),
            npc_turn_ready(*self),
        ensures
            npc_turn_result(*self, r),
    {
        let next_id = match self.get_current_turn() {
            Some(t) => t.1,
            None => return Err(TurntakingError::NoTurntakers),
        };
        let entity = self.entities.get(next_id);
        match &entity.state {
            EntityState::Committed { queued_command, .. } => {
                return Ok(queued_command.verify_action(self, next_id).do_action(self));
            },
            EntityState::Knockdown { .. } => {
                return match TryToStandUpAction.verify_action(self, next_id) {
                    Ok(c) => Ok(c.do_action(self)),
                    Err(_) => Err(TurntakingError::NoTurntakers),
                };
            },
            EntityState::Hitstun { .. } => {
                return match KnockdownAfterJuggleAction.verify_action(self, next_id) {
                    Ok(c) => Ok(c.do_action(self)),
                    Err(_) => Err(TurntakingError::NoTurntakers),
                };
            },
            _ => {},
        }
        if entity.is_player_controlled {
            return Err(TurntakingError::PlayerTurn { who: next_id });
        }
        let r = entity.strategy.take_turn(self, next_id);
        proof {
            let ps = choose|ps: Option<AbsolutePosition>|
                entity.strategy.path_search(*self, next_id, ps) && #[trigger] plan_result(
                    entity.strategy.plan(*self, next_id, ps),
                    *self,
                    next_id,
                    r.value(),
                    r.entries(),
                );
            assert(self.entities@[next_id.index()].strategy == entity.strategy);
            assert(self.entities@[next_id.index()].strategy.path_search(*self, next_id, ps));
            assert(plan_result(
                self.entities@[next_id.index()].strategy.plan(*self, next_id, ps),
                *self,
                next_id,
                r.value(),
                r.entries(),
            ));
            assert(exists|path_step: Option<AbsolutePosition>|
                self.entities@[next_id.index()].strategy.path_search(*self, next_id, path_step) && #[trigger] plan_result(
                    self.entities@[next_id.index()].strategy.plan(*self, next_id, path_step),
                    *self,
                    next_id,
                    r.value(),
                    r.entries(),
                ));
        }
        Ok(r)
    }
}


/// Every floor that an update leaves is sound: no two entities stand on one tile, the
/// occupiers name exactly who stands where, and whoever stands, stands on a floor tile.
pub proof fn lemma_updated_floor_is_sound(floor: Floor, updates: Seq<(EntityId, EntityModel)>, next: Floor, log: Seq<FloorEvent>)
    requires
        updated(floor, updates, next, log),
    ensures
        next.wf(),
        occupancy_unique(next.entities@),
        next.occupiers@ == occupancy_map(next.entities@),
        stands_on_floor(next.entities@, next.map),
        next.map == floor.map,
{
}

/// A queued action runs on its turn: after a delay commits the subject, and the subject
/// stays up, the turn that `take_npc_turn` takes for it when its turn comes is the queued
/// command.
pub proof fn lemma_delay_then_queued_runs(
    d: DelayCommand,
    floor: Floor,
    mid: Floor,
    log: Seq<FloorEvent>,
    r: Result<FloorUpdate, TurntakingError>,
)
    requires
        d.can_run(floor),
        d.result(floor, mid, log),
        floor.downing is Some ==> floor.entities@[d.subject_id.index()].health > 0,
        current_turn(mid.entities@) matches Some(t) && t.1 == d.subject_id,
        npc_turn_result(mid, r),
    ensures
        r matches Ok(u) && d.queued_command.spec_verify(d.subject_id).result(mid, u.value(), u.entries()),
{
    let u = seq![(d.subject_id, d.committed(floor))];
    lemma_apply_single(floor.entities@, d.subject_id, d.committed(floor));
    let t = apply_updates(floor.entities@, u);
    assert(t[d.subject_id.index()] == d.committed(floor));
    if floor.downing is Some {
        assert(settle_all(t, current_round(floor.entities@))[d.subject_id.index()] == t[d.subject_id.index()]);
    }
    assert(mid.entities@[d.subject_id.index()].state == (StateModel::Committed {
        next_round: (current_round(floor.entities@) + d.turns) as u32,
        queued_command: d.queued_command,
    }));
}

} // verus!
