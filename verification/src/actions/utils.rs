//! Commands and helpers that other commands are built from.
use vstd::prelude::*;

use crate::actions::events::AttackHitEvent;
use crate::actions::events::FloorEvent;
use crate::actions::events::JuggleHitEvent;
use crate::actions::events::JuggleLimitEvent;
use crate::actions::events::KnockbackEvent;
use crate::actions::events::KnockdownEvent;
use crate::actions::events::log_models;
use crate::actions::known::KnownInfallibleAction;
use crate::entity::BatchEntityUpdate;
use crate::entity::BatchEntityUpdateContextless;
use crate::entity::Entity;
use crate::entity::EntityId;
use crate::entity::EntityModel;
use crate::entity::EntityState;
use crate::entity::StateModel;
use crate::entity::apply_updates;
use crate::entity::ids_unique;
use crate::floor::Floor;
use crate::floor::FloorUpdate;
use crate::floor::current_round;
use crate::floor::current_turn;
use crate::floor::lemma_settle_keeps_standing;
use crate::floor::lemma_single_allowed;
use crate::floor::allowed_entities;
use crate::floor::lemma_allowed_entities;
use crate::floor::map::FloorMap;
use crate::floor::map::FloorTile;
use crate::floor::occupiers::occupancy_map;
use crate::floor::occupiers::occupancy_unique;
use crate::floor::occupiers::occupied_by;
use crate::floor::settled_after;
use crate::floor::stands_on_floor;
use crate::floor::update_allowed;
use crate::floor::updated;
use crate::positional::algorithms::Segment;
use crate::positional::algorithms::lemma_relative_segment_start;
use crate::positional::algorithms::relative_segment;
use crate::positional::algorithms::segment_computable;
use crate::positional::fits_i32;
use crate::positional::AbsolutePosition;
use crate::positional::RelativePosition;
use crate::writer::Writer;

verus! {

/// An update with the same model is the same update.
proof fn lemma_single_allowed_refl(floor: Floor, id: EntityId, a: EntityModel, b: EntityModel)
    requires
        a == b,
        update_allowed(floor, seq![(id, b)]),
    ensures
        update_allowed(floor, seq![(id, a)]),
{
}

/// The event, if there is one, as a log.
pub open spec fn opt_seq(e: Option<FloorEvent>) -> Seq<FloorEvent> {
    match e {
        Some(e) => seq![e],
        None => Seq::empty(),
    }
}

/// The state of an entity hit in a juggle, and what is logged: it goes into hitstun for
/// `stun` turns from `coming`, or, in hitstun, loses one extension (into knockdown once none
/// is left), or, knocked down, is hit back up.
pub open spec fn juggled(state: StateModel, coming: int, stun: int, hit: EntityId) -> (StateModel, Seq<FloorEvent>) {
    match state {
        StateModel::Hitstun { extensions, .. } => if extensions == 0 {
            (
                StateModel::Knockdown { next_round: coming as u32 },
                seq![FloorEvent::JuggleLimit(JuggleLimitEvent { target: hit })],
            )
        } else {
            (
                StateModel::Hitstun { next_round: (coming + 1) as u32, extensions: (extensions - 1) as u32 },
                seq![FloorEvent::JuggleHit(JuggleHitEvent { target: hit })],
            )
        },
        StateModel::Knockdown { .. } => (StateModel::Ready { next_round: coming as u32 }, Seq::empty()),
        _ => (
            StateModel::Hitstun { next_round: (coming + stun) as u32, extensions: 1 },
            seq![FloorEvent::JuggleHit(JuggleHitEvent { target: hit })],
        ),
    }
}

/// The state of an entity after hits at the given times, one after another.
pub open spec fn hit_repeatedly(state: StateModel, comings: Seq<int>, stun: int, hit: EntityId) -> StateModel
    decreases comings.len(),
{
    if comings.len() == 0 {
        state
    } else {
        hit_repeatedly(juggled(state, comings[0], stun, hit).0, comings.drop_first(), stun, hit)
    }
}

/// A juggle hit on an entity in hitstun spends one extension: with `n > 0` left, it stays in
/// hitstun with exactly `n - 1` and a juggle hit is logged; with none left, it is knocked
/// down and the juggle limit is logged. Any other hit puts a standing entity into hitstun
/// with one extension.
pub proof fn law_juggle_spends_extensions(state: StateModel, coming: int, stun: int, hit: EntityId)
    ensures
        state is Hitstun && state->extensions > 0 ==> juggled(state, coming, stun, hit).0 is Hitstun
            && juggled(state, coming, stun, hit).0->extensions + 1 == state->extensions && juggled(state, coming, stun, hit).1
            == seq![FloorEvent::JuggleHit(JuggleHitEvent { target: hit })],
        state is Hitstun && state->extensions == 0 ==> juggled(state, coming, stun, hit).0 is Knockdown && juggled(
            state,
            coming,
            stun,
            hit,
        ).1 == seq![FloorEvent::JuggleLimit(JuggleLimitEvent { target: hit })],
        !(state is Hitstun) && !(state is Knockdown) ==> juggled(state, coming, stun, hit).0 is Hitstun && juggled(
            state,
            coming,
            stun,
            hit,
        ).0->extensions == 1,
{
}

/// Every juggle ends: an entity in hitstun with `n` extensions is knocked down by the
/// `n + 1`-th hit, whenever the hits come.
pub proof fn law_juggle_ends(state: StateModel, comings: Seq<int>, stun: int, hit: EntityId)
    requires
        state is Hitstun,
        comings.len() == state->extensions + 1,
    ensures
        hit_repeatedly(state, comings, stun, hit) is Knockdown,
    decreases comings.len(),
{
    law_juggle_spends_extensions(state, comings[0], stun, hit);
    let next = juggled(state, comings[0], stun, hit).0;
    assert(hit_repeatedly(state, comings, stun, hit) == hit_repeatedly(next, comings.drop_first(), stun, hit));
    if state->extensions > 0 {
        law_juggle_ends(next, comings.drop_first(), stun, hit);
    } else {
        assert(comings.drop_first().len() == 0);
        assert(hit_repeatedly(next, comings.drop_first(), stun, hit) == next);
    }
}

/// The round in which an entity hit at `now` acts next: after the current turn, and one more
/// round if it already acted this round.
pub open spec fn coming_turn(now: (u32, EntityId), hit: EntityId) -> int {
    now.0 + 1 + if hit.index() < now.1.index() { 1int } else { 0 }
}

/// Puts an entity hit at `now` into a juggle.
pub fn start_juggle(floor: &Floor, hit_id: EntityId, now: (u32, EntityId), stun_turns: u32) -> (r: Writer<Entity, FloorEvent>)
    requires
        floor.wf(),
        hit_id.index() < floor.entities@.len(),
        stun_turns > 0,
        now.0 + 2 + stun_turns <= u32::MAX,
        !(floor.entities@[hit_id.index()].state is Downed),
        !(floor.entities@[hit_id.index()].state is Exited),
    ensures
        r.value()@ == floor.entities@[hit_id.index()].with_state(
            juggled(floor.entities@[hit_id.index()].state, coming_turn(now, hit_id), stun_turns as int, hit_id).0,
        ),
        r.entries() == juggled(floor.entities@[hit_id.index()].state, coming_turn(now, hit_id), stun_turns as int, hit_id).1,
{
    let coming: u32 = now.0 + 1 + if hit_id.0 < now.1.0 { 1 } else { 0 };
    let e = floor.entities.get(hit_id);
    let (state, event) = match &e.state {
        EntityState::Hitstun { extensions, .. } => if *extensions == 0 {
            (
                EntityState::Knockdown { next_round: coming },
                Some(FloorEvent::JuggleLimit(JuggleLimitEvent { target: hit_id })),
            )
        } else {
            (
                EntityState::Hitstun { next_round: coming + 1, extensions: *extensions - 1 },
                Some(FloorEvent::JuggleHit(JuggleHitEvent { target: hit_id })),
            )
        },
        EntityState::Knockdown { .. } => (EntityState::Ready { next_round: coming }, None),
        _ => (
            EntityState::Hitstun { next_round: coming + stun_turns, extensions: 1 },
            Some(FloorEvent::JuggleHit(JuggleHitEvent { target: hit_id })),
        ),
    };
    let mut clone = e.clone();
    clone.state = state;
    let r = Writer::new(clone).log_option(event);
    proof {
        assert(r.entries() =~= juggled(floor.entities@[hit_id.index()].state, coming_turn(now, hit_id), stun_turns as int, hit_id).1);
    }
    r
}

/// Commits an entity to an action, to run `turns` rounds from now, and logs what it is about
/// to do.
#[derive(Debug)]
pub struct DelayCommand {
    pub subject_id: EntityId,
    pub queued_command: KnownInfallibleAction,
    pub turns: u32,
    pub event: Option<FloorEvent>,
}

impl DelayCommand {
    /// The subject, committed.
    pub open spec fn committed(&self, floor: Floor) -> EntityModel {
        floor.entities@[self.subject_id.index()].with_state(
            StateModel::Committed {
                next_round: (current_round(floor.entities@) + self.turns) as u32,
                queued_command: self.queued_command,
            },
        )
    }

    pub open spec fn can_run(&self, floor: Floor) -> bool {
        &&& floor.wf()
        &&& self.subject_id.index() < floor.entities@.len()
        &&& current_round(floor.entities@) + self.turns <= u32::MAX
        &&& update_allowed(floor, seq![(self.subject_id, self.committed(floor))])
    }

    pub open spec fn result(&self, floor: Floor, next: Floor, log: Seq<FloorEvent>) -> bool {
        let k = log.len() - opt_seq(self.event).len();
        &&& 0 <= k
        &&& updated(floor, seq![(self.subject_id, self.committed(floor))], next, log.subrange(0, k))
        &&& log_models(log.subrange(k, log.len() as int)) == log_models(opt_seq(self.event))
    }

    pub fn do_action(&self, floor: &Floor) -> (r: FloorUpdate)
        requires
            self.can_run(*floor),
        ensures
            self.result(*floor, r.value(), r.entries()),
    {
        let mut subject_clone: Entity = floor.entities.get(self.subject_id).clone();
        subject_clone.state = EntityState::Committed {
            next_round: floor.get_current_round() + self.turns,
            queued_command: self.queued_command,
        };
        let event = match &self.event {
            Some(e) => Some(e.clone()),
            None => None,
        };
        proof {
            lemma_single_allowed_refl(*floor, self.subject_id, subject_clone@, self.committed(*floor));
        }
        let update = floor.update_entity((self.subject_id, subject_clone));
        let r = update.log_option(event);
        proof {
            let k = r.entries().len() - opt_seq(self.event).len();
            assert(r.entries().subrange(0, k) =~= update.entries());
            assert(log_models(r.entries().subrange(k, r.entries().len() as int)) =~= log_models(opt_seq(self.event)));
        }
        r
    }
}

/// Who stands on `tile`, if anyone.
pub open spec fn occupant(floor: Floor, tile: AbsolutePosition) -> Option<EntityId> {
    if floor.occupiers@.contains_key(tile) {
        Some(floor.occupiers@[tile])
    } else {
        None
    }
}

/// An entity one health down.
pub open spec fn wounded(m: EntityModel) -> EntityModel {
    EntityModel { health: (m.health - 1) as i8, ..m }
}

/// The update that a hit on `tile` makes: whoever stands there loses one health.
pub open spec fn strike_updates(floor: Floor, tile: AbsolutePosition) -> Seq<(EntityId, EntityModel)> {
    match occupant(floor, tile) {
        Some(o) => seq![(o, wounded(floor.entities@[o.index()]))],
        None => Seq::empty(),
    }
}

/// The entities after a hit on `tile`.
pub open spec fn after_strike(floor: Floor, tile: AbsolutePosition) -> Seq<EntityModel> {
    match occupant(floor, tile) {
        Some(_) => settled_after(floor, strike_updates(floor, tile)),
        None => floor.entities@,
    }
}

/// A hit on `tile` needs a sound floor, and someone there who can lose health.
pub open spec fn can_strike(floor: Floor, tile: AbsolutePosition) -> bool {
    &&& floor.wf()
    &&& (occupant(floor, tile) matches Some(o) ==> floor.entities@[o.index()].health > i8::MIN)
}

/// Whether `next`, with `log`, is the floor after `subject` hits `tile`: on an empty tile
/// nothing happens; else the one standing there loses one health, and the hit is logged after
/// what the systems logged.
pub open spec fn struck(floor: Floor, subject: EntityId, tile: AbsolutePosition, next: Floor, log: Seq<FloorEvent>) -> bool {
    match occupant(floor, tile) {
        None => {
            &&& next.wf()
            &&& next.entities@ == floor.entities@
            &&& next.occupiers@ == floor.occupiers@
            &&& next.map == floor.map
            &&& next.downing == floor.downing
            &&& log.len() == 0
        },
        Some(o) => {
            &&& log.len() >= 1
            &&& updated(floor, strike_updates(floor, tile), next, log.drop_last())
            &&& log.last() == FloorEvent::AttackHit(AttackHitEvent { subject, target: o, damage: 1 })
        },
    }
}

/// `subject_id` hits `tile` for one damage.
pub fn strike(floor: &Floor, subject_id: EntityId, tile: AbsolutePosition) -> (r: FloorUpdate)
    requires
        can_strike(*floor, tile),
    ensures
        struck(*floor, subject_id, tile, r.value(), r.entries()),
        r.value().entities@ == after_strike(*floor, tile),
{
    match floor.occupiers.get(tile) {
        None => Writer::new(floor.clone()),
        Some(object_index) => {
            proof {
                lemma_occupant_valid(*floor, tile);
            }
            let mut object_clone = floor.entities.get(object_index).clone();
            object_clone.health = object_clone.health - 1;
            proof {
                let s = floor.entities@;
                assert(s[object_index.index()].occupied_position() == Some(tile));
                assert(object_clone@ == wounded(s[object_index.index()]));
                assert(stands_on_floor(s, floor.map));
                assert(s[object_index.index()].occupied_position() matches Some(p) ==> floor.map.tile(p) == FloorTile::Floor);
                lemma_single_allowed(*floor, object_index, object_clone@);
                assert(strike_updates(*floor, tile) == seq![(object_index, object_clone@)]);
            }
            let u = floor.update_entity((object_index, object_clone));
            let r = u.log(FloorEvent::AttackHit(AttackHitEvent { subject: subject_id, target: object_index, damage: 1 }));
            proof {
                assert(r.entries().drop_last() =~= u.entries());
            }
            r
        },
    }
}

/// Entity `id` of `ents`, committed to `queued` for `turns` rounds from the current one.
pub open spec fn committed_entity(ents: Seq<EntityModel>, id: EntityId, queued: KnownInfallibleAction, turns: u32) -> EntityModel {
    ents[id.index()].with_state(
        StateModel::Committed { next_round: (current_round(ents) + turns) as u32, queued_command: queued },
    )
}

/// Entity `id` of `ents`, ready again `delay` rounds from the current one.
pub open spec fn readied_entity(ents: Seq<EntityModel>, id: EntityId, delay: int) -> EntityModel {
    ents[id.index()].with_state(StateModel::Ready { next_round: (current_round(ents) + delay) as u32 })
}

/// Whether a floor with these entities, map and downing system can commit `id` to `queued`
/// for `turns` rounds.
pub open spec fn committable(
    ents: Seq<EntityModel>,
    map: FloorMap,
    downing: bool,
    id: EntityId,
    queued: KnownInfallibleAction,
    turns: u32,
) -> bool {
    &&& current_round(ents) + turns <= u32::MAX
    &&& allowed_entities(ents, map, downing, seq![(id, committed_entity(ents, id, queued, turns))])
}

/// A delay can run on a floor whose entities allow the commitment.
pub proof fn lemma_delay_can_run(d: DelayCommand, floor: Floor)
    requires
        floor.wf(),
        committable(floor.entities@, floor.map, floor.downing is Some, d.subject_id, d.queued_command, d.turns),
    ensures
        d.can_run(floor),
{
    let u = seq![(d.subject_id, d.committed(floor))];
    lemma_allowed_entities(floor, u);
    assert(u[0].0.index() < floor.entities@.len());
}

/// Whether `next`, with `log`, is the floor after `subject` hits `target` for one damage:
/// the systems' log, then the hit.
pub open spec fn hit_logged(floor: Floor, subject: EntityId, target: EntityId, next: Floor, log: Seq<FloorEvent>) -> bool {
    &&& log.len() >= 1
    &&& updated(floor, seq![(target, wounded(floor.entities@[target.index()]))], next, log.drop_last())
    &&& log.last() == FloorEvent::AttackHit(AttackHitEvent { subject, target, damage: 1 })
}

/// `subject_id` hits `target` for one damage, wherever it is.
pub fn hit_entity(floor: &Floor, subject_id: EntityId, target: EntityId) -> (r: FloorUpdate)
    requires
        floor.wf(),
        target.index() < floor.entities@.len(),
        floor.entities@[target.index()].health > i8::MIN,
    ensures
        hit_logged(*floor, subject_id, target, r.value(), r.entries()),
{
    let mut object_clone = floor.entities.get(target).clone();
    object_clone.health = object_clone.health - 1;
    proof {
        let s = floor.entities@;
        if s[target.index()].state.occupies() {
            crate::actions::public::lemma_occupier_of(*floor, target);
        }
        lemma_single_allowed(*floor, target, object_clone@);
    }
    let u = floor.update_entity((target, object_clone));
    let r = u.log(FloorEvent::AttackHit(AttackHitEvent { subject: subject_id, target, damage: 1 }));
    proof {
        assert(r.entries().drop_last() =~= u.entries());
    }
    r
}

/// `pos` moved by `offset`, as unbounded integers.
pub open spec fn moved_by(pos: AbsolutePosition, offset: RelativePosition) -> (int, int) {
    (pos.x + offset.dx, pos.y + offset.dy)
}

/// Whether `pos` moved by `offset` is a floor tile of `map` (and a position at all).
pub open spec fn sweeps_onto(map: FloorMap, pos: AbsolutePosition, offset: RelativePosition) -> bool {
    &&& fits_i32(moved_by(pos, offset).0)
    &&& fits_i32(moved_by(pos, offset).1)
    &&& map.tile(AbsolutePosition { x: moved_by(pos, offset).0 as i32, y: moved_by(pos, offset).1 as i32 })
        == FloorTile::Floor
}

/// The tiles that a push from `pos` along `offsets` sweeps: each offset in turn, up to the
/// first that does not land on a floor tile.
pub open spec fn sweep(map: FloorMap, pos: AbsolutePosition, offsets: Seq<RelativePosition>) -> Seq<AbsolutePosition>
    decreases offsets.len(),
{
    if offsets.len() == 0 || !sweeps_onto(map, pos, offsets[0]) {
        Seq::empty()
    } else {
        seq![AbsolutePosition { x: moved_by(pos, offsets[0]).0 as i32, y: moved_by(pos, offsets[0]).1 as i32 }]
            + sweep(map, pos, offsets.drop_first())
    }
}

proof fn lemma_sweep_step(map: FloorMap, pos: AbsolutePosition, offsets: Seq<RelativePosition>, i: int)
    requires
        0 <= i < offsets.len(),
    ensures
        sweep(map, pos, offsets.subrange(i, offsets.len() as int)) == if sweeps_onto(map, pos, offsets[i]) {
            seq![AbsolutePosition { x: moved_by(pos, offsets[i]).0 as i32, y: moved_by(pos, offsets[i]).1 as i32 }]
                + sweep(map, pos, offsets.subrange(i + 1, offsets.len() as int))
        } else {
            Seq::empty()
        },
{
    let s = offsets.subrange(i, offsets.len() as int);
    assert(s.drop_first() =~= offsets.subrange(i + 1, offsets.len() as int));
    assert(s[0] == offsets[i]);
}

/// The tiles swept from `pos` along `offsets`, computed.
fn sweep_tiles(map: &FloorMap, pos: AbsolutePosition, offsets: &Vec<RelativePosition>) -> (r: Vec<AbsolutePosition>)
    requires
        map.wf(),
    ensures
        r@ == sweep(*map, pos, offsets@),
        r.len() <= offsets.len(),
        forall|k: int|
            0 <= k < r.len() ==> (#[trigger] r@[k]).x == pos.x + offsets@[k].dx && r@[k].y == pos.y + offsets@[k].dy
                && map.tile(r@[k]) == FloorTile::Floor,
{
    let mut out: Vec<AbsolutePosition> = Vec::new();
    let mut i: usize = 0;
    proof {
        assert(offsets@.subrange(0, offsets.len() as int) =~= offsets@);
    }
    while i < offsets.len()
        invariant_except_break
            out@ + sweep(*map, pos, offsets@.subrange(i as int, offsets.len() as int)) == sweep(*map, pos, offsets@),
        invariant
            map.wf(),
            i <= offsets.len(),
            out.len() == i,
            forall|k: int|
                0 <= k < out.len() ==> (#[trigger] out@[k]).x == pos.x + offsets@[k].dx && out@[k].y == pos.y + offsets@[k].dy
                    && map.tile(out@[k]) == FloorTile::Floor,
        ensures
            out@ == sweep(*map, pos, offsets@),
            out.len() <= offsets.len(),
            forall|k: int|
                0 <= k < out.len() ==> (#[trigger] out@[k]).x == pos.x + offsets@[k].dx && out@[k].y == pos.y + offsets@[k].dy
                    && map.tile(out@[k]) == FloorTile::Floor,
        decreases offsets.len() - i,
    {
        let o = offsets[i];
        proof {
            lemma_sweep_step(*map, pos, offsets@, i as int);
        }
        let x = pos.x.checked_add(o.dx);
        let y = pos.y.checked_add(o.dy);
        match (x, y) {
            (Some(x), Some(y)) => {
                let tile = AbsolutePosition { x, y };
                if !map.is_tile_floor(tile) {
                    proof {
                        assert(out@ + Seq::<AbsolutePosition>::empty() =~= out@);
                    }
                    break;
                }
                let ghost before = out@;
                out.push(tile);
                proof {
                    assert(before + (seq![tile] + sweep(*map, pos, offsets@.subrange(i + 1, offsets.len() as int)))
                        =~= out@ + sweep(*map, pos, offsets@.subrange(i + 1, offsets.len() as int)));
                }
            },
            _ => {
                proof {
                    assert(out@ + Seq::<AbsolutePosition>::empty() =~= out@);
                }
                break;
            },
        }
        i += 1;
    }
    proof {
        if i == offsets.len() {
            assert(offsets@.subrange(i as int, offsets.len() as int).len() == 0);
            assert(out@ + Seq::<AbsolutePosition>::empty() =~= out@);
        }
    }
    out
}

/// The entities standing on the swept tiles, other than the one pushed, in the order of the
/// tiles.
pub open spec fn knocked_over(occ: Map<AbsolutePosition, EntityId>, swept: Seq<AbsolutePosition>, pushed: EntityId) -> Seq<EntityId>
    decreases swept.len(),
{
    if swept.len() == 0 {
        Seq::empty()
    } else {
        let prev = knocked_over(occ, swept.drop_last(), pushed);
        let t = swept.last();
        if occ.contains_key(t) && occ[t] != pushed {
            prev.push(occ[t])
        } else {
            prev
        }
    }
}

/// Whoever stands on a swept tile, other than the pushed entity, is knocked over.
proof fn lemma_knocked_contains(occ: Map<AbsolutePosition, EntityId>, swept: Seq<AbsolutePosition>, pushed: EntityId, i: int)
    requires
        0 <= i < swept.len(),
        occ.contains_key(swept[i]),
        occ[swept[i]] != pushed,
    ensures
        knocked_over(occ, swept, pushed).contains(occ[swept[i]]),
    decreases swept.len(),
{
    let k = knocked_over(occ, swept, pushed);
    if i == swept.len() - 1 {
        assert(k[k.len() - 1] == occ[swept[i]]);
    } else {
        let pre = swept.drop_last();
        assert(pre[i] == swept[i]);
        lemma_knocked_contains(occ, pre, pushed, i);
        let kp = knocked_over(occ, pre, pushed);
        let w = choose|w: int| 0 <= w < kp.len() && kp[w] == occ[swept[i]];
        assert(k[w] == kp[w]);
    }
}

/// Whoever is knocked over stood on a swept tile.
proof fn lemma_knocked_from(occ: Map<AbsolutePosition, EntityId>, swept: Seq<AbsolutePosition>, pushed: EntityId, id: EntityId)
    requires
        knocked_over(occ, swept, pushed).contains(id),
    ensures
        exists|i: int| 0 <= i < swept.len() && occ.contains_key(swept[i]) && occ[swept[i]] == id && id != pushed,
    decreases swept.len(),
{
    let k = knocked_over(occ, swept, pushed);
    let pre = swept.drop_last();
    let kp = knocked_over(occ, pre, pushed);
    let t = swept.last();
    if occ.contains_key(t) && occ[t] != pushed && id == occ[t] {
        assert(swept[swept.len() - 1] == t);
    } else {
        let w = choose|w: int| 0 <= w < k.len() && k[w] == id;
        if occ.contains_key(t) && occ[t] != pushed {
            if w == k.len() - 1 {
                assert(k[w] == occ[t]);
            }
            assert(kp[w] == id);
        } else {
            assert(kp[w] == id);
        }
        assert(kp.contains(id));
        lemma_knocked_from(occ, pre, pushed, id);
        let i = choose|i: int| 0 <= i < pre.len() && occ.contains_key(pre[i]) && occ[pre[i]] == id && id != pushed;
        assert(swept[i] == pre[i]);
    }
}

/// The entity `id`, knocked down until `now`.
pub open spec fn knock_update(floor: Floor, now: u32, id: EntityId) -> (EntityId, EntityModel) {
    (id, floor.entities@[id.index()].with_state(StateModel::Knockdown { next_round: now }))
}

pub open spec fn knock_event(id: EntityId) -> FloorEvent {
    FloorEvent::KnockdownEvent(KnockdownEvent { subject: id })
}

/// The updates of those knocked down by a push over `swept`.
pub open spec fn knock_updates(floor: Floor, swept: Seq<AbsolutePosition>, entity: EntityId, now: u32) -> Seq<(EntityId, EntityModel)> {
    knocked_over(floor.occupiers@, swept, entity).map_values(|id: EntityId| knock_update(floor, now, id))
}

/// The events of those knocked down by a push over `swept`.
pub open spec fn knock_events(floor: Floor, swept: Seq<AbsolutePosition>, entity: EntityId) -> Seq<FloorEvent> {
    knocked_over(floor.occupiers@, swept, entity).map_values(|id: EntityId| knock_event(id))
}

/// The updates of a push: the pushed entity lands on the last swept tile, and everyone it
/// sweeps over is knocked down until `now`.
pub open spec fn knockback_updates(floor: Floor, entity: EntityId, swept: Seq<AbsolutePosition>, now: u32) -> Seq<(EntityId, EntityModel)> {
    let e = floor.entities@[entity.index()];
    seq![(entity, EntityModel { pos: swept.last(), ..e })] + knock_updates(floor, swept, entity, now)
}

/// The events of a push: where the pushed entity lands, then who is knocked down.
pub open spec fn knockback_events(floor: Floor, entity: EntityId, swept: Seq<AbsolutePosition>) -> Seq<FloorEvent> {
    seq![FloorEvent::KnockbackEvent(KnockbackEvent { subject: entity, tile: swept.last() })] + knock_events(
        floor,
        swept,
        entity,
    )
}

/// Pushes an entity along a vector, over the floor, knocking down whoever it sweeps over.
#[derive(Debug)]
pub struct TakeKnockbackUtil {
    pub entity: EntityId,
    pub vector: RelativePosition,
}

impl TakeKnockbackUtil {
    pub open spec fn can_run(&self, floor: Floor) -> bool {
        &&& floor.wf()
        &&& self.entity.index() < floor.entities@.len()
        &&& floor.map.tile(floor.entities@[self.entity.index()].pos) == FloorTile::Floor
        &&& segment_computable(self.vector)
    }

    /// What the push does to `floor`: the floor after it, and its log.
    pub open spec fn result(&self, floor: Floor, next: Floor, log: Seq<FloorEvent>) -> bool {
        let swept = sweep(floor.map, floor.entities@[self.entity.index()].pos, relative_segment(self.vector));
        let now = current_round(floor.entities@);
        let events = knockback_events(floor, self.entity, swept);
        &&& swept.len() >= 1
        &&& events.len() <= log.len()
        &&& log.subrange(0, events.len() as int) == events
        &&& updated(
            floor,
            knockback_updates(floor, self.entity, swept, now),
            next,
            log.subrange(events.len() as int, log.len() as int),
        )
    }

    pub fn do_action(&self, floor: &Floor) -> (r: FloorUpdate)
        requires
            self.can_run(*floor),
        ensures
            self.result(*floor, r.value(), r.entries()),
    {
        let now = floor.get_current_round();
        let pos = floor.entities.get(self.entity).pos;
        let (segment, _) = Segment::calculate_relative(self.vector);
        let swept_tiles = sweep_tiles(&floor.map, pos, &segment);
        proof {
            lemma_relative_segment_start(self.vector);
            lemma_sweep_step(floor.map, pos, segment@, 0);
            assert(segment@.subrange(0, segment@.len() as int) =~= segment@);
            assert(segment@[0] == (RelativePosition { dx: 0, dy: 0 }));
            lemma_relative_segment_distinct(self.vector);
            lemma_sweep_distinct(swept_tiles@, pos, segment@);
        }
        let final_position = swept_tiles[swept_tiles.len() - 1];

        let mut batch = BatchEntityUpdateContextless::new();
        let mut moved = floor.entities.get(self.entity).clone();
        moved.pos = final_position;
        let ghost moved_model = moved@;
        let _ = batch.insert(self.entity, moved);
        let mut log: Vec<FloorEvent> = Vec::new();
        log.push(FloorEvent::KnockbackEvent(KnockbackEvent { subject: self.entity, tile: final_position }));

        let ghost occ = floor.occupiers@;
        let ghost swept = swept_tiles@;
        let mut i: usize = 0;
        proof {
            assert(batch.updates() =~= seq![(self.entity, moved_model)]);
            assert(knocked_over(occ, swept.subrange(0, 0), self.entity) =~= Seq::<EntityId>::empty());
        }
        while i < swept_tiles.len()
            invariant
                floor.wf(),
                self.entity.index() < floor.entities@.len(),
                occ == floor.occupiers@,
                swept == swept_tiles@,
                swept.no_duplicates(),
                i <= swept.len(),
                now == current_round(floor.entities@),
                batch.wf(),
                batch.updates() == seq![(self.entity, moved_model)] + knock_updates(*floor, swept.subrange(0, i as int), self.entity, now),
                log@ == seq![FloorEvent::KnockbackEvent(KnockbackEvent { subject: self.entity, tile: final_position })]
                    + knock_events(*floor, swept.subrange(0, i as int), self.entity),
                forall|k: int| 0 <= k < batch.updates().len() ==> (#[trigger] batch.updates()[k]).0.index() < floor.entities@.len(),
            decreases swept.len() - i,
        {
            let tile = swept_tiles[i];
            proof {
                lemma_knocked_push(occ, swept.subrange(0, i as int), tile, self.entity);
                lemma_knock_seqs_push(*floor, swept.subrange(0, i as int), tile, self.entity, now);
                assert(swept.subrange(0, i + 1) =~= swept.subrange(0, i as int).push(tile));
            }
            match floor.occupiers.get(tile) {
                Some(id) => {
                    if id.0 != self.entity.0 {
                        proof {
                            lemma_occupant_valid(*floor, tile);
                        }
                        let e = floor.entities.get(id);
                        let mut clone = e.clone();
                        clone.state = EntityState::Knockdown { next_round: now };
                        let ghost before = batch.updates();
                        let ghost cm = clone@;
                        proof {
                            assert((id, cm) == knock_update(*floor, now, id));
                            assert(!swept.subrange(0, i as int).contains(tile)) by {
                                if swept.subrange(0, i as int).contains(tile) {
                                    let w = choose|w: int| 0 <= w < i && swept.subrange(0, i as int)[w] == tile;
                                    assert(swept[w] == swept[i as int]);
                                }
                            }
                            lemma_knocked_fresh(*floor, swept.subrange(0, i as int), tile, self.entity, id);
                            assert(!crate::entity::updates_id(before, id)) by {
                                let pre = knocked_over(occ, swept.subrange(0, i as int), self.entity);
                                if crate::entity::updates_id(before, id) {
                                    let w = choose|w: int| 0 <= w < before.len() && #[trigger] before[w].0 == id;
                                    if w > 0 {
                                        assert(before[w] == knock_updates(*floor, swept.subrange(0, i as int), self.entity, now)[w - 1]);
                                        assert(knock_updates(*floor, swept.subrange(0, i as int), self.entity, now)[w - 1].0 == pre[w - 1]);
                                        assert(pre.contains(id));
                                    }
                                }
                            }
                        }
                        let _ = batch.insert(id, clone);
                        log.push(FloorEvent::KnockdownEvent(KnockdownEvent { subject: id }));
                        proof {
                            assert(batch.updates() =~= seq![(self.entity, moved_model)] + knock_updates(
                                *floor,
                                swept.subrange(0, i + 1),
                                self.entity,
                                now,
                            ));
                            assert(log@ =~= seq![FloorEvent::KnockbackEvent(KnockbackEvent { subject: self.entity, tile: final_position })]
                                + knock_events(*floor, swept.subrange(0, i + 1), self.entity));
                        }
                    }
                },
                None => {},
            }
            i += 1;
        }
        proof {
            assert(swept.subrange(0, swept.len() as int) =~= swept);
            let updates = knockback_updates(*floor, self.entity, swept, now);
            assert(batch.updates() =~= updates);
            lemma_knockback_allowed(*floor, self.entity, swept, now);
        }
        let n = log.len();
        let update = floor.update_entities_map(batch);
        let (next, mut rest) = update.into_both();
        let ghost rest_copy = rest@;
        log.append(&mut rest);
        proof {
            assert(log@.subrange(0, n as int) =~= knockback_events(*floor, self.entity, swept));
            assert(log@.subrange(n as int, log@.len() as int) =~= rest_copy);
        }
        Writer::new_with_log(next, log)
    }
}

proof fn lemma_knock_seqs_push(floor: Floor, s: Seq<AbsolutePosition>, t: AbsolutePosition, pushed: EntityId, now: u32)
    ensures
        knock_updates(floor, s.push(t), pushed, now) == if floor.occupiers@.contains_key(t) && floor.occupiers@[t] != pushed {
            knock_updates(floor, s, pushed, now).push(knock_update(floor, now, floor.occupiers@[t]))
        } else {
            knock_updates(floor, s, pushed, now)
        },
        knock_events(floor, s.push(t), pushed) == if floor.occupiers@.contains_key(t) && floor.occupiers@[t] != pushed {
            knock_events(floor, s, pushed).push(knock_event(floor.occupiers@[t]))
        } else {
            knock_events(floor, s, pushed)
        },
{
    let occ = floor.occupiers@;
    lemma_knocked_push(occ, s, t, pushed);
    let k0 = knocked_over(occ, s, pushed);
    if occ.contains_key(t) && occ[t] != pushed {
        assert(k0.push(occ[t]).map_values(|id: EntityId| knock_update(floor, now, id)) =~= k0.map_values(
            |id: EntityId| knock_update(floor, now, id),
        ).push(knock_update(floor, now, occ[t])));
        assert(k0.push(occ[t]).map_values(|id: EntityId| knock_event(id)) =~= k0.map_values(|id: EntityId| knock_event(id)).push(
            knock_event(occ[t]),
        ));
    }
}

proof fn lemma_knocked_push(occ: Map<AbsolutePosition, EntityId>, s: Seq<AbsolutePosition>, t: AbsolutePosition, pushed: EntityId)
    ensures
        knocked_over(occ, s.push(t), pushed) == if occ.contains_key(t) && occ[t] != pushed {
            knocked_over(occ, s, pushed).push(occ[t])
        } else {
            knocked_over(occ, s, pushed)
        },
{
    assert(s.push(t).drop_last() =~= s);
}

/// Whoever the occupiers name stands on that tile.
pub proof fn lemma_occupant_valid(floor: Floor, t: AbsolutePosition)
    requires
        floor.wf(),
        floor.occupiers@.contains_key(t),
    ensures
        floor.occupiers@[t].index() < floor.entities@.len(),
        floor.entities@[floor.occupiers@[t].index()].occupied_position() == Some(t),
{
    let s = floor.entities@;
    let c = choose|c: int| #[trigger] occupied_by(s, t, c);
    assert(floor.occupiers@[t] == EntityId(c as usize));
}

/// An entity stands on one tile only, so distinct swept tiles name distinct entities.
proof fn lemma_knocked_fresh(floor: Floor, s: Seq<AbsolutePosition>, t: AbsolutePosition, pushed: EntityId, id: EntityId)
    requires
        floor.wf(),
        floor.occupiers@.contains_key(t),
        floor.occupiers@[t] == id,
        !s.contains(t),
    ensures
        !knocked_over(floor.occupiers@, s, pushed).contains(id),
{
    let occ = floor.occupiers@;
    if knocked_over(occ, s, pushed).contains(id) {
        lemma_knocked_from(occ, s, pushed, id);
        let i = choose|i: int| 0 <= i < s.len() && occ.contains_key(s[i]) && occ[s[i]] == id && id != pushed;
        let x = s[i];
        lemma_occupant_valid(floor, x);
        lemma_occupant_valid(floor, t);
        assert(x == t);
    }
}

/// The tiles of a segment are distinct: the `k`-th is `k` steps along its run.
proof fn lemma_relative_segment_distinct(target: RelativePosition)
    ensures
        relative_segment(target).no_duplicates(),
{
    crate::positional::lemma_octant_roundtrip(target);
    let o = crate::positional::octant_relative_of(target);
    crate::positional::algorithms::lemma_segment_shape(o.inside());
    let seg = relative_segment(target);
    let tiles = crate::positional::algorithms::segment_tiles(o.inside());
    assert forall|i: int, j: int| 0 <= i < seg.len() && 0 <= j < seg.len() && i != j implies seg[i] != seg[j] by {
        assert(tiles[i].run == i && tiles[j].run == j);
        assert(tiles[i].rise <= tiles[i].run) by {
            crate::positional::algorithms::lemma_segment_in_octant(o.inside());
        }
        assert(tiles[j].rise <= tiles[j].run) by {
            crate::positional::algorithms::lemma_segment_in_octant(o.inside());
        }
    }
}

/// The swept tiles are distinct, since the offsets are.
proof fn lemma_sweep_distinct(sw: Seq<AbsolutePosition>, pos: AbsolutePosition, offs: Seq<RelativePosition>)
    requires
        offs.no_duplicates(),
        sw.len() <= offs.len(),
        forall|k: int| 0 <= k < sw.len() ==> (#[trigger] sw[k]).x == pos.x + offs[k].dx && sw[k].y == pos.y + offs[k].dy,
    ensures
        sw.no_duplicates(),
{
    assert forall|i: int, j: int| 0 <= i < sw.len() && 0 <= j < sw.len() && i != j implies sw[i] != sw[j] by {
        assert(offs[i] != offs[j]);
    }
}

/// A push keeps the floor valid: the pushed entity lands on a swept floor tile, and whoever
/// stood on it, or on any other swept tile, is knocked down.
proof fn lemma_knockback_allowed(floor: Floor, entity: EntityId, swept: Seq<AbsolutePosition>, now: u32)
    requires
        floor.wf(),
        entity.index() < floor.entities@.len(),
        swept.len() >= 1,
        forall|i: int| 0 <= i < swept.len() ==> floor.map.tile(#[trigger] swept[i]) == FloorTile::Floor,
        ids_unique(knockback_updates(floor, entity, swept, now)),
        forall|w: int|
            0 <= w < knockback_updates(floor, entity, swept, now).len() ==> (#[trigger] knockback_updates(
                floor,
                entity,
                swept,
                now,
            )[w]).0.index() < floor.entities@.len(),
    ensures
        update_allowed(floor, knockback_updates(floor, entity, swept, now)),
{
    let s = floor.entities@;
    let occ = floor.occupiers@;
    let u = knockback_updates(floor, entity, swept, now);
    let kk = knocked_over(occ, swept, entity);
    let t = apply_updates(s, u);
    let f = swept.last();
    // What each entity becomes.
    assert forall|i: int| 0 <= i < s.len() implies (#[trigger] t[i]) == if i == entity.index() {
        EntityModel { pos: f, ..s[i] }
    } else if kk.contains(EntityId(i as usize)) {
        s[i].with_state(StateModel::Knockdown { next_round: now })
    } else {
        s[i]
    } by {
        if i == entity.index() {
            assert(u[0].0.index() == i);
            let w = choose|w: int| 0 <= w < u.len() && #[trigger] u[w].0.index() == i;
            assert(u[w].0 == u[0].0);
            assert(w == 0);
        } else if kk.contains(EntityId(i as usize)) {
            let k = choose|k: int| 0 <= k < kk.len() && kk[k] == EntityId(i as usize);
            assert(u[k + 1].0.index() == i);
            let w = choose|w: int| 0 <= w < u.len() && #[trigger] u[w].0.index() == i;
            assert(u[w].0 == u[k + 1].0);
            assert(w == k + 1);
        } else {
            if crate::entity::updates_index(u, i) {
                let w = choose|w: int| 0 <= w < u.len() && #[trigger] u[w].0.index() == i;
                if w > 0 {
                    assert(kk[w - 1] == u[w].0);
                    assert(u[w].0 == EntityId(i as usize));
                }
            }
        }
    }
    assert(occupancy_unique(t)) by {
        assert forall|a: int, b: int|
            0 <= a < t.len() && 0 <= b < t.len() && a != b && (#[trigger] t[a]).occupied_position() is Some
                implies t[a].occupied_position() != (#[trigger] t[b]).occupied_position() by {
            if t[a].occupied_position() == t[b].occupied_position() {
                if a == entity.index() || b == entity.index() {
                    let (m, o) = if a == entity.index() { (a, b) } else { (b, a) };
                    assert(t[m].occupied_position() == Some(f));
                    assert(t[o] == s[o]);
                    assert(!kk.contains(EntityId(o as usize)));
                    assert(occupied_by(s, f, o));
                    assert(occ.contains_key(f));
                    let c = choose|c: int| #[trigger] occupied_by(s, f, c);
                    if c != o {
                        assert(s[c].occupied_position() == s[o].occupied_position());
                    }
                    assert(occ[f] == EntityId(o as usize));
                    assert(swept[swept.len() - 1] == f);
                    lemma_knocked_contains(occ, swept, entity, swept.len() - 1);
                } else {
                    assert(t[a] == s[a] && t[b] == s[b]);
                }
            }
        }
    }
    assert(stands_on_floor(t, floor.map)) by {
        assert forall|i: int| 0 <= i < t.len() implies ((#[trigger] t[i]).occupied_position() matches Some(p)
            ==> floor.map.tile(p) == FloorTile::Floor) by {
            if i == entity.index() {
                assert(floor.map.tile(swept[swept.len() - 1]) == FloorTile::Floor);
            }
        }
    }
    if floor.downing is Some {
        lemma_settle_keeps_standing(t, floor.map, current_round(s));
    }
}


// ---------------------------------------------------------------- several pushes at once

/// The tiles that mover `i` of `d` sweeps.
pub open spec fn mover_swept(floor: Floor, d: Seq<(EntityId, RelativePosition)>, i: int) -> Seq<AbsolutePosition> {
    sweep(floor.map, floor.entities@[d[i].0.index()].pos, relative_segment(d[i].1))
}

/// Where mover `i` lands: the last tile it sweeps.
pub open spec fn mover_final(floor: Floor, d: Seq<(EntityId, RelativePosition)>, i: int) -> AbsolutePosition {
    mover_swept(floor, d, i).last()
}

/// How far mover `i` travels.
pub open spec fn mover_travel(floor: Floor, d: Seq<(EntityId, RelativePosition)>, i: int) -> int {
    floor.entities@[d[i].0.index()].pos.spec_distance(mover_final(floor, d, i))
}

/// Whether mover `i` loses the tile it lands on to mover `j`: `j` lands there too and
/// travels further, or as far with a lower id.
pub open spec fn loses_to(floor: Floor, d: Seq<(EntityId, RelativePosition)>, i: int, j: int) -> bool {
    &&& 0 <= j < d.len()
    &&& j != i
    &&& mover_final(floor, d, j) == mover_final(floor, d, i)
    &&& (mover_travel(floor, d, i) < mover_travel(floor, d, j) || (mover_travel(floor, d, i) == mover_travel(
        floor,
        d,
        j,
    ) && d[i].0.index() > d[j].0.index()))
}

/// Whether mover `i` is knocked down for losing its landing tile.
pub open spec fn conflicted(floor: Floor, d: Seq<(EntityId, RelativePosition)>, i: int) -> bool {
    exists|j: int| #[trigger] loses_to(floor, d, i, j)
}

/// Whether `id` is one of the movers.
pub open spec fn is_mover(d: Seq<(EntityId, RelativePosition)>, id: EntityId) -> bool {
    exists|i: int| 0 <= i < d.len() && #[trigger] d[i].0 == id
}

/// The tiles that the first `n` movers sweep, mover by mover.
pub open spec fn all_swept(floor: Floor, d: Seq<(EntityId, RelativePosition)>, n: int) -> Seq<AbsolutePosition>
    decreases n,
{
    if n <= 0 {
        Seq::empty()
    } else {
        all_swept(floor, d, n - 1) + mover_swept(floor, d, n - 1)
    }
}

/// Those standing on `tiles` who do not move themselves, each once, in the order first met.
pub open spec fn bystanders(occ: Map<AbsolutePosition, EntityId>, d: Seq<(EntityId, RelativePosition)>, tiles: Seq<AbsolutePosition>) -> Seq<EntityId>
    decreases tiles.len(),
{
    if tiles.len() == 0 {
        Seq::empty()
    } else {
        let prev = bystanders(occ, d, tiles.drop_last());
        let t = tiles.last();
        if occ.contains_key(t) && !is_mover(d, occ[t]) && !prev.contains(occ[t]) {
            prev.push(occ[t])
        } else {
            prev
        }
    }
}

/// Mover `i` after the pushes: on its landing tile, knocked down until `now` where it lost it.
pub open spec fn mover_update(floor: Floor, d: Seq<(EntityId, RelativePosition)>, now: u32, i: int) -> (EntityId, EntityModel) {
    let e = floor.entities@[d[i].0.index()];
    (
        d[i].0,
        EntityModel {
            pos: mover_final(floor, d, i),
            state: if conflicted(floor, d, i) {
                StateModel::Knockdown { next_round: now }
            } else {
                e.state
            },
            ..e
        },
    )
}

/// The updates of the first `n` movers.
pub open spec fn mover_updates(floor: Floor, d: Seq<(EntityId, RelativePosition)>, now: u32, n: int) -> Seq<(EntityId, EntityModel)>
    decreases n,
{
    if n <= 0 {
        Seq::empty()
    } else {
        mover_updates(floor, d, now, n - 1).push(mover_update(floor, d, now, n - 1))
    }
}

/// The knock downs of `ids`.
pub open spec fn knock_all(floor: Floor, now: u32, ids: Seq<EntityId>) -> Seq<(EntityId, EntityModel)>
    decreases ids.len(),
{
    if ids.len() == 0 {
        Seq::empty()
    } else {
        knock_all(floor, now, ids.drop_last()).push(knock_update(floor, now, ids.last()))
    }
}

/// The events of knocking down `ids`.
pub open spec fn knock_all_events(ids: Seq<EntityId>) -> Seq<FloorEvent>
    decreases ids.len(),
{
    if ids.len() == 0 {
        Seq::empty()
    } else {
        knock_all_events(ids.drop_last()).push(knock_event(ids.last()))
    }
}

/// Where each of the first `n` movers lands.
pub open spec fn landing_events(floor: Floor, d: Seq<(EntityId, RelativePosition)>, n: int) -> Seq<FloorEvent>
    decreases n,
{
    if n <= 0 {
        Seq::empty()
    } else {
        landing_events(floor, d, n - 1).push(
            FloorEvent::KnockbackEvent(KnockbackEvent { subject: d[n - 1].0, tile: mover_final(floor, d, n - 1) }),
        )
    }
}

/// The knock downs of those among the first `n` movers that lost their landing tile.
pub open spec fn conflict_events(floor: Floor, d: Seq<(EntityId, RelativePosition)>, n: int) -> Seq<FloorEvent>
    decreases n,
{
    if n <= 0 {
        Seq::empty()
    } else if conflicted(floor, d, n - 1) {
        conflict_events(floor, d, n - 1).push(knock_event(d[n - 1].0))
    } else {
        conflict_events(floor, d, n - 1)
    }
}

/// Everyone pushed over by the movers.
pub open spec fn all_bystanders(floor: Floor, d: Seq<(EntityId, RelativePosition)>) -> Seq<EntityId> {
    bystanders(floor.occupiers@, d, all_swept(floor, d, d.len() as int))
}

/// All updates of the pushes: the movers, then those pushed over.
pub open spec fn multi_updates(floor: Floor, d: Seq<(EntityId, RelativePosition)>, now: u32) -> Seq<(EntityId, EntityModel)> {
    mover_updates(floor, d, now, d.len() as int) + knock_all(floor, now, all_bystanders(floor, d))
}

/// All events of the pushes: where the movers land, which lost their tile, and who was
/// pushed over.
pub open spec fn multi_events(floor: Floor, d: Seq<(EntityId, RelativePosition)>) -> Seq<FloorEvent> {
    landing_events(floor, d, d.len() as int) + conflict_events(floor, d, d.len() as int) + knock_all_events(
        all_bystanders(floor, d),
    )
}

proof fn lemma_bystanders_facts(occ: Map<AbsolutePosition, EntityId>, d: Seq<(EntityId, RelativePosition)>, tiles: Seq<AbsolutePosition>)
    ensures
        bystanders(occ, d, tiles).no_duplicates(),
        forall|k: int|
            0 <= k < bystanders(occ, d, tiles).len() ==> !is_mover(d, #[trigger] bystanders(occ, d, tiles)[k])
                && exists|w: int| 0 <= w < tiles.len() && occ.contains_key(tiles[w]) && occ[tiles[w]] == bystanders(occ, d, tiles)[k],
        forall|w: int|
            0 <= w < tiles.len() && occ.contains_key(#[trigger] tiles[w]) && !is_mover(d, occ[tiles[w]]) ==> bystanders(
                occ,
                d,
                tiles,
            ).contains(occ[tiles[w]]),
    decreases tiles.len(),
{
    if tiles.len() > 0 {
        let pre = tiles.drop_last();
        lemma_bystanders_facts(occ, d, pre);
        let prev = bystanders(occ, d, pre);
        let b = bystanders(occ, d, tiles);
        assert forall|k: int| 0 <= k < b.len() implies !is_mover(d, #[trigger] b[k]) && exists|w: int|
            0 <= w < tiles.len() && occ.contains_key(tiles[w]) && occ[tiles[w]] == b[k] by {
            if k < prev.len() {
                assert(b[k] == prev[k]);
                let w = choose|w: int| 0 <= w < pre.len() && occ.contains_key(pre[w]) && occ[pre[w]] == prev[k];
                assert(tiles[w] == pre[w]);
            } else {
                assert(tiles[tiles.len() - 1] == tiles.last());
            }
        }
        assert forall|w: int| 0 <= w < tiles.len() && occ.contains_key(#[trigger] tiles[w]) && !is_mover(d, occ[tiles[w]])
            implies b.contains(occ[tiles[w]]) by {
            if w < pre.len() {
                assert(pre[w] == tiles[w]);
                assert(prev.contains(occ[pre[w]]));
                let z = choose|z: int| 0 <= z < prev.len() && prev[z] == occ[pre[w]];
                assert(b[z] == prev[z]);
            } else {
                if prev.contains(occ[tiles[w]]) {
                    let z = choose|z: int| 0 <= z < prev.len() && prev[z] == occ[tiles[w]];
                    assert(b[z] == prev[z]);
                } else {
                    assert(b[b.len() - 1] == occ[tiles[w]]);
                }
            }
        }
    }
}

proof fn lemma_all_swept_contains(floor: Floor, d: Seq<(EntityId, RelativePosition)>, n: int, i: int, k: int)
    requires
        0 <= i < n,
        0 <= k < mover_swept(floor, d, i).len(),
    ensures
        all_swept(floor, d, n).contains(mover_swept(floor, d, i)[k]),
    decreases n,
{
    let pre = all_swept(floor, d, n - 1);
    let a = all_swept(floor, d, n);
    if i == n - 1 {
        assert(a[pre.len() + k] == mover_swept(floor, d, i)[k]);
    } else {
        lemma_all_swept_contains(floor, d, n - 1, i, k);
        let z = choose|z: int| 0 <= z < pre.len() && pre[z] == mover_swept(floor, d, i)[k];
        assert(a[z] == pre[z]);
    }
}

proof fn lemma_mover_updates_index(floor: Floor, d: Seq<(EntityId, RelativePosition)>, now: u32, n: int)
    requires
        0 <= n,
    ensures
        mover_updates(floor, d, now, n).len() == n,
        forall|i: int| 0 <= i < n ==> #[trigger] mover_updates(floor, d, now, n)[i] == mover_update(floor, d, now, i),
    decreases n,
{
    if n > 0 {
        lemma_mover_updates_index(floor, d, now, n - 1);
        assert forall|i: int| 0 <= i < n implies #[trigger] mover_updates(floor, d, now, n)[i] == mover_update(floor, d, now, i) by {
            if i < n - 1 {
                assert(mover_updates(floor, d, now, n)[i] == mover_updates(floor, d, now, n - 1)[i]);
            }
        }
    }
}

proof fn lemma_knock_all_index(floor: Floor, now: u32, ids: Seq<EntityId>)
    ensures
        knock_all(floor, now, ids).len() == ids.len(),
        forall|k: int| 0 <= k < ids.len() ==> #[trigger] knock_all(floor, now, ids)[k] == knock_update(floor, now, ids[k]),
    decreases ids.len(),
{
    if ids.len() > 0 {
        lemma_knock_all_index(floor, now, ids.drop_last());
        assert forall|k: int| 0 <= k < ids.len() implies #[trigger] knock_all(floor, now, ids)[k] == knock_update(floor, now, ids[k]) by {
            if k < ids.len() - 1 {
                assert(knock_all(floor, now, ids)[k] == knock_all(floor, now, ids.drop_last())[k]);
            }
        }
    }
}

/// Two movers never both keep the tile they land on.
proof fn lemma_one_keeps_tile(floor: Floor, d: Seq<(EntityId, RelativePosition)>, i: int, j: int)
    requires
        0 <= i < d.len(),
        0 <= j < d.len(),
        i != j,
        d[i].0 != d[j].0,
        mover_final(floor, d, i) == mover_final(floor, d, j),
    ensures
        conflicted(floor, d, i) || conflicted(floor, d, j),
{
    if mover_travel(floor, d, i) < mover_travel(floor, d, j) || (mover_travel(floor, d, i) == mover_travel(floor, d, j)
        && d[i].0.index() > d[j].0.index()) {
        assert(loses_to(floor, d, i, j));
    } else {
        assert(loses_to(floor, d, j, i));
    }
}

/// The pushes are allowed: movers land on floor tiles, those who lose a tile or are pushed
/// over lie down, and everyone else stays.
proof fn lemma_multi_allowed(floor: Floor, d: Seq<(EntityId, RelativePosition)>, now: u32)
    requires
        floor.wf(),
        forall|i: int| 0 <= i < d.len() ==> (#[trigger] d[i]).0.index() < floor.entities@.len(),
        forall|i: int, j: int| 0 <= i < d.len() && 0 <= j < d.len() && i != j ==> (#[trigger] d[i]).0 != (#[trigger] d[j]).0,
        forall|i: int| 0 <= i < d.len() ==> (#[trigger] mover_swept(floor, d, i)).len() >= 1,
        forall|i: int, k: int|
            0 <= i < d.len() && 0 <= k < mover_swept(floor, d, i).len() ==> floor.map.tile(
                #[trigger] mover_swept(floor, d, i)[k],
            ) == FloorTile::Floor,
    ensures
        update_allowed(floor, multi_updates(floor, d, now)),
{
    let s = floor.entities@;
    let occ = floor.occupiers@;
    let u = multi_updates(floor, d, now);
    let mu = mover_updates(floor, d, now, d.len() as int);
    let bys = all_bystanders(floor, d);
    let ku = knock_all(floor, now, bys);
    let swept_all = all_swept(floor, d, d.len() as int);
    lemma_mover_updates_index(floor, d, now, d.len() as int);
    lemma_knock_all_index(floor, now, bys);
    lemma_bystanders_facts(occ, d, swept_all);
    // Every bystander stands on a swept tile, so it is a valid entity.
    assert forall|k: int| 0 <= k < bys.len() implies (#[trigger] bys[k]).index() < s.len() by {
        let w = choose|w: int| 0 <= w < swept_all.len() && occ.contains_key(swept_all[w]) && occ[swept_all[w]] == bys[k];
        lemma_occupant_valid(floor, swept_all[w]);
    }
    assert(ids_unique(u)) by {
        assert forall|a: int, b: int| 0 <= a < u.len() && 0 <= b < u.len() && a != b implies u[a].0 != u[b].0 by {
            if a < mu.len() && b < mu.len() {
                assert(u[a] == mu[a] && u[b] == mu[b]);
            } else if a >= mu.len() && b >= mu.len() {
                assert(u[a] == ku[a - mu.len()] && u[b] == ku[b - mu.len()]);
            } else if a < mu.len() {
                assert(u[a] == mu[a] && u[b] == ku[b - mu.len()]);
                if u[a].0 == u[b].0 {
                    assert(!is_mover(d, bys[b - mu.len()]));
                    assert(d[a].0 == bys[b - mu.len()]);
                }
            } else {
                assert(u[b] == mu[b] && u[a] == ku[a - mu.len()]);
                if u[a].0 == u[b].0 {
                    assert(!is_mover(d, bys[a - mu.len()]));
                    assert(d[b].0 == bys[a - mu.len()]);
                }
            }
        }
    }
    assert forall|w: int| 0 <= w < u.len() implies (#[trigger] u[w]).0.index() < s.len() by {
        if w < mu.len() {
            assert(u[w] == mu[w]);
        } else {
            assert(u[w] == ku[w - mu.len()]);
        }
    }
    let t = apply_updates(s, u);
    // What each entity becomes.
    assert forall|e: int| 0 <= e < t.len() implies {
        ||| (exists|i: int| 0 <= i < d.len() && (#[trigger] d[i]).0.index() == e && t[e] == mover_update(floor, d, now, i).1)
        ||| (bys.contains(EntityId(e as usize)) && t[e].occupied_position() is None)
        ||| (!is_mover(d, EntityId(e as usize)) && !bys.contains(EntityId(e as usize)) && t[e] == s[e])
    } by {
        if crate::entity::updates_index(u, e) {
            let w = choose|w: int| 0 <= w < u.len() && #[trigger] u[w].0.index() == e;
            assert(t[e] == u[w].1);
            if w < mu.len() {
                assert(u[w] == mu[w]);
            } else {
                assert(u[w] == ku[w - mu.len()]);
                assert(bys[w - mu.len()] == EntityId(e as usize));
            }
        } else {
            assert(t[e] == s[e]);
            if is_mover(d, EntityId(e as usize)) {
                let i = choose|i: int| 0 <= i < d.len() && #[trigger] d[i].0 == EntityId(e as usize);
                assert(u[i] == mu[i]);
                assert(u[i].0.index() == e);
            }
            if bys.contains(EntityId(e as usize)) {
                let k = choose|k: int| 0 <= k < bys.len() && bys[k] == EntityId(e as usize);
                assert(u[mu.len() + k] == ku[k]);
                assert(u[mu.len() + k].0.index() == e);
            }
        }
    }
    assert(occupancy_unique(t) && stands_on_floor(t, floor.map)) by {
        assert forall|a: int| 0 <= a < t.len() && (#[trigger] t[a]).occupied_position() is Some implies {
            &&& floor.map.tile(t[a].occupied_position()->0) == FloorTile::Floor
            &&& forall|b: int| 0 <= b < t.len() && b != a ==> t[a].occupied_position() != (#[trigger] t[b]).occupied_position()
        } by {
            let p = t[a].occupied_position()->0;
            if exists|i: int| 0 <= i < d.len() && (#[trigger] d[i]).0.index() == a && t[a] == mover_update(floor, d, now, i).1 {
                let i = choose|i: int| 0 <= i < d.len() && (#[trigger] d[i]).0.index() == a && t[a] == mover_update(floor, d, now, i).1;
                assert(!conflicted(floor, d, i));
                assert(p == mover_final(floor, d, i));
                let ms = mover_swept(floor, d, i);
                assert(ms[ms.len() - 1] == p);
                assert(floor.map.tile(ms[ms.len() - 1]) == FloorTile::Floor);
                lemma_all_swept_contains(floor, d, d.len() as int, i, ms.len() - 1);
                assert forall|b: int| 0 <= b < t.len() && b != a implies t[a].occupied_position() != (#[trigger] t[b]).occupied_position() by {
                    if t[b].occupied_position() == Some(p) {
                        if exists|j: int| 0 <= j < d.len() && (#[trigger] d[j]).0.index() == b && t[b] == mover_update(floor, d, now, j).1 {
                            let j = choose|j: int| 0 <= j < d.len() && (#[trigger] d[j]).0.index() == b && t[b] == mover_update(floor, d, now, j).1;
                            assert(!conflicted(floor, d, j));
                            lemma_one_keeps_tile(floor, d, i, j);
                        } else if bys.contains(EntityId(b as usize)) {
                        } else {
                            assert(t[b] == s[b]);
                            assert(s[b].occupied_position() == Some(p));
                            assert(crate::floor::occupiers::occupied_by(s, p, b));
                            assert(occ.contains_key(p));
                            let c = choose|c: int| #[trigger] crate::floor::occupiers::occupied_by(s, p, c);
                            assert(occ[p] == EntityId(c as usize));
                            if c != b {
                                assert(s[c].occupied_position() == s[b].occupied_position());
                            }
                            let z = choose|z: int| 0 <= z < swept_all.len() && swept_all[z] == p;
                            assert(occ.contains_key(swept_all[z]));
                            assert(bys.contains(occ[swept_all[z]]));
                        }
                    }
                }
            } else if bys.contains(EntityId(a as usize)) {
            } else {
                assert(t[a] == s[a]);
                assert(stands_on_floor(s, floor.map));
                assert(s[a].occupied_position() matches Some(q) ==> floor.map.tile(q) == FloorTile::Floor);
                assert forall|b: int| 0 <= b < t.len() && b != a implies t[a].occupied_position() != (#[trigger] t[b]).occupied_position() by {
                    if t[b].occupied_position() == Some(p) {
                        if exists|j: int| 0 <= j < d.len() && (#[trigger] d[j]).0.index() == b && t[b] == mover_update(floor, d, now, j).1 {
                            let j = choose|j: int| 0 <= j < d.len() && (#[trigger] d[j]).0.index() == b && t[b] == mover_update(floor, d, now, j).1;
                            let ms = mover_swept(floor, d, j);
                            assert(ms[ms.len() - 1] == p);
                            lemma_all_swept_contains(floor, d, d.len() as int, j, ms.len() - 1);
                            assert(crate::floor::occupiers::occupied_by(s, p, a));
                            let c = choose|c: int| #[trigger] crate::floor::occupiers::occupied_by(s, p, c);
                            if c != a {
                                assert(s[c].occupied_position() == s[a].occupied_position());
                            }
                            let z = choose|z: int| 0 <= z < swept_all.len() && swept_all[z] == p;
                            assert(occ.contains_key(swept_all[z]));
                            assert(bys.contains(occ[swept_all[z]]));
                        } else if bys.contains(EntityId(b as usize)) {
                        } else {
                            assert(t[b] == s[b]);
                        }
                    }
                }
            }
        }
    }
    if floor.downing is Some {
        lemma_settle_keeps_standing(t, floor.map, current_round(s));
    }
}


/// Whether `id` is among the movers, computed.
fn mover_listed(d: &Vec<(EntityId, RelativePosition)>, id: EntityId) -> (r: bool)
    ensures
        r == is_mover(d@, id),
{
    let mut i: usize = 0;
    while i < d.len()
        invariant
            i <= d.len(),
            forall|k: int| 0 <= k < i ==> (#[trigger] d@[k]).0 != id,
        decreases d.len() - i,
    {
        if d[i].0.0 == id.0 {
            return true;
        }
        i += 1;
    }
    false
}

/// Whether `ids` holds `id`, computed.
fn id_listed(ids: &Vec<EntityId>, id: EntityId) -> (r: bool)
    ensures
        r == ids@.contains(id),
{
    let mut i: usize = 0;
    while i < ids.len()
        invariant
            i <= ids.len(),
            forall|k: int| 0 <= k < i ==> ids@[k] != id,
        decreases ids.len() - i,
    {
        if ids[i].0 == id.0 {
            return true;
        }
        i += 1;
    }
    false
}

proof fn lemma_bystanders_push(occ: Map<AbsolutePosition, EntityId>, d: Seq<(EntityId, RelativePosition)>, tiles: Seq<AbsolutePosition>, t: AbsolutePosition)
    ensures
        bystanders(occ, d, tiles.push(t)) == if occ.contains_key(t) && !is_mover(d, occ[t]) && !bystanders(occ, d, tiles).contains(occ[t]) {
            bystanders(occ, d, tiles).push(occ[t])
        } else {
            bystanders(occ, d, tiles)
        },
{
    assert(tiles.push(t).drop_last() =~= tiles);
}

/// Pushes several entities at once, each along its own vector over the floor. Where movers
/// land on the same tile, the one that travelled furthest (then the one with the lower id)
/// keeps it and the others are knocked down; whoever stands on a swept tile without moving
/// is knocked down too.
#[derive(Debug)]
pub struct MultiKnockbackUtil {
    pub all_displacements: Vec<(EntityId, RelativePosition)>,
}

impl MultiKnockbackUtil {
    pub open spec fn can_run(&self, floor: Floor) -> bool {
        let d = self.all_displacements@;
        &&& floor.wf()
        &&& forall|i: int| 0 <= i < d.len() ==> (#[trigger] d[i]).0.index() < floor.entities@.len()
        &&& forall|i: int, j: int| 0 <= i < d.len() && 0 <= j < d.len() && i != j ==> (#[trigger] d[i]).0 != (#[trigger] d[j]).0
        &&& forall|i: int|
            0 <= i < d.len() ==> floor.map.tile(floor.entities@[(#[trigger] d[i]).0.index()].pos) == FloorTile::Floor
        &&& forall|i: int| 0 <= i < d.len() ==> segment_computable((#[trigger] d[i]).1)
    }

    /// What the pushes do to `floor`: the floor after them, and their log.
    pub open spec fn result(&self, floor: Floor, next: Floor, log: Seq<FloorEvent>) -> bool {
        let d = self.all_displacements@;
        let events = multi_events(floor, d);
        &&& events.len() <= log.len()
        &&& log.subrange(0, events.len() as int) == events
        &&& updated(
            floor,
            multi_updates(floor, d, current_round(floor.entities@)),
            next,
            log.subrange(events.len() as int, log.len() as int),
        )
    }

    pub fn do_action(&self, floor: &Floor) -> (r: FloorUpdate)
        requires
            self.can_run(*floor),
        ensures
            self.result(*floor, r.value(), r.entries()),
    {
        let ghost d = self.all_displacements@;
        let ghost occ = floor.occupiers@;
        let dv = &self.all_displacements;
        let n = dv.len();
        let now = floor.get_current_round();

        // Where each mover goes.
        let mut each_swept: Vec<Vec<AbsolutePosition>> = Vec::new();
        let mut finals: Vec<AbsolutePosition> = Vec::new();
        let mut travels: Vec<u32> = Vec::new();
        let mut i: usize = 0;
        while i < n
            invariant
                self.can_run(*floor),
                d == dv@,
                d == self.all_displacements@,
                n == d.len(),
                i <= n,
                each_swept.len() == i,
                finals.len() == i,
                travels.len() == i,
                forall|k: int| 0 <= k < i ==> (#[trigger] each_swept@[k])@ == mover_swept(*floor, d, k),
                forall|k: int| 0 <= k < i ==> (#[trigger] mover_swept(*floor, d, k)).len() >= 1,
                forall|k: int| 0 <= k < i ==> #[trigger] finals@[k] == mover_final(*floor, d, k),
                forall|k: int| 0 <= k < i ==> #[trigger] travels@[k] == mover_travel(*floor, d, k),
                forall|k: int, w: int|
                    0 <= k < i && 0 <= w < mover_swept(*floor, d, k).len() ==> floor.map.tile(
                        #[trigger] mover_swept(*floor, d, k)[w],
                    ) == FloorTile::Floor,
            decreases n - i,
        {
            let (id, vector) = dv[i];
            proof {
                assert(d[i as int] == (id, vector));
            }
            let pos = floor.entities.get(id).pos;
            let (segment, _) = Segment::calculate_relative(vector);
            let swept = sweep_tiles(&floor.map, pos, &segment);
            proof {
                assert(d[i as int] == (id, vector));
                lemma_relative_segment_start(vector);
                lemma_sweep_step(floor.map, pos, segment@, 0);
                assert(segment@.subrange(0, segment@.len() as int) =~= segment@);
                assert(segment@[0] == (RelativePosition { dx: 0, dy: 0 }));
            }
            let last = swept[swept.len() - 1];
            finals.push(last);
            travels.push(pos.distance(last));
            each_swept.push(swept);
            i += 1;
        }

        // Which movers lose their landing tile.
        let mut lost: Vec<bool> = Vec::new();
        let mut i: usize = 0;
        while i < n
            invariant
                d == dv@,
                d == self.all_displacements@,
                n == d.len(),
                i <= n,
                finals.len() == n,
                travels.len() == n,
                forall|k: int| 0 <= k < n ==> #[trigger] finals@[k] == mover_final(*floor, d, k),
                forall|k: int| 0 <= k < n ==> #[trigger] travels@[k] == mover_travel(*floor, d, k),
                lost.len() == i,
                forall|k: int| 0 <= k < i ==> #[trigger] lost@[k] == conflicted(*floor, d, k),
            decreases n - i,
        {
            let mut flag = false;
            let mut j: usize = 0;
            while j < n
                invariant
                    d == dv@,
                    d == self.all_displacements@,
                d == self.all_displacements@,
                    n == d.len(),
                    i < n,
                    j <= n,
                    finals.len() == n,
                    travels.len() == n,
                    forall|k: int| 0 <= k < n ==> #[trigger] finals@[k] == mover_final(*floor, d, k),
                    forall|k: int| 0 <= k < n ==> #[trigger] travels@[k] == mover_travel(*floor, d, k),
                    flag == exists|k: int| 0 <= k < j && #[trigger] loses_to(*floor, d, i as int, k),
                decreases n - j,
            {
                let beats = j != i && finals[j] == finals[i] && (travels[i] < travels[j] || (travels[i] == travels[j]
                    && dv[i].0.0 > dv[j].0.0));
                proof {
                    assert(beats == loses_to(*floor, d, i as int, j as int));
                    if flag || beats {
                        if beats {
                            assert(loses_to(*floor, d, i as int, j as int));
                        }
                    } else {
                        assert forall|k: int| 0 <= k < j + 1 implies !#[trigger] loses_to(*floor, d, i as int, k) by {
                            if k < j {
                            }
                        }
                    }
                }
                flag = flag || beats;
                j += 1;
            }
            proof {
                if flag {
                    let k = choose|k: int| 0 <= k < n && #[trigger] loses_to(*floor, d, i as int, k);
                    assert(loses_to(*floor, d, i as int, k));
                } else {
                    assert forall|k: int| !#[trigger] loses_to(*floor, d, i as int, k) by {
                        if 0 <= k < n {
                        }
                    }
                }
            }
            lost.push(flag);
            i += 1;
        }

        // The movers land.
        let mut batch = BatchEntityUpdateContextless::new();
        let mut log: Vec<FloorEvent> = Vec::new();
        let mut i: usize = 0;
        proof {
            lemma_mover_updates_index(*floor, d, now, 0);
        }
        while i < n
            invariant
                self.can_run(*floor),
                d == dv@,
                d == self.all_displacements@,
                n == d.len(),
                i <= n,
                now == current_round(floor.entities@),
                finals.len() == n,
                lost.len() == n,
                forall|k: int| 0 <= k < n ==> #[trigger] finals@[k] == mover_final(*floor, d, k),
                forall|k: int| 0 <= k < n ==> #[trigger] lost@[k] == conflicted(*floor, d, k),
                batch.wf(),
                batch.updates() == mover_updates(*floor, d, now, i as int),
                log@ == landing_events(*floor, d, i as int),
            decreases n - i,
        {
            let (id, _) = dv[i];
            proof {
                assert(d[i as int].0 == id);
            }
            let mut moved = floor.entities.get(id).clone();
            moved.pos = finals[i];
            if lost[i] {
                moved.state = EntityState::Knockdown { next_round: now };
            }
            proof {
                assert(d[i as int].0 == id);
                assert(moved@ == mover_update(*floor, d, now, i as int).1);
                lemma_mover_updates_index(*floor, d, now, i as int);
                assert(!crate::entity::updates_id(batch.updates(), id)) by {
                    if crate::entity::updates_id(batch.updates(), id) {
                        let w = choose|w: int| 0 <= w < batch.updates().len() && #[trigger] batch.updates()[w].0 == id;
                        assert(batch.updates()[w] == mover_update(*floor, d, now, w));
                        assert(d[w].0 == d[i as int].0);
                        assert(w != i);
                    }
                }
            }
            let _ = batch.insert(id, moved);
            log.push(FloorEvent::KnockbackEvent(KnockbackEvent { subject: id, tile: finals[i] }));
            i += 1;
        }

        // Those that lost their tile.
        let mut i: usize = 0;
        let ghost landed = log@;
        while i < n
            invariant
                d == dv@,
                d == self.all_displacements@,
                n == d.len(),
                i <= n,
                lost.len() == n,
                forall|k: int| 0 <= k < n ==> #[trigger] lost@[k] == conflicted(*floor, d, k),
                landed == landing_events(*floor, d, n as int),
                log@ == landed + conflict_events(*floor, d, i as int),
            decreases n - i,
        {
            let (id, _) = dv[i];
            if lost[i] {
                log.push(FloorEvent::KnockdownEvent(KnockdownEvent { subject: id }));
            }
            proof {
                assert(d[i as int].0 == id);
                assert(log@ =~= landed + conflict_events(*floor, d, i + 1));
            }
            i += 1;
        }

        // Those pushed over.
        let mut bys: Vec<EntityId> = Vec::new();
        let mut i: usize = 0;
        while i < n
            invariant
                self.can_run(*floor),
                d == dv@,
                d == self.all_displacements@,
                occ == floor.occupiers@,
                n == d.len(),
                i <= n,
                each_swept.len() == n,
                forall|k: int| 0 <= k < n ==> (#[trigger] each_swept@[k])@ == mover_swept(*floor, d, k),
                bys@ == bystanders(occ, d, all_swept(*floor, d, i as int)),
            decreases n - i,
        {
            let swept = &each_swept[i];
            let mut k: usize = 0;
            proof {
                assert(all_swept(*floor, d, i as int) + swept@.take(0) =~= all_swept(*floor, d, i as int));
            }
            while k < swept.len()
                invariant
                    self.can_run(*floor),
                    d == dv@,
                    d == self.all_displacements@,
                d == self.all_displacements@,
                    occ == floor.occupiers@,
                    n == d.len(),
                    i < n,
                    k <= swept.len(),
                    swept@ == mover_swept(*floor, d, i as int),
                    bys@ == bystanders(occ, d, all_swept(*floor, d, i as int) + swept@.take(k as int)),
                decreases swept.len() - k,
            {
                let tile = swept[k];
                proof {
                    assert(all_swept(*floor, d, i as int) + swept@.take(k + 1) =~= (all_swept(*floor, d, i as int)
                        + swept@.take(k as int)).push(tile));
                    lemma_bystanders_push(occ, d, all_swept(*floor, d, i as int) + swept@.take(k as int), tile);
                }
                match floor.occupiers.get(tile) {
                    Some(x) => {
                        if !mover_listed(dv, x) && !id_listed(&bys, x) {
                            bys.push(x);
                        }
                    },
                    None => {},
                }
                k += 1;
            }
            proof {
                assert(swept@.take(swept@.len() as int) =~= swept@);
            }
            i += 1;
        }

        // They are knocked down.
        let ghost all_bys = bys@;
        let ghost swept_all = all_swept(*floor, d, n as int);
        let ghost before_knock = log@;
        proof {
            lemma_bystanders_facts(occ, d, swept_all);
            lemma_mover_updates_index(*floor, d, now, n as int);
            assert(all_bys.take(0) =~= Seq::<EntityId>::empty());
        }
        let mut k: usize = 0;
        while k < bys.len()
            invariant
                self.can_run(*floor),
                d == dv@,
                d == self.all_displacements@,
                occ == floor.occupiers@,
                n == d.len(),
                now == current_round(floor.entities@),
                bys@ == all_bys,
                all_bys == bystanders(occ, d, swept_all),
                swept_all == all_swept(*floor, d, n as int),
                all_bys.no_duplicates(),
                forall|z: int|
                    0 <= z < all_bys.len() ==> !is_mover(d, #[trigger] all_bys[z]) && exists|w: int|
                        0 <= w < swept_all.len() && occ.contains_key(swept_all[w]) && occ[swept_all[w]] == all_bys[z],
                mover_updates(*floor, d, now, n as int).len() == n,
                forall|z: int| 0 <= z < n ==> #[trigger] mover_updates(*floor, d, now, n as int)[z] == mover_update(*floor, d, now, z),
                k <= bys.len(),
                batch.wf(),
                batch.updates() == mover_updates(*floor, d, now, n as int) + knock_all(*floor, now, all_bys.take(k as int)),
                log@ == before_knock + knock_all_events(all_bys.take(k as int)),
            decreases bys.len() - k,
        {
            let id = bys[k];
            proof {
                let w = choose|w: int|
                    0 <= w < swept_all.len() && occ.contains_key(swept_all[w]) && occ[swept_all[w]] == all_bys[k as int];
                lemma_occupant_valid(*floor, swept_all[w]);
                lemma_knock_all_index(*floor, now, all_bys.take(k as int));
                assert(!crate::entity::updates_id(batch.updates(), id)) by {
                    let mu = mover_updates(*floor, d, now, n as int);
                    let ku = knock_all(*floor, now, all_bys.take(k as int));
                    if crate::entity::updates_id(batch.updates(), id) {
                        let w = choose|w: int| 0 <= w < batch.updates().len() && #[trigger] batch.updates()[w].0 == id;
                        if w < n {
                            assert(batch.updates()[w] == mu[w]);
                            assert(d[w].0 == id);
                            assert(!is_mover(d, all_bys[k as int]));
                        } else {
                            assert(batch.updates()[w] == ku[w - n]);
                            assert(all_bys.take(k as int)[w - n] == all_bys[w - n]);
                            assert(all_bys[w - n] == all_bys[k as int]);
                        }
                    }
                }
                assert(all_bys.take(k + 1) =~= all_bys.take(k as int).push(id));
                assert(all_bys.take(k + 1).drop_last() =~= all_bys.take(k as int));
            }
            let mut clone = floor.entities.get(id).clone();
            clone.state = EntityState::Knockdown { next_round: now };
            proof {
                assert((id, clone@) == knock_update(*floor, now, id));
            }
            let _ = batch.insert(id, clone);
            log.push(FloorEvent::KnockdownEvent(KnockdownEvent { subject: id }));
            proof {
                assert(batch.updates() =~= mover_updates(*floor, d, now, n as int) + knock_all(*floor, now, all_bys.take(k + 1)));
                assert(log@ =~= before_knock + knock_all_events(all_bys.take(k + 1)));
            }
            k += 1;
        }
        proof {
            assert(all_bys.take(all_bys.len() as int) =~= all_bys);
            assert(batch.updates() =~= multi_updates(*floor, d, now));
            assert(log@ =~= multi_events(*floor, d));
            lemma_multi_allowed(*floor, d, now);
        }
        let events_len = log.len();
        let update = floor.update_entities_map(batch);
        let (next, mut rest) = update.into_both();
        let ghost rest_copy = rest@;
        log.append(&mut rest);
        proof {
            assert(log@.subrange(0, events_len as int) =~= multi_events(*floor, d));
            assert(log@.subrange(events_len as int, log@.len() as int) =~= rest_copy);
        }
        Writer::new_with_log(next, log)
    }
}

} // verus!
