//! Publicly exposed actions, free to construct.
use vstd::prelude::*;

use crate::actions::events::AttackHitEvent;
use crate::actions::events::FloorEvent;
use crate::actions::events::KnockdownEvent;
use crate::actions::events::MoveEvent;
use crate::actions::events::StartAttackEvent;
use crate::actions::events::WakeupEvent;
use crate::actions::known::KnownInfallibleAction;
use crate::actions::utils::TakeKnockbackUtil;
use crate::actions::utils::coming_turn;
use crate::actions::utils::juggled;
use crate::actions::utils::lemma_occupant_valid;
use crate::actions::utils::start_juggle;
use crate::actions::ActionError;
use crate::entity::BatchEntityUpdateContextless;
use crate::entity::Entity;
use crate::entity::EntityId;
use crate::entity::EntityModel;
use crate::entity::EntityState;
use crate::entity::StateModel;
use crate::floor::Floor;
use crate::floor::FloorUpdate;
use crate::floor::current_round;
use crate::floor::current_turn;
use crate::floor::lemma_single_allowed;
use crate::floor::map::FloorTile;
use crate::floor::settled_after;
use crate::floor::update_allowed;
use crate::floor::updated;
use crate::pathfinding::PathfindingContext;
use crate::pathfinding::blocker_steady;
use crate::pathfinding::free_tiles;
use crate::pathfinding::lemma_distance_estimate;
use crate::pathfinding::lemma_walk_weaken;
use crate::pathfinding::open_tiles;
use crate::pathfinding::walks;
use crate::strategy::offset;
use crate::positional::algorithms::lemma_short_segment_computable;
use crate::positional::fits_i32;
use crate::positional::AbsolutePosition;
use crate::positional::RelativePosition;
use crate::writer::Writer;

verus! {

/// Passes the turn where the subject stands: it takes no direction, so it does not move;
/// the subject's next turn comes a round later and it gains one energy. (The action is not a
/// move of one space; the strategies use it to wait in place.)
#[derive(Debug, Clone, Copy, PartialEq, Eq, Structural)]
pub struct WaitAction;

/// Moves one space.
#[derive(Debug, Clone, Copy, PartialEq, Eq, Structural)]
pub struct StepAction;

/// Does some attack to someone one space away.
///
/// Currently hardcoded to just subtract one health.
#[derive(Debug, Clone, Copy, PartialEq, Eq, Structural)]
pub struct BumpAction;

/// In order, tries to Bump, Walk, or no-op.
#[derive(Debug, Clone, Copy, PartialEq, Eq, Structural)]
pub struct StepMacroAction;

/// Walks towards a tile, one step per turn.
#[derive(Debug, Clone, Copy, PartialEq, Eq, Structural)]
pub struct GotoAction;

/// The rest of a walk towards a tile, confirmed turn by turn.
#[derive(Debug, Clone, Copy, PartialEq, Eq, Structural)]
pub struct GoingAction {
    pub tile: AbsolutePosition,
}

#[derive(Debug, Clone, Copy, PartialEq, Eq, Structural)]
pub struct TryToStandUpAction;

#[derive(Debug, Clone, Copy, PartialEq, Eq, Structural)]
pub struct KnockdownAfterJuggleAction;

/// `pos` moved by `dir`, where that is a position.
pub open spec fn shifted(pos: AbsolutePosition, dir: RelativePosition) -> Option<AbsolutePosition> {
    if fits_i32(pos.x + dir.dx) && fits_i32(pos.y + dir.dy) {
        Some(AbsolutePosition { x: (pos.x + dir.dx) as i32, y: (pos.y + dir.dy) as i32 })
    } else {
        None
    }
}

pub fn shift(pos: AbsolutePosition, dir: RelativePosition) -> (r: Option<AbsolutePosition>)
    ensures
        r == shifted(pos, dir),
{
    match (pos.x.checked_add(dir.dx), pos.y.checked_add(dir.dy)) {
        (Some(x), Some(y)) => Some(AbsolutePosition { x, y }),
        _ => None,
    }
}

/// The entity at `id`.
pub open spec fn ent(floor: Floor, id: EntityId) -> EntityModel {
    floor.entities@[id.index()]
}

/// Whether `id` names an entity of the floor.
pub open spec fn valid(floor: Floor, id: EntityId) -> bool {
    id.index() < floor.entities@.len()
}

// ---------------------------------------------------------------- wait

#[derive(Debug, Clone, Copy)]
pub struct WaitCommand {
    pub subject_id: EntityId,
}

impl WaitAction {
    pub fn verify_action(&self, floor: &Floor, subject_id: EntityId) -> (r: Result<WaitCommand, ActionError>)
        ensures
            r == if valid(*floor, subject_id) {
                Ok::<WaitCommand, ActionError>(WaitCommand { subject_id })
            } else {
                Err(ActionError::DataMismatch)
            },
    {
        if !floor.entities.contains_id(subject_id) {
            return Err(ActionError::DataMismatch);
        }
        Ok(WaitCommand { subject_id })
    }
}

impl WaitCommand {
    /// The subject after waiting: its next turn is next round, and it gains one energy, up to
    /// its maximum.
    pub open spec fn waited(&self, floor: Floor) -> EntityModel {
        let e = ent(floor, self.subject_id);
        EntityModel {
            state: StateModel::Ready { next_round: (current_round(floor.entities@) + 1) as u32 },
            energy: if e.energy + 1 <= e.max_energy { (e.energy + 1) as i8 } else { e.max_energy },
            ..e
        }
    }

    pub open spec fn can_run(&self, floor: Floor) -> bool {
        &&& floor.wf()
        &&& valid(floor, self.subject_id)
        &&& current_round(floor.entities@) < u32::MAX
        &&& ent(floor, self.subject_id).energy < i8::MAX
        &&& update_allowed(floor, seq![(self.subject_id, self.waited(floor))])
    }

    pub open spec fn result(&self, floor: Floor, next: Floor, log: Seq<FloorEvent>) -> bool {
        updated(floor, seq![(self.subject_id, self.waited(floor))], next, log)
    }

    pub fn do_action(&self, floor: &Floor) -> (r: FloorUpdate)
        requires
            self.can_run(*floor),
        ensures
            self.result(*floor, r.value(), r.entries()),
    {
        let mut subject_clone: Entity = floor.entities.get(self.subject_id).clone();
        subject_clone.state = EntityState::Ready { next_round: floor.get_current_round() + 1 };
        let raised = subject_clone.energy + 1;
        subject_clone.energy = if raised <= subject_clone.max_energy { raised } else { subject_clone.max_energy };
        proof {
            assert(subject_clone@ == self.waited(*floor));
        }
        floor.update_entity((self.subject_id, subject_clone))
    }
}

// ---------------------------------------------------------------- step

#[derive(Debug, Clone, Copy)]
pub struct StepCommand {
    pub dir: RelativePosition,
    pub subject_id: EntityId,
}

impl StepAction {
    /// A step is allowed onto a neighboring floor tile that nobody else stands on.
    pub fn verify_action(&self, floor: &Floor, subject_id: EntityId, dir: RelativePosition) -> (r: Result<StepCommand, ActionError>)
        requires
            floor.wf(),
        ensures
            r == if !valid(*floor, subject_id) {
                Err::<StepCommand, ActionError>(ActionError::DataMismatch)
            } else if dir.spec_length() != 1 {
                Err(ActionError::TargetOutOfRange)
            } else if !(shifted(ent(*floor, subject_id).pos, dir) matches Some(t) && floor.map.tile(t) == FloorTile::Floor
                && !(floor.occupiers@.contains_key(t) && floor.occupiers@[t] != subject_id)) {
                Err(ActionError::InvalidTarget)
            } else {
                Ok(StepCommand { dir, subject_id })
            },
            r matches Ok(c) ==> (current_round(floor.entities@) < u32::MAX ==> c.can_run(*floor)),
    {
        if !floor.entities.contains_id(subject_id) {
            return Err(ActionError::DataMismatch);
        }
        if dir.length() != 1 {
            return Err(ActionError::TargetOutOfRange);
        }
        let target = match shift(floor.entities.get(subject_id).pos, dir) {
            Some(t) => t,
            None => return Err(ActionError::InvalidTarget),
        };
        if !floor.map.is_tile_floor(target) {
            return Err(ActionError::InvalidTarget);
        }
        // It is impossible to step on yourself if dir.length() == 1, but I'm
        // leaving the check in.
        match floor.occupiers.get(target) {
            Some(x) => {
                if x.0 != subject_id.0 {
                    return Err(ActionError::InvalidTarget);
                }
            },
            None => {},
        }
        let c = StepCommand { dir, subject_id };
        proof {
            if current_round(floor.entities@) < u32::MAX {
                lemma_single_allowed(*floor, subject_id, c.stepped(*floor));
            }
        }
        Ok(c)
    }
}

impl StepCommand {
    /// The subject after stepping.
    pub open spec fn stepped(&self, floor: Floor) -> EntityModel {
        let e = ent(floor, self.subject_id);
        EntityModel {
            pos: shifted(e.pos, self.dir)->0,
            state: StateModel::Ready { next_round: (current_round(floor.entities@) + 1) as u32 },
            ..e
        }
    }

    pub open spec fn can_run(&self, floor: Floor) -> bool {
        &&& floor.wf()
        &&& valid(floor, self.subject_id)
        &&& shifted(ent(floor, self.subject_id).pos, self.dir) is Some
        &&& current_round(floor.entities@) < u32::MAX
        &&& update_allowed(floor, seq![(self.subject_id, self.stepped(floor))])
    }

    pub open spec fn result(&self, floor: Floor, next: Floor, log: Seq<FloorEvent>) -> bool {
        &&& log.len() >= 1
        &&& log[0] == FloorEvent::Move(MoveEvent { subject: self.subject_id, tile: self.stepped(floor).pos })
        &&& updated(floor, seq![(self.subject_id, self.stepped(floor))], next, log.subrange(1, log.len() as int))
    }

    pub fn do_action(&self, floor: &Floor) -> (r: FloorUpdate)
        requires
            self.can_run(*floor),
        ensures
            self.result(*floor, r.value(), r.entries()),
    {
        let mut subject_clone: Entity = floor.entities.get(self.subject_id).clone();
        subject_clone.pos = match shift(subject_clone.pos, self.dir) {
            Some(p) => p,
            None => subject_clone.pos,
        };
        subject_clone.state = EntityState::Ready { next_round: floor.get_current_round() + 1 };
        proof {
            assert(subject_clone@ == self.stepped(*floor));
        }
        let event = FloorEvent::Move(MoveEvent { subject: self.subject_id, tile: subject_clone.pos });
        let update = floor.update_entity((self.subject_id, subject_clone));
        let (next, rest) = update.into_both();
        let mut log: Vec<FloorEvent> = Vec::new();
        log.push(event);
        let mut rest = rest;
        let ghost rest_copy = rest@;
        log.append(&mut rest);
        proof {
            assert(log@.subrange(1, log@.len() as int) =~= rest_copy);
        }
        Writer::new_with_log(next, log)
    }
}

// ---------------------------------------------------------------- bump

#[derive(Debug, Clone, Copy)]
pub struct BumpCommand {
    pub dir: RelativePosition,
    pub subject_id: EntityId,
    pub object_index: EntityId,
    pub now: (u32, EntityId),
}

impl BumpAction {
    /// A bump needs someone one step away, and someone whose turn it is.
    pub fn verify_action(&self, floor: &Floor, subject_id: EntityId, dir: RelativePosition) -> (r: Result<BumpCommand, ActionError>)
        requires
            floor.wf(),
        ensures
            r == if !valid(*floor, subject_id) {
                Err::<BumpCommand, ActionError>(ActionError::DataMismatch)
            } else if dir.spec_length() != 1 {
                Err(ActionError::TargetOutOfRange)
            } else if !(shifted(ent(*floor, subject_id).pos, dir) matches Some(t) && floor.occupiers@.contains_key(t)) {
                Err(ActionError::InvalidTarget)
            } else if current_turn(floor.entities@) is None {
                Err(ActionError::FloorInvalid)
            } else {
                Ok(
                    BumpCommand {
                        dir,
                        subject_id,
                        object_index: floor.occupiers@[shifted(ent(*floor, subject_id).pos, dir)->0],
                        now: current_turn(floor.entities@)->0,
                    },
                )
            },
            r matches Ok(c) ==> c.object_index != subject_id || !(ent(*floor, subject_id).state.occupies()),
            r matches Ok(c) ==> valid(*floor, c.object_index) && ent(*floor, c.object_index).state.occupies()
                && floor.map.tile(ent(*floor, c.object_index).pos) == FloorTile::Floor,
    {
        if !floor.entities.contains_id(subject_id) {
            return Err(ActionError::DataMismatch);
        }
        if dir.length() != 1 {
            return Err(ActionError::TargetOutOfRange);
        }
        let target = match shift(floor.entities.get(subject_id).pos, dir) {
            Some(t) => t,
            None => return Err(ActionError::InvalidTarget),
        };
        let object_index = match floor.occupiers.get(target) {
            Some(o) => o,
            None => return Err(ActionError::InvalidTarget),
        };
        let now = match floor.get_current_turn() {
            Some(now) => now,
            None => return Err(ActionError::FloorInvalid),
        };
        proof {
            lemma_occupant_valid(*floor, target);
            let s = floor.entities@;
            if object_index == subject_id && s[subject_id.index()].state.occupies() {
                assert(s[subject_id.index()].occupied_position() == Some(target));
                assert(target.x == s[subject_id.index()].pos.x + dir.dx);
            }
            assert(s[object_index.index()].occupied_position() == Some(target));
        }
        Ok(BumpCommand { dir, subject_id, object_index, now })
    }
}

impl BumpCommand {
    /// The bumped entity: juggled, one health down.
    pub open spec fn hit(&self, floor: Floor) -> EntityModel {
        let o = ent(floor, self.object_index);
        let j = juggled(o.state, coming_turn(self.now, self.object_index), 1, self.object_index);
        EntityModel { state: j.0, health: (o.health - 1) as i8, ..o }
    }

    /// The subject after bumping.
    pub open spec fn bumped(&self, floor: Floor) -> EntityModel {
        ent(floor, self.subject_id).with_state(
            StateModel::Ready { next_round: (current_round(floor.entities@) + 1) as u32 },
        )
    }

    pub open spec fn updates(&self, floor: Floor) -> Seq<(EntityId, EntityModel)> {
        seq![(self.object_index, self.hit(floor)), (self.subject_id, self.bumped(floor))]
    }

    /// The events before the update: the attack starts and hits, then the juggle.
    pub open spec fn events(&self, floor: Floor) -> Seq<FloorEvent> {
        let o = ent(floor, self.object_index);
        seq![
            FloorEvent::StartAttack(StartAttackEvent {
                subject: self.subject_id,
                tile: shifted(ent(floor, self.subject_id).pos, self.dir)->0,
            }),
            FloorEvent::AttackHit(AttackHitEvent { subject: self.subject_id, target: self.object_index, damage: 1 }),
        ] + juggled(o.state, coming_turn(self.now, self.object_index), 1, self.object_index).1
    }

    pub open spec fn can_run(&self, floor: Floor) -> bool {
        &&& floor.wf()
        &&& valid(floor, self.subject_id)
        &&& valid(floor, self.object_index)
        &&& self.subject_id != self.object_index
        &&& shifted(ent(floor, self.subject_id).pos, self.dir) is Some
        &&& self.dir.spec_length() == 1
        &&& !(ent(floor, self.object_index).state is Downed)
        &&& !(ent(floor, self.object_index).state is Exited)
        &&& ent(floor, self.object_index).health > i8::MIN
        &&& self.now.0 + 3 <= u32::MAX
        &&& current_round(floor.entities@) < u32::MAX
        &&& floor.map.tile(ent(floor, self.object_index).pos) == FloorTile::Floor
        &&& update_allowed(floor, self.updates(floor))
    }

    /// The bump hits, then pushes the bumped entity one step along.
    pub open spec fn result(&self, floor: Floor, next: Floor, log: Seq<FloorEvent>) -> bool {
        let ev = self.events(floor);
        exists|mid: Floor, k: int|
            ev.len() <= k <= log.len() && log.subrange(0, ev.len() as int) == ev && updated(
                floor,
                self.updates(floor),
                mid,
                log.subrange(ev.len() as int, k),
            ) && (TakeKnockbackUtil { entity: self.object_index, vector: self.dir }).result(
                mid,
                next,
                log.subrange(k, log.len() as int),
            )
    }

    pub fn do_action(&self, floor: &Floor) -> (r: FloorUpdate)
        requires
            self.can_run(*floor),
        ensures
            self.result(*floor, r.value(), r.entries()),
    {
        let tile = match shift(floor.entities.get(self.subject_id).pos, self.dir) {
            Some(t) => t,
            None => floor.entities.get(self.subject_id).pos,
        };
        let mut log: Vec<FloorEvent> = Vec::new();
        log.push(FloorEvent::StartAttack(StartAttackEvent { subject: self.subject_id, tile }));
        log.push(
            FloorEvent::AttackHit(AttackHitEvent { subject: self.subject_id, target: self.object_index, damage: 1 }),
        );
        let juggle = start_juggle(floor, self.object_index, self.now, 1);
        let (mut hit, mut juggle_log) = juggle.into_both();
        hit.health = hit.health - 1;
        let ghost jl = juggle_log@;
        log.append(&mut juggle_log);
        let mut subject_clone = floor.entities.get(self.subject_id).clone();
        subject_clone.state = EntityState::Ready { next_round: floor.get_current_round() + 1 };
        let mut batch = BatchEntityUpdateContextless::new();
        let ghost hm = hit@;
        let ghost sm = subject_clone@;
        let _ = batch.insert(self.object_index, hit);
        let _ = batch.insert(self.subject_id, subject_clone);
        proof {
            assert(hm == self.hit(*floor));
            assert(sm == self.bumped(*floor));
            assert(batch.updates() =~= self.updates(*floor));
            assert(log@ =~= self.events(*floor));
        }
        let n = log.len();
        let update = floor.update_entities_map(batch);
        let (mid, mut rest) = update.into_both();
        let ghost rest_copy = rest@;
        log.append(&mut rest);
        let k = log.len();
        let knock = TakeKnockbackUtil { entity: self.object_index, vector: self.dir };
        proof {
            lemma_short_segment_computable(self.dir);
            lemma_settled_keeps_pos(*floor, self.updates(*floor), self.object_index);
            assert(settled_after(*floor, self.updates(*floor))[self.object_index.index()].pos == self.hit(*floor).pos) by {
                assert(self.updates(*floor)[0].0 == self.object_index);
            }
        }
        let knocked = knock.do_action(&mid);
        let (next, mut tail) = knocked.into_both();
        let ghost tail_copy = tail@;
        log.append(&mut tail);
        proof {
            assert(log@.subrange(0, n as int) =~= self.events(*floor));
            assert(log@.subrange(n as int, k as int) =~= rest_copy);
            assert(log@.subrange(k as int, log@.len() as int) =~= tail_copy);
        }
        Writer::new_with_log(next, log)
    }
}

/// The downing system changes states only, never positions.
pub proof fn lemma_settled_keeps_pos(floor: Floor, updates: Seq<(EntityId, EntityModel)>, id: EntityId)
    requires
        valid(floor, id),
    ensures
        settled_after(floor, updates)[id.index()].pos == crate::entity::apply_updates(floor.entities@, updates)[id.index()].pos,
        settled_after(floor, updates).len() == floor.entities@.len(),
{
}

// ---------------------------------------------------------------- stand up, knockdown

#[derive(Debug, Clone, Copy)]
pub struct TryToStandUpCommand {
    pub subject_id: EntityId,
    pub now: u32,
}

impl TryToStandUpAction {
    /// Only a knocked down entity can try to stand up.
    pub fn verify_action(&self, floor: &Floor, subject_id: EntityId) -> (r: Result<TryToStandUpCommand, ActionError>)
        requires
            floor.wf(),
            valid(*floor, subject_id),
        ensures
            r == match ent(*floor, subject_id).state {
                StateModel::Knockdown { next_round } => Ok::<TryToStandUpCommand, ActionError>(
                    TryToStandUpCommand { subject_id, now: next_round },
                ),
                _ => Err(ActionError::InvalidState),
            },
    {
        match floor.entities.get(subject_id).state {
            EntityState::Knockdown { next_round } => Ok(TryToStandUpCommand { subject_id, now: next_round }),
            _ => Err(ActionError::InvalidState),
        }
    }
}

impl TryToStandUpCommand {
    /// Whether someone stands where the subject lies.
    pub open spec fn blocked(&self, floor: Floor) -> bool {
        floor.occupiers@.contains_key(ent(floor, self.subject_id).pos)
    }

    /// The subject afterwards: still down for another round where someone stands on it, else
    /// up.
    pub open spec fn stood(&self, floor: Floor) -> EntityModel {
        ent(floor, self.subject_id).with_state(
            if self.blocked(floor) {
                StateModel::Knockdown { next_round: (self.now + 1) as u32 }
            } else {
                StateModel::Ready { next_round: self.now }
            },
        )
    }

    pub open spec fn can_run(&self, floor: Floor) -> bool {
        &&& floor.wf()
        &&& valid(floor, self.subject_id)
        &&& self.now < u32::MAX
        &&& floor.map.tile(ent(floor, self.subject_id).pos) == FloorTile::Floor
    }

    pub open spec fn result(&self, floor: Floor, next: Floor, log: Seq<FloorEvent>) -> bool {
        if self.blocked(floor) {
            updated(floor, seq![(self.subject_id, self.stood(floor))], next, log)
        } else {
            &&& log.len() >= 1
            &&& log.last() == FloorEvent::Wakeup(WakeupEvent { subject: self.subject_id })
            &&& updated(floor, seq![(self.subject_id, self.stood(floor))], next, log.drop_last())
        }
    }

    pub fn do_action(&self, floor: &Floor) -> (r: FloorUpdate)
        requires
            self.can_run(*floor),
        ensures
            self.result(*floor, r.value(), r.entries()),
    {
        let pos = floor.entities.get(self.subject_id).pos;
        let mut clone = floor.entities.get(self.subject_id).clone();
        if floor.occupiers.get(pos).is_some() {
            clone.state = EntityState::Knockdown { next_round: self.now + 1 };
            proof {
                lemma_single_allowed(*floor, self.subject_id, clone@);
            }
            floor.update_entity((self.subject_id, clone))
        } else {
            clone.state = EntityState::Ready { next_round: self.now };
            proof {
                lemma_single_allowed(*floor, self.subject_id, clone@);
            }
            let update = floor.update_entity((self.subject_id, clone));
            let r = update.log(FloorEvent::Wakeup(WakeupEvent { subject: self.subject_id }));
            proof {
                assert(r.entries().drop_last() =~= update.entries());
            }
            r
        }
    }
}

#[derive(Debug, Clone, Copy)]
pub struct KnockdownAfterJuggleCommand {
    pub subject_id: EntityId,
    pub now: u32,
}

impl KnockdownAfterJuggleAction {
    /// Only an entity in hitstun falls down after a juggle.
    pub fn verify_action(&self, floor: &Floor, subject_id: EntityId) -> (r: Result<KnockdownAfterJuggleCommand, ActionError>)
        requires
            floor.wf(),
            valid(*floor, subject_id),
        ensures
            r == match ent(*floor, subject_id).state {
                StateModel::Hitstun { next_round, .. } => Ok::<KnockdownAfterJuggleCommand, ActionError>(
                    KnockdownAfterJuggleCommand { subject_id, now: next_round },
                ),
                _ => Err(ActionError::InvalidState),
            },
    {
        match floor.entities.get(subject_id).state {
            EntityState::Hitstun { next_round, .. } => Ok(KnockdownAfterJuggleCommand { subject_id, now: next_round }),
            _ => Err(ActionError::InvalidState),
        }
    }
}

impl KnockdownAfterJuggleCommand {
    pub open spec fn fallen(&self, floor: Floor) -> EntityModel {
        ent(floor, self.subject_id).with_state(StateModel::Knockdown { next_round: (self.now + 1) as u32 })
    }

    pub open spec fn can_run(&self, floor: Floor) -> bool {
        &&& floor.wf()
        &&& valid(floor, self.subject_id)
        &&& self.now < u32::MAX
    }

    pub open spec fn result(&self, floor: Floor, next: Floor, log: Seq<FloorEvent>) -> bool {
        &&& log.len() >= 1
        &&& log.last() == FloorEvent::KnockdownEvent(KnockdownEvent { subject: self.subject_id })
        &&& updated(floor, seq![(self.subject_id, self.fallen(floor))], next, log.drop_last())
    }

    pub fn do_action(&self, floor: &Floor) -> (r: FloorUpdate)
        requires
            self.can_run(*floor),
        ensures
            self.result(*floor, r.value(), r.entries()),
    {
        let mut clone = floor.entities.get(self.subject_id).clone();
        clone.state = EntityState::Knockdown { next_round: self.now + 1 };
        proof {
            lemma_single_allowed(*floor, self.subject_id, clone@);
        }
        let update = floor.update_entity((self.subject_id, clone));
        let r = update.log(FloorEvent::KnockdownEvent(KnockdownEvent { subject: self.subject_id }));
        proof {
            assert(r.entries().drop_last() =~= update.entries());
        }
        r
    }
}

// ---------------------------------------------------------------- step macro

/// What a step macro turns into.
#[derive(Debug, Clone, Copy)]
pub enum StepOrBump {
    Bump(BumpCommand),
    Step(StepCommand),
}

impl StepMacroAction {
    /// Bumps where it can, else steps where it can.
    pub fn verify_action(&self, floor: &Floor, subject_id: EntityId, dir: RelativePosition) -> (r: Result<StepOrBump, ActionError>)
        requires
            floor.wf(),
        ensures
            r == match BumpAction.spec_verify(*floor, subject_id, dir) {
                Ok(c) => Ok::<StepOrBump, ActionError>(StepOrBump::Bump(c)),
                Err(_) => match StepAction.spec_verify(*floor, subject_id, dir) {
                    Ok(c) => Ok(StepOrBump::Step(c)),
                    Err(_) => Err(ActionError::MacroFallthrough),
                },
            },
    {
        let bump = BumpAction;
        if let Ok(command) = bump.verify_action(floor, subject_id, dir) {
            return Ok(StepOrBump::Bump(command));
        }
        let step = StepAction;
        if let Ok(command) = step.verify_action(floor, subject_id, dir) {
            return Ok(StepOrBump::Step(command));
        }
        Err(ActionError::MacroFallthrough)
    }
}

impl BumpAction {
    /// What `verify_action` returns.
    pub open spec fn spec_verify(self, floor: Floor, subject_id: EntityId, dir: RelativePosition) -> Result<BumpCommand, ActionError> {
        if !valid(floor, subject_id) {
            Err::<BumpCommand, ActionError>(ActionError::DataMismatch)
        } else if dir.spec_length() != 1 {
            Err(ActionError::TargetOutOfRange)
        } else if !(shifted(ent(floor, subject_id).pos, dir) matches Some(t) && floor.occupiers@.contains_key(t)) {
            Err(ActionError::InvalidTarget)
        } else if current_turn(floor.entities@) is None {
            Err(ActionError::FloorInvalid)
        } else {
            Ok(
                BumpCommand {
                    dir,
                    subject_id,
                    object_index: floor.occupiers@[shifted(ent(floor, subject_id).pos, dir)->0],
                    now: current_turn(floor.entities@)->0,
                },
            )
        }
    }
}

impl StepAction {
    /// What `verify_action` returns.
    pub open spec fn spec_verify(self, floor: Floor, subject_id: EntityId, dir: RelativePosition) -> Result<StepCommand, ActionError> {
        if !valid(floor, subject_id) {
            Err::<StepCommand, ActionError>(ActionError::DataMismatch)
        } else if dir.spec_length() != 1 {
            Err(ActionError::TargetOutOfRange)
        } else if !(shifted(ent(floor, subject_id).pos, dir) matches Some(t) && floor.map.tile(t) == FloorTile::Floor
            && !(floor.occupiers@.contains_key(t) && floor.occupiers@[t] != subject_id)) {
            Err(ActionError::InvalidTarget)
        } else {
            Ok(StepCommand { dir, subject_id })
        }
    }
}

// ---------------------------------------------------------------- goto

#[derive(Debug, Clone, Copy)]
pub struct GotoCommand {
    pub tile: AbsolutePosition,
    pub subject_id: EntityId,
}

impl GotoAction {
    /// Pathfind to target.
    pub fn verify_action(&self, floor: &Floor, subject_id: EntityId, tile: AbsolutePosition) -> (r: Result<GotoCommand, ActionError>)
        ensures
            r == Ok::<GotoCommand, ActionError>(GotoCommand { tile, subject_id }),
    {
        Ok(GotoCommand { tile, subject_id })
    }
}

impl GoingAction {
    /// Keeps walking.
    pub fn verify(&self, floor: &Floor, subject_id: EntityId) -> (r: GotoCommand)
        ensures
            r == (GotoCommand { tile: self.tile, subject_id }),
    {
        GotoCommand { tile: self.tile, subject_id }
    }
}

/// `v` clamped to `-1..=1`.
pub open spec fn clamped_unit(v: int) -> int {
    if v < -1 {
        -1
    } else if v > 1 {
        1
    } else {
        v
    }
}

/// `v` clamped to `-1..=1`.
fn clamp_unit(v: i64) -> (r: i32)
    ensures
        r == clamped_unit(v as int),
{
    if v < -1 {
        -1
    } else if v > 1 {
        1
    } else {
        v as i32
    }
}

/// The direction from `from` towards `to`, one step at most on each axis.
fn direction_towards(from: AbsolutePosition, to: AbsolutePosition) -> (r: RelativePosition)
    ensures
        r.dx == clamped_unit(to.x - from.x),
        r.dy == clamped_unit(to.y - from.y),
{
    RelativePosition { dx: clamp_unit(to.x as i64 - from.x as i64), dy: clamp_unit(to.y as i64 - from.y as i64) }
}

/// The floor tiles that nobody stands on.
pub open spec fn clear_tiles(floor: Floor) -> spec_fn(AbsolutePosition) -> bool {
    |p: AbsolutePosition| floor.map.tile(p) == FloorTile::Floor && !floor.occupiers@.contains_key(p)
}

/// `len` is the length of a shortest walk from `a` to `b` over floor tiles that nobody
/// stands on.
pub open spec fn clear_distance(floor: Floor, a: AbsolutePosition, b: AbsolutePosition, len: nat) -> bool {
    &&& walks(clear_tiles(floor), a, b, len)
    &&& forall|l: nat| #[trigger] walks(clear_tiles(floor), a, b, l) ==> len <= l
}

/// Whoever stands on a tile is named there by the occupiers, and stands on the floor.
pub proof fn lemma_occupier_of(floor: Floor, id: EntityId)
    requires
        floor.wf(),
        valid(floor, id),
        ent(floor, id).state.occupies(),
    ensures
        floor.occupiers@.contains_key(ent(floor, id).pos),
        floor.occupiers@[ent(floor, id).pos] == id,
        floor.map.tile(ent(floor, id).pos) == FloorTile::Floor,
{
    let s = floor.entities@;
    let p = s[id.index()].pos;
    assert(crate::floor::occupiers::occupied_by(s, p, id.index()));
    let c = choose|c: int| #[trigger] crate::floor::occupiers::occupied_by(s, p, c);
    if c != id.index() {
        assert(s[c].occupied_position() == s[id.index()].occupied_position());
    }
}

impl GotoCommand {
    /// The subject after walking: done where it reached the tile, else waiting for the next
    /// step to be confirmed.
    pub open spec fn walked(&self, m: EntityModel) -> EntityModel {
        m.with_state(
            if m.pos == self.tile {
                StateModel::Ready { next_round: m.state.next_round()->0 }
            } else {
                StateModel::ConfirmCommand {
                    next_round: m.state.next_round()->0,
                    to_confirm: KnownInfallibleAction::GoingAction(GoingAction { tile: self.tile }),
                }
            },
        )
    }

    pub open spec fn can_run(&self, floor: Floor) -> bool {
        &&& floor.wf()
        &&& valid(floor, self.subject_id)
        &&& ent(floor, self.subject_id).state.occupies()
        &&& current_round(floor.entities@) < u32::MAX
        &&& floor.downing is Some ==> ent(floor, self.subject_id).health > 0
    }

    /// Either the subject gives up, a failed step not being retryable, or it takes a step
    /// that the step action allows and then waits to go on.
    pub open spec fn result(&self, floor: Floor, next: Floor, log: Seq<FloorEvent>) -> bool {
        let e = ent(floor, self.subject_id);
        ||| updated(
            floor,
            seq![(self.subject_id, e.with_state(StateModel::Ready { next_round: current_round(floor.entities@) }))],
            next,
            log,
        )
        ||| exists|dir: RelativePosition| #[trigger] self.stepped_by(floor, next, log, dir)
    }

    /// The subject takes the step `dir`, which the step action allows, and then waits to go on.
    pub open spec fn stepped_by(&self, floor: Floor, next: Floor, log: Seq<FloorEvent>, dir: RelativePosition) -> bool {
        exists|mid: Floor, k: int|
            0 <= k <= log.len() && StepAction.spec_verify(floor, self.subject_id, dir) == Ok::<StepCommand, ActionError>(
                StepCommand { dir, subject_id: self.subject_id },
            ) && (StepCommand { dir, subject_id: self.subject_id }).result(floor, mid, log.subrange(0, k)) && updated(
                mid,
                seq![(self.subject_id, self.walked(ent(mid, self.subject_id)))],
                next,
                log.subrange(k, log.len() as int),
            )
    }

    /// The subject is not on the tile, a floor walk to it is within the search's reach (five
    /// moves more than the straight distance), and the step action allows every first step
    /// of a shortest floor walk to it.
    pub open spec fn clear_way(&self, floor: Floor) -> bool {
        let pos = ent(floor, self.subject_id).pos;
        &&& pos != self.tile
        &&& exists|len: nat|
            #[trigger] walks(floor.map.floor_tiles(), pos, self.tile, len) && len <= pos.spec_distance(self.tile) + 5
        &&& forall|t: AbsolutePosition, d: nat|
            floor.map.floor_distance(pos, self.tile, d) && pos.spec_distance(t) == 1 && #[trigger] walks(
                floor.map.floor_tiles(),
                t,
                self.tile,
                (d - 1) as nat,
            ) ==> StepAction.spec_verify(floor, self.subject_id, offset(pos, t)) is Ok
    }

    /// The subject is not on the tile, and a walk to it over floor tiles that nobody stands on
    /// is within the search's reach (five moves more than the straight distance).
    pub open spec fn around_reach(&self, floor: Floor) -> bool {
        let pos = ent(floor, self.subject_id).pos;
        &&& pos != self.tile
        &&& exists|len: nat|
            #[trigger] walks(clear_tiles(floor), pos, self.tile, len) && len <= pos.spec_distance(self.tile) + 5
    }

    /// `dir` moves the subject onto the first tile of a shortest walk to the tile over floor
    /// tiles that nobody stands on.
    pub open spec fn along_around(&self, floor: Floor, dir: RelativePosition) -> bool {
        let pos = ent(floor, self.subject_id).pos;
        exists|d: nat|
            #[trigger] clear_distance(floor, pos, self.tile, d) && shifted(pos, dir) is Some && walks(
                clear_tiles(floor),
                shifted(pos, dir)->0,
                self.tile,
                (d - 1) as nat,
            )
    }

    /// `dir` moves the subject onto the first tile of a shortest floor walk to the tile.
    pub open spec fn along_shortest(&self, floor: Floor, dir: RelativePosition) -> bool {
        let pos = ent(floor, self.subject_id).pos;
        exists|d: nat|
            #[trigger] floor.map.floor_distance(pos, self.tile, d) && shifted(pos, dir) is Some && walks(
                floor.map.floor_tiles(),
                shifted(pos, dir)->0,
                self.tile,
                (d - 1) as nat,
            )
    }

    /// The step towards the tile, if the step action allows it: along a path over the floor,
    /// else along one that also goes around whoever stands in the way.
    fn choose_step(&self, floor: &Floor) -> (r: Option<StepCommand>)
        requires
            floor.wf(),
            valid(*floor, self.subject_id),
        ensures
            r matches Some(c) ==> c.subject_id == self.subject_id && StepAction.spec_verify(*floor, self.subject_id, c.dir)
                == Ok::<StepCommand, ActionError>(c),
            r matches Some(c) ==> (current_round(floor.entities@) < u32::MAX ==> c.can_run(*floor)),
            ent(*floor, self.subject_id).pos == self.tile ==> r is None,
            ent(*floor, self.subject_id).pos.spec_distance(self.tile) == 1 && StepAction.spec_verify(
                *floor,
                self.subject_id,
                offset(ent(*floor, self.subject_id).pos, self.tile),
            ) is Ok ==> r == Some(
                StepCommand { dir: offset(ent(*floor, self.subject_id).pos, self.tile), subject_id: self.subject_id },
            ),
            self.clear_way(*floor) ==> r is Some && self.along_shortest(*floor, r->0.dir),
            self.around_reach(*floor) ==> r is Some && (self.along_shortest(*floor, r->0.dir) || self.along_around(
                *floor,
                r->0.dir,
            )),
    {
        let pos = floor.entities.get(self.subject_id).pos;
        proof {
            let dir = offset(pos, self.tile);
            if pos.spec_distance(self.tile) == 1 && StepAction.spec_verify(*floor, self.subject_id, dir) is Ok {
                assert(shifted(pos, dir) == Some(self.tile));
                assert(floor.map.tile(self.tile) == FloorTile::Floor);
            }
        }
        let first = match floor.map.get_step(pos, self.tile) {
            Some(target) => {
                let dir = direction_towards(pos, target);
                proof {
                    if self.clear_way(*floor) {
                        let d = choose|d: nat|
                            #[trigger] floor.map.floor_distance(pos, self.tile, d) && walks(
                                floor.map.floor_tiles(),
                                target,
                                self.tile,
                                (d - 1) as nat,
                            );
                        assert(pos.spec_distance(target) == 1);
                        assert(dir == offset(pos, target));
                        assert(StepAction.spec_verify(*floor, self.subject_id, offset(pos, target)) is Ok);
                        assert(shifted(pos, offset(pos, target)) == Some(target));
                        assert(self.along_shortest(*floor, dir));
                    }
                }
                match StepAction.verify_action(floor, self.subject_id, dir) {
                    Ok(c) => Some(c),
                    Err(_) => None,
                }
            },
            None => None,
        };
        match first {
            Some(c) => Some(c),
            None => {
                let occupiers = &floor.occupiers;
                let map = &floor.map;
                let around = |p: AbsolutePosition| -> (b: bool)
                    ensures
                        b == (map.tile(p) != FloorTile::Floor || occupiers@.contains_key(p)),
                    { !map.is_tile_floor(p) || occupiers.get(p).is_some() };
                let mut step_around = PathfindingContext::new(around, AbsolutePosition::distance);
                proof {
                    let blk = step_around.blocker();
                    let cl = clear_tiles(*floor);
                    assert(blocker_steady(blk));
                    lemma_distance_estimate(blk, step_around.estimator(), self.tile);
                    assert(step_around.sound_search_from(pos, self.tile));
                    assert forall|p: AbsolutePosition| #[trigger] free_tiles(blk)(p) implies cl(p) by {
                        assert(blk.ensures((p,), false));
                    }
                    assert forall|p: AbsolutePosition| #[trigger] cl(p) implies open_tiles(blk)(p) by {
                        if blk.ensures((p,), true) {
                            assert(floor.map.tile(p) != FloorTile::Floor || floor.occupiers@.contains_key(p));
                        }
                    }
                    if self.around_reach(*floor) {
                        let len = choose|len: nat|
                            #[trigger] walks(cl, pos, self.tile, len) && len <= pos.spec_distance(self.tile) + 5;
                        lemma_walk_weaken(cl, open_tiles(blk), pos, self.tile, len);
                        assert(step_around.within_reach(pos, self.tile));
                    }
                }
                if step_around.find_path(pos, self.tile) {
                    match step_around.get_step(pos, self.tile) {
                        Some(target) => {
                            let dir = direction_towards(pos, target);
                            proof {
                                if self.around_reach(*floor) {
                                    let blk = step_around.blocker();
                                    let cl = clear_tiles(*floor);
                                    let s = step_around.table();
                                    let d = s[crate::pathfinding::key_index(
                                        s,
                                        crate::pathfinding::normalized(pos, self.tile),
                                    )].distance;
                                    assert(step_around.found_shortest(pos, self.tile));
                                    lemma_walk_weaken(free_tiles(blk), cl, pos, self.tile, d as nat);
                                    lemma_walk_weaken(free_tiles(blk), cl, target, self.tile, (d - 1) as nat);
                                    assert forall|l: nat| #[trigger] walks(cl, pos, self.tile, l) implies d <= l by {
                                        lemma_walk_weaken(cl, open_tiles(blk), pos, self.tile, l);
                                    }
                                    assert(clear_distance(*floor, pos, self.tile, d as nat));
                                    assert(pos.spec_distance(target) == 1);
                                    assert(dir == offset(pos, target));
                                    assert(shifted(pos, offset(pos, target)) == Some(target));
                                    assert(blk.ensures((target,), false));
                                    assert(StepAction.spec_verify(*floor, self.subject_id, dir) is Ok);
                                    assert(self.along_around(*floor, dir));
                                }
                            }
                            match StepAction.verify_action(floor, self.subject_id, dir) {
                                Ok(c) => Some(c),
                                Err(_) => None,
                            }
                        },
                        None => None,
                    }
                } else {
                    None
                }
            },
        }
    }

    pub fn do_action(&self, floor: &Floor) -> (r: FloorUpdate)
        requires
            self.can_run(*floor),
        ensures
            self.result(*floor, r.value(), r.entries()),
            self.clear_way(*floor) ==> exists|dir: RelativePosition|
                #[trigger] self.stepped_by(*floor, r.value(), r.entries(), dir) && self.along_shortest(*floor, dir),
            self.around_reach(*floor) ==> exists|dir: RelativePosition|
                #[trigger] self.stepped_by(*floor, r.value(), r.entries(), dir) && (self.along_shortest(*floor, dir)
                    || self.along_around(*floor, dir)),
    {
        match self.choose_step(floor) {
            None => {
                // Give up immediately, a failed step is not retryable.
                let mut subject_clone: Entity = floor.entities.get(self.subject_id).clone();
                subject_clone.state = EntityState::Ready { next_round: floor.get_current_round() };
                proof {
                    lemma_occupier_of(*floor, self.subject_id);
                    lemma_single_allowed(*floor, self.subject_id, subject_clone@);
                }
                floor.update_entity((self.subject_id, subject_clone))
            },
            Some(command) => {
                let stepped = command.do_action(floor);
                let (mid, mut log) = stepped.into_both();
                let ghost k = log.len();
                let ghost first_log = log@;
                proof {
                    crate::floor::lemma_apply_single(floor.entities@, self.subject_id, command.stepped(*floor));
                }
                let m = mid.entities.get(self.subject_id);
                let next_round = match m.get_next_round() {
                    Some(r) => r,
                    None => 0,
                };
                let mut subject_clone: Entity = m.clone();
                subject_clone.state = if m.pos.x == self.tile.x && m.pos.y == self.tile.y {
                    EntityState::Ready { next_round }
                } else {
                    EntityState::ConfirmCommand {
                        next_round,
                        to_confirm: KnownInfallibleAction::GoingAction(GoingAction { tile: self.tile }),
                    }
                };
                proof {
                    assert(subject_clone@ == self.walked(ent(mid, self.subject_id)));
                    lemma_occupier_of(mid, self.subject_id);
                    lemma_single_allowed(mid, self.subject_id, subject_clone@);
                }
                let update = mid.update_entity((self.subject_id, subject_clone));
                let (next, mut rest) = update.into_both();
                let ghost rest_copy = rest@;
                log.append(&mut rest);
                proof {
                    assert(log@.subrange(0, k as int) =~= first_log);
                    assert(log@.subrange(k as int, log@.len() as int) =~= rest_copy);
                    assert(self.stepped_by(*floor, next, log@, command.dir));
                }
                Writer::new_with_log(next, log)
            },
        }
    }
}

} // verus!
