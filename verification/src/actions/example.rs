//! Example actions: a double hit and a stance.
use vstd::prelude::*;

use crate::actions::ActionError;
use crate::actions::events::FloorEvent;
use crate::actions::events::PrepareAttackEvent;
use crate::actions::events::StartAttackEvent;
use crate::actions::known::KnownInfallibleAction;
use crate::actions::known::KnownUnaimedAction;
use crate::actions::public::ent;
use crate::actions::public::shift;
use crate::actions::public::shifted;
use crate::actions::public::valid;
use crate::actions::utils::DelayCommand;
use crate::actions::utils::after_strike;
use crate::actions::utils::can_strike;
use crate::actions::utils::committable;
use crate::actions::utils::lemma_delay_can_run;
use crate::actions::utils::readied_entity;
use crate::actions::utils::strike;
use crate::actions::utils::struck;
use crate::entity::Entity;
use crate::entity::EntityId;
use crate::entity::EntityModel;
use crate::entity::EntityState;
use crate::entity::StateModel;
use crate::floor::Floor;
use crate::floor::FloorUpdate;
use crate::floor::allowed_entities;
use crate::floor::current_round;
use crate::floor::lemma_allowed_entities;
use crate::floor::update_allowed;
use crate::floor::updated;
use crate::positional::AbsolutePosition;
use crate::positional::RelativePosition;
use crate::writer::Writer;

verus! {

/// Hits once, then queues another.
#[derive(Debug, Clone, Copy, PartialEq, Eq, Structural)]
pub struct DoubleHitAction;

/// The second hit of a double hit.
#[derive(Debug, Clone, Copy, PartialEq, Eq, Structural)]
pub struct DoubleHitFollowupAction {
    pub dir: RelativePosition,
}

/// Waits a turn, then lets the user do a big attack or exit stance.
#[derive(Debug, Clone, Copy, PartialEq, Eq, Structural)]
pub struct EnterStanceAction;

#[derive(Debug, Clone, Copy, PartialEq, Eq, Structural)]
pub struct ExitStanceAction;

/// The tile one step from the subject along `dir`.
pub open spec fn aimed_tile(floor: Floor, subject_id: EntityId, dir: RelativePosition) -> AbsolutePosition {
    shifted(ent(floor, subject_id).pos, dir)->0
}

/// Whether a hit along `dir` followed by the readying of the subject, `delay` rounds on, can
/// run: the aimed tile exists, the hit can land, and the floor accepts the subject's new state.
pub open spec fn can_hit_then_ready(floor: Floor, subject_id: EntityId, dir: RelativePosition, delay: int) -> bool {
    let after = after_strike(floor, aimed_tile(floor, subject_id, dir));
    &&& floor.wf()
    &&& valid(floor, subject_id)
    &&& shifted(ent(floor, subject_id).pos, dir) is Some
    &&& can_strike(floor, aimed_tile(floor, subject_id, dir))
    &&& current_round(after) + delay <= u32::MAX
    &&& allowed_entities(after, floor.map, floor.downing is Some, seq![(subject_id, readied_entity(after, subject_id, delay))])
}

/// The attack is announced on the aimed tile, and the hit lands there.
pub open spec fn announced_strike(floor: Floor, subject_id: EntityId, tile: AbsolutePosition, mid: Floor, log: Seq<FloorEvent>, k: int) -> bool {
    &&& 1 <= k <= log.len()
    &&& log[0] == FloorEvent::StartAttack(StartAttackEvent { subject: subject_id, tile })
    &&& struck(floor, subject_id, tile, mid, log.subrange(1, k))
}

/// The start of an attack on `tile`, then the hit.
fn announce_and_strike(floor: &Floor, subject_id: EntityId, tile: AbsolutePosition) -> (r: (Floor, Vec<FloorEvent>))
    requires
        can_strike(*floor, tile),
    ensures
        announced_strike(*floor, subject_id, tile, r.0, r.1@, r.1@.len() as int),
        r.0.entities@ == after_strike(*floor, tile),
{
    let mut log: Vec<FloorEvent> = Vec::new();
    log.push(FloorEvent::StartAttack(StartAttackEvent { subject: subject_id, tile }));
    let hit = strike(floor, subject_id, tile);
    let (mid, mut hit_log) = hit.into_both();
    let ghost hl = hit_log@;
    log.append(&mut hit_log);
    proof {
        assert(log@.subrange(1, log@.len() as int) =~= hl);
    }
    (mid, log)
}

// ---------------------------------------------------------------- double hit

/// Hits along `dir`, then commits to a second hit next round.
#[derive(Debug, Clone, Copy)]
pub struct DoubleHitCommand {
    pub dir: RelativePosition,
    pub subject_id: EntityId,
}

impl DoubleHitAction {
    /// Any known subject may hit one step away, or its own tile.
    pub fn verify_action(&self, floor: &Floor, subject_id: EntityId, dir: RelativePosition) -> (r: Result<DoubleHitCommand, ActionError>)
        ensures
            r == if !valid(*floor, subject_id) {
                Err::<DoubleHitCommand, ActionError>(ActionError::DataMismatch)
            } else if dir.spec_length() > 1 {
                Err(ActionError::TargetOutOfRange)
            } else {
                Ok(DoubleHitCommand { dir, subject_id })
            },
    {
        if !floor.entities.contains_id(subject_id) {
            return Err(ActionError::DataMismatch);
        }
        if dir.length() > 1 {
            return Err(ActionError::TargetOutOfRange);
        }
        Ok(DoubleHitCommand { dir, subject_id })
    }
}

impl DoubleHitCommand {
    /// The commitment to the second hit, announced on the aimed tile.
    pub open spec fn delay(&self, floor: Floor) -> DelayCommand {
        DelayCommand {
            subject_id: self.subject_id,
            queued_command: KnownInfallibleAction::DoubleHitFollowupAction(DoubleHitFollowupAction { dir: self.dir }),
            turns: 1,
            event: Some(
                FloorEvent::PrepareAttack(
                    PrepareAttackEvent { subject: self.subject_id, tile: aimed_tile(floor, self.subject_id, self.dir) },
                ),
            ),
        }
    }

    pub open spec fn can_run(&self, floor: Floor) -> bool {
        let tile = aimed_tile(floor, self.subject_id, self.dir);
        let after = after_strike(floor, tile);
        &&& floor.wf()
        &&& valid(floor, self.subject_id)
        &&& shifted(ent(floor, self.subject_id).pos, self.dir) is Some
        &&& can_strike(floor, tile)
        &&& committable(
            after,
            floor.map,
            floor.downing is Some,
            self.subject_id,
            self.delay(floor).queued_command,
            1,
        )
    }

    /// The attack starts and lands on the aimed tile; then the subject commits to the
    /// second hit.
    pub open spec fn result(&self, floor: Floor, next: Floor, log: Seq<FloorEvent>) -> bool {
        let tile = aimed_tile(floor, self.subject_id, self.dir);
        exists|mid: Floor, k: int|
            #[trigger] announced_strike(floor, self.subject_id, tile, mid, log, k) && self.delay(floor).result(
                mid,
                next,
                log.subrange(k, log.len() as int),
            )
    }

    pub fn do_action(&self, floor: &Floor) -> (r: FloorUpdate)
        requires
            self.can_run(*floor),
        ensures
            self.result(*floor, r.value(), r.entries()),
    {
        let pos = floor.entities.get(self.subject_id).pos;
        let tile = match shift(pos, self.dir) {
            Some(t) => t,
            None => pos,
        };
        let (mid, mut log) = announce_and_strike(floor, self.subject_id, tile);
        let k = log.len();
        let delay = DelayCommand {
            subject_id: self.subject_id,
            queued_command: KnownInfallibleAction::DoubleHitFollowupAction(DoubleHitFollowupAction { dir: self.dir }),
            turns: 1,
            event: Some(FloorEvent::PrepareAttack(PrepareAttackEvent { subject: self.subject_id, tile })),
        };
        proof {
            lemma_delay_can_run(delay, mid);
        }
        let done = delay.do_action(&mid);
        let (next, mut tail) = done.into_both();
        let ghost tl = tail@;
        let ghost head = log@;
        log.append(&mut tail);
        proof {
            assert(log@.subrange(0, k as int) =~= head);
            assert(log@.subrange(1, k as int) =~= head.subrange(1, k as int));
            assert(log@.subrange(k as int, log@.len() as int) =~= tl);
            assert(announced_strike(*floor, self.subject_id, tile, mid, log@, k as int));
        }
        Writer::new_with_log(next, log)
    }
}

/// The second hit of a double hit, then the subject is ready next round.
#[derive(Debug, Clone, Copy)]
pub struct DoubleHitFollowup {
    pub dir: RelativePosition,
    pub subject_id: EntityId,
}

impl DoubleHitFollowupAction {
    pub fn verify_action(&self, floor: &Floor, subject_id: EntityId) -> (r: DoubleHitFollowup)
        ensures
            r == (DoubleHitFollowup { dir: self.dir, subject_id }),
    {
        DoubleHitFollowup { dir: self.dir, subject_id }
    }
}

impl DoubleHitFollowup {
    pub open spec fn can_run(&self, floor: Floor) -> bool {
        can_hit_then_ready(floor, self.subject_id, self.dir, 1)
    }

    /// The attack starts and lands on the aimed tile; then the subject is ready next round.
    pub open spec fn result(&self, floor: Floor, next: Floor, log: Seq<FloorEvent>) -> bool {
        let tile = aimed_tile(floor, self.subject_id, self.dir);
        exists|mid: Floor, k: int|
            #[trigger] announced_strike(floor, self.subject_id, tile, mid, log, k) && updated(
                mid,
                seq![(self.subject_id, readied_entity(mid.entities@, self.subject_id, 1))],
                next,
                log.subrange(k, log.len() as int),
            )
    }

    pub fn do_action(&self, floor: &Floor) -> (r: FloorUpdate)
        requires
            self.can_run(*floor),
        ensures
            self.result(*floor, r.value(), r.entries()),
    {
        let pos = floor.entities.get(self.subject_id).pos;
        let tile = match shift(pos, self.dir) {
            Some(t) => t,
            None => pos,
        };
        let (mid, mut log) = announce_and_strike(floor, self.subject_id, tile);
        let k = log.len();
        let done = ready_again(&mid, self.subject_id, 1);
        let (next, mut tail) = done.into_both();
        let ghost tl = tail@;
        let ghost head = log@;
        log.append(&mut tail);
        proof {
            assert(log@.subrange(0, k as int) =~= head);
            assert(log@.subrange(1, k as int) =~= head.subrange(1, k as int));
            assert(log@.subrange(k as int, log@.len() as int) =~= tl);
            assert(announced_strike(*floor, self.subject_id, tile, mid, log@, k as int));
        }
        Writer::new_with_log(next, log)
    }
}

/// The subject, ready again `delay` rounds from the current one.
fn ready_again(floor: &Floor, subject_id: EntityId, delay: u32) -> (r: FloorUpdate)
    requires
        floor.wf(),
        valid(*floor, subject_id),
        current_round(floor.entities@) + delay <= u32::MAX,
        allowed_entities(
            floor.entities@,
            floor.map,
            floor.downing is Some,
            seq![(subject_id, readied_entity(floor.entities@, subject_id, delay as int))],
        ),
    ensures
        updated(*floor, seq![(subject_id, readied_entity(floor.entities@, subject_id, delay as int))], r.value(), r.entries()),
{
    let mut subject_clone: Entity = floor.entities.get(subject_id).clone();
    subject_clone.state = EntityState::Ready { next_round: floor.get_current_round() + delay };
    proof {
        lemma_allowed_entities(*floor, seq![(subject_id, subject_clone@)]);
        assert(subject_clone@ == readied_entity(floor.entities@, subject_id, delay as int));
    }
    floor.update_entity((subject_id, subject_clone))
}

// ---------------------------------------------------------------- stance

/// Puts the subject in a stance, where its one action is to exit it.
#[derive(Debug, Clone, Copy)]
pub struct EnterStanceCommand {
    pub subject_id: EntityId,
}

impl EnterStanceAction {
    pub fn verify_action(&self, floor: &Floor, subject_id: EntityId) -> (r: EnterStanceCommand)
        ensures
            r == (EnterStanceCommand { subject_id }),
    {
        EnterStanceCommand { subject_id }
    }
}

/// The subject, restricted to `actions` from next round on.
pub open spec fn restricted(floor: Floor, subject_id: EntityId, actions: Seq<KnownUnaimedAction>) -> EntityModel {
    ent(floor, subject_id).with_state(
        StateModel::RestrictedActions {
            next_round: (current_round(floor.entities@) + 1) as u32,
            restricted_actions: actions,
        },
    )
}

impl EnterStanceCommand {
    pub open spec fn stanced(&self, floor: Floor) -> EntityModel {
        restricted(
            floor,
            self.subject_id,
            seq![KnownUnaimedAction::Infallible(KnownInfallibleAction::ExitStance(ExitStanceAction))],
        )
    }

    pub open spec fn can_run(&self, floor: Floor) -> bool {
        &&& floor.wf()
        &&& valid(floor, self.subject_id)
        &&& current_round(floor.entities@) < u32::MAX
        &&& update_allowed(floor, seq![(self.subject_id, self.stanced(floor))])
    }

    pub open spec fn result(&self, floor: Floor, next: Floor, log: Seq<FloorEvent>) -> bool {
        updated(floor, seq![(self.subject_id, self.stanced(floor))], next, log)
    }

    pub fn do_action(&self, floor: &Floor) -> (r: FloorUpdate)
        requires
            self.can_run(*floor),
        ensures
            self.result(*floor, r.value(), r.entries()),
    {
        let mut subject_clone: Entity = floor.entities.get(self.subject_id).clone();
        let mut restricted_actions: Vec<KnownUnaimedAction> = Vec::new();
        restricted_actions.push(KnownUnaimedAction::Infallible(KnownInfallibleAction::ExitStance(ExitStanceAction)));
        let ghost acts = restricted_actions@;
        subject_clone.state = EntityState::RestrictedActions { next_round: floor.get_current_round() + 1, restricted_actions };
        proof {
            assert(acts =~= seq![KnownUnaimedAction::Infallible(KnownInfallibleAction::ExitStance(ExitStanceAction))]);
            assert(subject_clone@ == self.stanced(*floor));
        }
        floor.update_entity((self.subject_id, subject_clone))
    }
}

/// Takes the subject out of its stance; it acts again this round.
#[derive(Debug, Clone, Copy)]
pub struct ExitStanceCommand {
    pub subject_id: EntityId,
}

impl ExitStanceAction {
    pub fn verify_action(&self, floor: &Floor, subject_id: EntityId) -> (r: ExitStanceCommand)
        ensures
            r == (ExitStanceCommand { subject_id }),
    {
        ExitStanceCommand { subject_id }
    }
}

impl ExitStanceCommand {
    pub open spec fn exited(&self, floor: Floor) -> EntityModel {
        readied_entity(floor.entities@, self.subject_id, 0)
    }

    pub open spec fn can_run(&self, floor: Floor) -> bool {
        &&& floor.wf()
        &&& valid(floor, self.subject_id)
        &&& update_allowed(floor, seq![(self.subject_id, self.exited(floor))])
    }

    pub open spec fn result(&self, floor: Floor, next: Floor, log: Seq<FloorEvent>) -> bool {
        updated(floor, seq![(self.subject_id, self.exited(floor))], next, log)
    }

    pub fn do_action(&self, floor: &Floor) -> (r: FloorUpdate)
        requires
            self.can_run(*floor),
        ensures
            self.result(*floor, r.value(), r.entries()),
    {
        proof {
            lemma_allowed_entities(*floor, seq![(self.subject_id, self.exited(*floor))]);
        }
        ready_again(floor, self.subject_id, 0)
    }
}

} // verus!
