//! A character with a heavy forward attack and a tracking attack.
use vstd::prelude::*;

use crate::actions::ActionError;
use crate::actions::events::FloorEvent;
use crate::actions::events::StartAttackEvent;
use crate::actions::example::aimed_tile;
use crate::actions::known::KnownInfallibleAction;
use crate::actions::public::StepAction;
use crate::actions::public::StepCommand;
use crate::actions::public::ent;
use crate::actions::public::lemma_settled_keeps_pos;
use crate::actions::public::shift;
use crate::actions::public::shifted;
use crate::actions::public::valid;
use crate::actions::utils::DelayCommand;
use crate::actions::utils::TakeKnockbackUtil;
use crate::actions::utils::committable;
use crate::actions::utils::hit_entity;
use crate::actions::utils::hit_logged;
use crate::actions::utils::lemma_delay_can_run;
use crate::actions::utils::lemma_occupant_valid;
use crate::actions::utils::occupant;
use crate::actions::utils::strike;
use crate::actions::utils::strike_updates;
use crate::actions::utils::struck;
use crate::actions::utils::wounded;
use crate::entity::Entity;
use crate::entity::EntityId;
use crate::entity::EntityModel;
use crate::entity::EntityState;
use crate::entity::StateModel;
use crate::floor::Floor;
use crate::floor::FloorUpdate;
use crate::floor::current_round;
use crate::floor::lemma_apply_single;
use crate::floor::map::FloorTile;
use crate::floor::occupiers::occupancy_map;
use crate::floor::settled_after;
use crate::floor::stands_on_floor;
use crate::floor::update_allowed;
use crate::floor::updated;
use crate::positional::algorithms::segment_computable;
use crate::positional::fits_i32;
use crate::positional::AbsolutePosition;
use crate::positional::RelativePosition;
use crate::writer::Writer;

verus! {

/// Steps forward and sweeps at the start of next turn.
#[derive(Debug, Clone, Copy, PartialEq, Eq, Structural)]
pub struct ForwardHeavyAction;

/// The sweep after a forward heavy step.
#[derive(Debug, Clone, Copy, PartialEq, Eq, Structural)]
pub struct ForwardHeavyFollowupAction {
    pub dir: RelativePosition,
}

/// Marks an entity, and hits it next turn if it is still close.
#[derive(Debug, Clone, Copy, PartialEq, Eq, Structural)]
pub struct TrackingAction;

/// The hit after a tracking mark.
#[derive(Debug, Clone, Copy, PartialEq, Eq, Structural)]
pub struct TrackingFollowupAction {
    pub tracking_id: EntityId,
}

// ---------------------------------------------------------------- forward heavy

/// A step, then a commitment to sweep as the next turn starts.
#[derive(Debug, Clone, Copy)]
pub struct ForwardHeavyCommand {
    pub step: StepCommand,
    pub dir: RelativePosition,
    pub subject_id: EntityId,
}

impl ForwardHeavyAction {
    /// The subject needs energy, and a step along `dir`.
    pub fn verify_action(&self, floor: &Floor, subject_id: EntityId, dir: RelativePosition) -> (r: Result<ForwardHeavyCommand, ActionError>)
        requires
            floor.wf(),
        ensures
            r == if !valid(*floor, subject_id) {
                Err::<ForwardHeavyCommand, ActionError>(ActionError::DataMismatch)
            } else if ent(*floor, subject_id).energy <= 0 {
                Err(ActionError::NotEnoughEnergy)
            } else {
                match StepAction.spec_verify(*floor, subject_id, dir) {
                    Ok(step) => Ok(ForwardHeavyCommand { step, dir, subject_id }),
                    Err(e) => Err(e),
                }
            },
    {
        if !floor.entities.contains_id(subject_id) {
            return Err(ActionError::DataMismatch);
        }
        if floor.entities.get(subject_id).energy <= 0 {
            return Err(ActionError::NotEnoughEnergy);
        }
        match StepAction.verify_action(floor, subject_id, dir) {
            Ok(step) => Ok(ForwardHeavyCommand { step, dir, subject_id }),
            Err(e) => Err(e),
        }
    }
}

impl ForwardHeavyCommand {
    /// The commitment to the sweep; the step already takes the turn.
    pub open spec fn delay(&self) -> DelayCommand {
        DelayCommand {
            subject_id: self.subject_id,
            queued_command: KnownInfallibleAction::ForwardHeavyFollowupAction(ForwardHeavyFollowupAction { dir: self.dir }),
            turns: 0,
            event: None,
        }
    }

    pub open spec fn can_run(&self, floor: Floor) -> bool {
        &&& self.step.can_run(floor)
        &&& committable(
            settled_after(floor, seq![(self.step.subject_id, self.step.stepped(floor))]),
            floor.map,
            floor.downing is Some,
            self.subject_id,
            self.delay().queued_command,
            0,
        )
    }

    /// The step, then the commitment.
    pub open spec fn result(&self, floor: Floor, next: Floor, log: Seq<FloorEvent>) -> bool {
        exists|mid: Floor, k: int|
            0 <= k <= log.len() && #[trigger] self.step.result(floor, mid, log.subrange(0, k)) && self.delay().result(
                mid,
                next,
                log.subrange(k, log.len() as int),
            )
    }

    pub fn do_action(&self, floor: &Floor) -> (r: FloorUpdate)
        requires
            self.can_run(*floor),
        ensures
            self.result(*floor, r.value(), r.entries()),
    {
        let stepped = self.step.do_action(floor);
        let (mid, mut log) = stepped.into_both();
        let k = log.len();
        let ghost head = log@;
        let delay = DelayCommand {
            subject_id: self.subject_id,
            queued_command: KnownInfallibleAction::ForwardHeavyFollowupAction(ForwardHeavyFollowupAction { dir: self.dir }),
            turns: 0,
            event: None,
        };
        proof {
            lemma_delay_can_run(delay, mid);
        }
        let done = delay.do_action(&mid);
        let (next, mut tail) = done.into_both();
        let ghost tl = tail@;
        log.append(&mut tail);
        proof {
            assert(log@.subrange(0, k as int) =~= head);
            assert(log@.subrange(k as int, log@.len() as int) =~= tl);
        }
        Writer::new_with_log(next, log)
    }
}

/// The sweep: the subject spends one energy and acts again this round; whoever stands one
/// step along `dir` is hit and pushed three steps along it.
#[derive(Debug, Clone, Copy)]
pub struct ForwardHeavyFollowup {
    pub dir: RelativePosition,
    pub subject_id: EntityId,
}

impl ForwardHeavyFollowupAction {
    pub fn verify_action(&self, floor: &Floor, subject_id: EntityId) -> (r: ForwardHeavyFollowup)
        ensures
            r == (ForwardHeavyFollowup { dir: self.dir, subject_id }),
    {
        ForwardHeavyFollowup { dir: self.dir, subject_id }
    }
}

impl ForwardHeavyFollowup {
    /// The subject after the sweep.
    pub open spec fn swung(&self, floor: Floor) -> EntityModel {
        let e = ent(floor, self.subject_id);
        EntityModel {
            state: StateModel::Ready { next_round: current_round(floor.entities@) },
            energy: (e.energy - 1) as i8,
            ..e
        }
    }

    /// The push given to whoever is hit.
    pub open spec fn knockback(&self, target: EntityId) -> TakeKnockbackUtil {
        TakeKnockbackUtil {
            entity: target,
            vector: RelativePosition { dx: (self.dir.dx * 3) as i32, dy: (self.dir.dy * 3) as i32 },
        }
    }

    pub open spec fn can_run(&self, floor: Floor) -> bool {
        let after = settled_after(floor, seq![(self.subject_id, self.swung(floor))]);
        let tile = aimed_tile(floor, self.subject_id, self.dir);
        &&& floor.wf()
        &&& valid(floor, self.subject_id)
        &&& shifted(ent(floor, self.subject_id).pos, self.dir) is Some
        &&& ent(floor, self.subject_id).energy > i8::MIN
        &&& update_allowed(floor, seq![(self.subject_id, self.swung(floor))])
        &&& (occupancy_map(after).contains_key(tile) ==> {
            &&& after[occupancy_map(after)[tile].index()].health > i8::MIN
            &&& fits_i32(self.dir.dx * 3)
            &&& fits_i32(self.dir.dy * 3)
            &&& segment_computable(self.knockback(occupancy_map(after)[tile]).vector)
        })
    }

    /// The subject's update, the start of the attack, then, where someone stands on the aimed
    /// tile, the hit and the push.
    pub open spec fn result(&self, floor: Floor, next: Floor, log: Seq<FloorEvent>) -> bool {
        let tile = aimed_tile(floor, self.subject_id, self.dir);
        exists|mid: Floor, k: int|
            0 <= k < log.len() && #[trigger] updated(
                floor,
                seq![(self.subject_id, self.swung(floor))],
                mid,
                log.subrange(0, k),
            ) && log[k] == FloorEvent::StartAttack(StartAttackEvent { subject: self.subject_id, tile })
                && match occupant(mid, tile) {
                None => next == mid && log.len() == k + 1,
                Some(o) => exists|mid2: Floor, k2: int|
                    k + 1 <= k2 <= log.len() && #[trigger] struck(
                        mid,
                        self.subject_id,
                        tile,
                        mid2,
                        log.subrange(k + 1, k2),
                    ) && self.knockback(o).result(mid2, next, log.subrange(k2, log.len() as int)),
            }
    }

    pub fn do_action(&self, floor: &Floor) -> (r: FloorUpdate)
        requires
            self.can_run(*floor),
        ensures
            self.result(*floor, r.value(), r.entries()),
    {
        let pos = floor.entities.get(self.subject_id).pos;
        let tile = match shift(pos, self.dir) {
            Some(t) => t,
            None => pos,
        };
        let mut subject_update: Entity = floor.entities.get(self.subject_id).clone();
        subject_update.state = EntityState::Ready { next_round: floor.get_current_round() };
        subject_update.energy = subject_update.energy - 1;
        proof {
            assert(subject_update@ == self.swung(*floor));
        }
        let update = floor.update_entity((self.subject_id, subject_update));
        let (mid, mut log) = update.into_both();
        let k = log.len();
        let ghost head = log@;
        log.push(FloorEvent::StartAttack(StartAttackEvent { subject: self.subject_id, tile }));
        proof {
            assert(log@.subrange(0, k as int) =~= head);
        }
        match mid.occupiers.get(tile) {
            None => Writer::new_with_log(mid, log),
            Some(object_index) => {
                proof {
                    lemma_occupant_valid(mid, tile);
                }
                let hit = strike(&mid, self.subject_id, tile);
                let (mid2, mut hit_log) = hit.into_both();
                let ghost hl = hit_log@;
                log.append(&mut hit_log);
                let k2 = log.len();
                let knock = TakeKnockbackUtil { entity: object_index, vector: 3 * self.dir };
                proof {
                    let s = mid.entities@;
                    let o = object_index.index();
                    assert(stands_on_floor(s, mid.map));
                    assert(s[o].occupied_position() matches Some(p) ==> mid.map.tile(p) == FloorTile::Floor);
                    lemma_settled_keeps_pos(mid, strike_updates(mid, tile), object_index);
                    lemma_apply_single(s, object_index, wounded(s[o]));
                    assert(knock == self.knockback(object_index));
                }
                let knocked = knock.do_action(&mid2);
                let (next, mut tail) = knocked.into_both();
                let ghost tl = tail@;
                log.append(&mut tail);
                proof {
                    assert(log@.subrange(0, k as int) =~= head);
                    assert(log@.subrange(k as int + 1, k2 as int) =~= hl);
                    assert(log@.subrange(k2 as int, log@.len() as int) =~= tl);
                    assert(struck(mid, self.subject_id, tile, mid2, log@.subrange(k as int + 1, k2 as int)));
                }
                Writer::new_with_log(next, log)
            },
        }
    }
}

// ---------------------------------------------------------------- tracking

impl TrackingAction {
    /// The subject needs energy, and someone else standing on `tile` to mark; the mark is a
    /// commitment to the hit next round.
    pub fn verify_action(&self, floor: &Floor, subject_id: EntityId, tile: AbsolutePosition) -> (r: Result<DelayCommand, ActionError>)
        requires
            floor.wf(),
        ensures
            r == if !valid(*floor, subject_id) {
                Err::<DelayCommand, ActionError>(ActionError::DataMismatch)
            } else if ent(*floor, subject_id).energy <= 0 {
                Err(ActionError::NotEnoughEnergy)
            } else if !floor.occupiers@.contains_key(tile) || floor.occupiers@[tile] == subject_id {
                Err(ActionError::InvalidTarget)
            } else {
                Ok(
                    DelayCommand {
                        subject_id,
                        queued_command: KnownInfallibleAction::TrackingFollowupAction(
                            TrackingFollowupAction { tracking_id: floor.occupiers@[tile] },
                        ),
                        turns: 1,
                        event: Some(
                            FloorEvent::StartAttack(
                                StartAttackEvent { subject: subject_id, tile: ent(*floor, floor.occupiers@[tile]).pos },
                            ),
                        ),
                    },
                )
            },
    {
        if !floor.entities.contains_id(subject_id) {
            return Err(ActionError::DataMismatch);
        }
        if floor.entities.get(subject_id).energy <= 0 {
            return Err(ActionError::NotEnoughEnergy);
        }
        let tracking_id = match floor.occupiers.get(tile) {
            Some(t) => t,
            None => return Err(ActionError::InvalidTarget),
        };
        if tracking_id == subject_id {
            return Err(ActionError::InvalidTarget);
        }
        proof {
            lemma_occupant_valid(*floor, tile);
        }
        Ok(
            DelayCommand {
                subject_id,
                queued_command: KnownInfallibleAction::TrackingFollowupAction(TrackingFollowupAction { tracking_id }),
                turns: 1,
                event: Some(
                    FloorEvent::StartAttack(StartAttackEvent { subject: subject_id, tile: floor.entities.get(tracking_id).pos }),
                ),
            },
        )
    }
}

/// The tracking hit: the subject spends one energy and waits two rounds; the marked entity
/// is hit if it is still within two tiles.
#[derive(Debug, Clone, Copy)]
pub struct TrackingFollowup {
    pub tracking_id: EntityId,
    pub subject_id: EntityId,
}

impl TrackingFollowupAction {
    pub fn verify_action(&self, floor: &Floor, subject_id: EntityId) -> (r: TrackingFollowup)
        ensures
            r == (TrackingFollowup { tracking_id: self.tracking_id, subject_id }),
    {
        TrackingFollowup { tracking_id: self.tracking_id, subject_id }
    }
}

impl TrackingFollowup {
    /// The subject after the hit.
    pub open spec fn spent(&self, floor: Floor) -> EntityModel {
        let e = ent(floor, self.subject_id);
        EntityModel {
            state: StateModel::Ready { next_round: (current_round(floor.entities@) + 2) as u32 },
            energy: (e.energy - 1) as i8,
            ..e
        }
    }

    /// Whether the marked entity is within two tiles of the subject.
    pub open spec fn close(&self, ents: Seq<EntityModel>) -> bool {
        ents[self.tracking_id.index()].pos.spec_distance(ents[self.subject_id.index()].pos) <= 2
    }

    pub open spec fn can_run(&self, floor: Floor) -> bool {
        let after = settled_after(floor, seq![(self.subject_id, self.spent(floor))]);
        &&& floor.wf()
        &&& valid(floor, self.subject_id)
        &&& valid(floor, self.tracking_id)
        &&& current_round(floor.entities@) + 2 <= u32::MAX
        &&& ent(floor, self.subject_id).energy > i8::MIN
        &&& update_allowed(floor, seq![(self.subject_id, self.spent(floor))])
        &&& (self.close(after) ==> after[self.tracking_id.index()].health > i8::MIN)
    }

    /// The subject's update, then the hit if the mark is close.
    pub open spec fn result(&self, floor: Floor, next: Floor, log: Seq<FloorEvent>) -> bool {
        exists|mid: Floor, k: int|
            0 <= k <= log.len() && #[trigger] updated(
                floor,
                seq![(self.subject_id, self.spent(floor))],
                mid,
                log.subrange(0, k),
            ) && if self.close(mid.entities@) {
                hit_logged(mid, self.subject_id, self.tracking_id, next, log.subrange(k, log.len() as int))
            } else {
                next == mid && k == log.len()
            }
    }

    pub fn do_action(&self, floor: &Floor) -> (r: FloorUpdate)
        requires
            self.can_run(*floor),
        ensures
            self.result(*floor, r.value(), r.entries()),
    {
        let mut subject_update: Entity = floor.entities.get(self.subject_id).clone();
        subject_update.state = EntityState::Ready { next_round: floor.get_current_round() + 2 };
        subject_update.energy = subject_update.energy - 1;
        proof {
            assert(subject_update@ == self.spent(*floor));
        }
        let update = floor.update_entity((self.subject_id, subject_update));
        let (mid, mut log) = update.into_both();
        let k = log.len();
        let ghost head = log@;
        proof {
            lemma_settled_keeps_pos(*floor, seq![(self.subject_id, self.spent(*floor))], self.tracking_id);
        }
        let target = mid.entities.get(self.tracking_id).pos;
        let subject_pos = mid.entities.get(self.subject_id).pos;
        if target.distance(subject_pos) <= 2 {
            let hit = hit_entity(&mid, self.subject_id, self.tracking_id);
            let (next, mut tail) = hit.into_both();
            let ghost tl = tail@;
            log.append(&mut tail);
            proof {
                assert(log@.subrange(0, k as int) =~= head);
                assert(log@.subrange(k as int, log@.len() as int) =~= tl);
            }
            Writer::new_with_log(next, log)
        } else {
            proof {
                assert(log@.subrange(0, k as int) =~= head);
            }
            Writer::new_with_log(mid, log)
        }
    }
}

} // verus!
