//! A character that smites from a stance.
use vstd::prelude::*;

use crate::actions::ActionError;
use crate::actions::events::FloorEvent;
use crate::actions::example::restricted;
use crate::actions::known::KnownInfallibleAction;
use crate::actions::known::KnownUnaimedAction;
use crate::actions::public::ent;
use crate::actions::public::valid;
use crate::actions::utils::coming_turn;
use crate::actions::utils::juggled;
use crate::actions::utils::lemma_occupant_valid;
use crate::actions::utils::occupant;
use crate::actions::utils::readied_entity;
use crate::actions::utils::start_juggle;
use crate::entity::Entity;
use crate::entity::EntityId;
use crate::entity::EntityModel;
use crate::entity::EntityState;
use crate::floor::Floor;
use crate::floor::FloorUpdate;
use crate::floor::current_round;
use crate::floor::current_turn;
use crate::floor::lemma_single_allowed;
use crate::floor::map::FloorTile;
use crate::floor::stands_on_floor;
use crate::floor::update_allowed;
use crate::floor::updated;
use crate::positional::AbsolutePosition;
use crate::writer::Writer;

verus! {

/// Enters a stance, aiming a smite at a tile.
#[derive(Debug, Clone, Copy, PartialEq, Eq, Structural)]
pub struct EnterSmiteStanceAction;

/// Smites the tile chosen when entering the stance.
#[derive(Debug, Clone, Copy, PartialEq, Eq, Structural)]
pub struct StanceSmiteAction {
    pub tile: AbsolutePosition,
}

/// Puts the subject in a stance whose one action is the smite at `tile`.
#[derive(Debug, Clone, Copy)]
pub struct EnterSmiteStanceCommand {
    pub subject_id: EntityId,
    pub tile: AbsolutePosition,
}

impl EnterSmiteStanceAction {
    /// Any tile may be aimed at.
    pub fn verify_action(&self, floor: &Floor, subject_id: EntityId, tile: AbsolutePosition) -> (r: Result<EnterSmiteStanceCommand, ActionError>)
        ensures
            r == Ok::<EnterSmiteStanceCommand, ActionError>(EnterSmiteStanceCommand { subject_id, tile }),
    {
        Ok(EnterSmiteStanceCommand { subject_id, tile })
    }
}

impl EnterSmiteStanceCommand {
    pub open spec fn stanced(&self, floor: Floor) -> EntityModel {
        restricted(
            floor,
            self.subject_id,
            seq![KnownUnaimedAction::Infallible(KnownInfallibleAction::StanceSmite(StanceSmiteAction { tile: self.tile }))],
        )
    }

    pub open spec fn can_run(&self, floor: Floor) -> bool {
        &&& floor.wf()
        &&& valid(floor, self.subject_id)
        &&& current_round(floor.entities@) < u32::MAX
        &&& update_allowed(floor, seq![(self.subject_id, self.stanced(floor))])
    }

    pub open spec fn result(&self, floor: Floor, next: Floor, log: Seq<FloorEvent>) -> bool {
        updated(floor, seq![(self.subject_id, self.stanced(floor))], next, log)
    }

    pub fn do_action(&self, floor: &Floor) -> (r: FloorUpdate)
        requires
            self.can_run(*floor),
        ensures
            self.result(*floor, r.value(), r.entries()),
    {
        let mut subject_clone: Entity = floor.entities.get(self.subject_id).clone();
        let mut restricted_actions: Vec<KnownUnaimedAction> = Vec::new();
        restricted_actions.push(
            KnownUnaimedAction::Infallible(KnownInfallibleAction::StanceSmite(StanceSmiteAction { tile: self.tile })),
        );
        let ghost acts = restricted_actions@;
        subject_clone.state = EntityState::RestrictedActions { next_round: floor.get_current_round() + 1, restricted_actions };
        proof {
            assert(acts =~= seq![
                KnownUnaimedAction::Infallible(KnownInfallibleAction::StanceSmite(StanceSmiteAction { tile: self.tile })),
            ]);
            assert(subject_clone@ == self.stanced(*floor));
        }
        floor.update_entity((self.subject_id, subject_clone))
    }
}

/// Ends the stance with a smite on the chosen tile: whoever stands there is juggled.
#[derive(Debug, Clone, Copy)]
pub struct StanceSmiteCommand {
    pub subject_id: EntityId,
    pub tile: AbsolutePosition,
}

impl StanceSmiteAction {
    pub fn verify_action(&self, floor: &Floor, subject_id: EntityId) -> (r: StanceSmiteCommand)
        ensures
            r == (StanceSmiteCommand { subject_id, tile: self.tile }),
    {
        StanceSmiteCommand { subject_id, tile: self.tile }
    }
}

impl StanceSmiteCommand {
    /// The turn being taken.
    pub open spec fn now(&self, floor: Floor) -> (u32, EntityId) {
        current_turn(floor.entities@)->0
    }

    pub open spec fn recovered(&self, floor: Floor) -> EntityModel {
        readied_entity(floor.entities@, self.subject_id, 1)
    }

    pub open spec fn can_run(&self, floor: Floor) -> bool {
        &&& floor.wf()
        &&& valid(floor, self.subject_id)
        &&& current_turn(floor.entities@) is Some
        &&& self.now(floor).0 + 3 <= u32::MAX
        &&& update_allowed(floor, seq![(self.subject_id, self.recovered(floor))])
    }

    /// The subject is ready next round; then whoever stands on the tile is juggled, as hit
    /// at the turn that was taken.
    pub open spec fn result(&self, floor: Floor, next: Floor, log: Seq<FloorEvent>) -> bool {
        exists|mid: Floor, k: int|
            0 <= k <= log.len() && #[trigger] updated(
                floor,
                seq![(self.subject_id, self.recovered(floor))],
                mid,
                log.subrange(0, k),
            ) && match occupant(mid, self.tile) {
                None => next == mid && k == log.len(),
                Some(h) => {
                    let j = juggled(mid.entities@[h.index()].state, coming_turn(self.now(floor), h), 1, h);
                    &&& k + j.1.len() <= log.len()
                    &&& log.subrange(k, k + j.1.len()) == j.1
                    &&& updated(
                        mid,
                        seq![(h, mid.entities@[h.index()].with_state(j.0))],
                        next,
                        log.subrange(k + j.1.len(), log.len() as int),
                    )
                },
            }
    }

    pub fn do_action(&self, floor: &Floor) -> (r: FloorUpdate)
        requires
            self.can_run(*floor),
        ensures
            self.result(*floor, r.value(), r.entries()),
    {
        let now = match floor.get_current_turn() {
            Some(now) => now,
            None => (0, self.subject_id),
        };
        let mut subject_clone: Entity = floor.entities.get(self.subject_id).clone();
        subject_clone.state = EntityState::Ready { next_round: now.0 + 1 };
        proof {
            assert(subject_clone@ == self.recovered(*floor));
        }
        let update = floor.update_entity((self.subject_id, subject_clone));
        let (mid, mut log) = update.into_both();
        let k = log.len();
        let ghost head = log@;
        match mid.occupiers.get(self.tile) {
            None => {
                proof {
                    assert(log@.subrange(0, k as int) =~= head);
                }
                Writer::new_with_log(mid, log)
            },
            Some(hit_id) => {
                proof {
                    lemma_occupant_valid(mid, self.tile);
                }
                let juggle = start_juggle(&mid, hit_id, now, 1);
                let (hit_clone, mut juggle_log) = juggle.into_both();
                let ghost jl = juggle_log@;
                log.append(&mut juggle_log);
                let k2 = log.len();
                proof {
                    let s = mid.entities@;
                    let h = hit_id.index();
                    assert(stands_on_floor(s, mid.map));
                    assert(s[h].occupied_position() matches Some(p) ==> mid.map.tile(p) == FloorTile::Floor);
                    lemma_single_allowed(mid, hit_id, hit_clone@);
                }
                let ghost hm = hit_clone@;
                let last = mid.update_entity((hit_id, hit_clone));
                let (next, mut tail) = last.into_both();
                let ghost tl = tail@;
                log.append(&mut tail);
                proof {
                    assert(log@.subrange(0, k as int) =~= head);
                    assert(log@.subrange(k as int, k2 as int) =~= jl);
                    assert(log@.subrange(k2 as int, log@.len() as int) =~= tl);
                    assert(updated(
                        *floor,
                        seq![(self.subject_id, self.recovered(*floor))],
                        mid,
                        log@.subrange(0, k as int),
                    ));
                }
                Writer::new_with_log(next, log)
            },
        }
    }
}

} // verus!
