//! Statements about what happened in the game.
use vstd::prelude::*;

use crate::entity::EntityId;
use crate::floor::map::FloorTile;
use crate::positional::AbsolutePosition;

verus! {

/// A statement about something that happened in the game.
///
/// Not necessary to understand the state of the game, but rather what happened between states.
#[derive(Debug, PartialEq, Eq)]
pub enum FloorEvent {
    Move(MoveEvent),
    PrepareAttack(PrepareAttackEvent),
    StartAttack(StartAttackEvent),
    AttackHit(AttackHitEvent),
    JuggleHit(JuggleHitEvent),
    JuggleLimit(JuggleLimitEvent),
    SeeMap(SeeMapEvent),
    KnockbackEvent(KnockbackEvent),
    KnockdownEvent(KnockdownEvent),
    Wakeup(WakeupEvent),
    GetDowned(GetDownedEvent),
    Exit(ExitEvent),
    MissionFailed(MissionFailedEvent),
}

#[derive(Debug, PartialEq, Eq, Clone, Copy)]
pub struct MoveEvent {
    pub subject: EntityId,
    pub tile: AbsolutePosition,
}

#[derive(Debug, PartialEq, Eq, Clone, Copy)]
pub struct PrepareAttackEvent {
    pub subject: EntityId,
    pub tile: AbsolutePosition,
}

#[derive(Debug, PartialEq, Eq, Clone, Copy)]
pub struct StartAttackEvent {
    pub subject: EntityId,
    pub tile: AbsolutePosition,
}

#[derive(Debug, PartialEq, Eq, Clone, Copy)]
pub struct AttackHitEvent {
    pub subject: EntityId,
    pub target: EntityId,
    pub damage: i32,
}

#[derive(Debug, PartialEq, Eq, Clone, Copy)]
pub struct JuggleHitEvent {
    pub target: EntityId,
}

#[derive(Debug, PartialEq, Eq, Clone, Copy)]
pub struct JuggleLimitEvent {
    pub target: EntityId,
}

/// What an entity sees, tile by tile, ordered by position.
#[derive(Debug, PartialEq, Eq, Clone)]
pub struct SeeMapEvent {
    pub subject: EntityId,
    pub vision: Vec<(AbsolutePosition, FloorTile)>,
    // Extra information, as a treat.
    // (helps marching squares look less surprising.)
    pub implied_tiles: Vec<(AbsolutePosition, FloorTile)>,
}

#[derive(Debug, PartialEq, Eq, Clone, Copy)]
pub struct KnockbackEvent {
    pub subject: EntityId,
    pub tile: AbsolutePosition,
}

#[derive(Debug, PartialEq, Eq, Clone, Copy)]
pub struct KnockdownEvent {
    pub subject: EntityId,
}

#[derive(Debug, PartialEq, Eq, Clone, Copy)]
pub struct WakeupEvent {
    pub subject: EntityId,
}

#[derive(Debug, PartialEq, Eq, Clone, Copy)]
pub struct GetDownedEvent {
    pub subject: EntityId,
}

#[derive(Debug, PartialEq, Eq, Clone, Copy)]
pub struct ExitEvent {
    pub subject: EntityId,
}

#[derive(Debug, PartialEq, Eq, Clone)]
pub struct MissionFailedEvent {
    pub subject: EntityId,
    pub downed_party: Vec<EntityId>,
}

/// A `FloorEvent` as a value, with its lists as sequences.
pub enum EventModel {
    Move(MoveEvent),
    PrepareAttack(PrepareAttackEvent),
    StartAttack(StartAttackEvent),
    AttackHit(AttackHitEvent),
    JuggleHit(JuggleHitEvent),
    JuggleLimit(JuggleLimitEvent),
    SeeMap { subject: EntityId, vision: Seq<(AbsolutePosition, FloorTile)>, implied_tiles: Seq<(AbsolutePosition, FloorTile)> },
    KnockbackEvent(KnockbackEvent),
    KnockdownEvent(KnockdownEvent),
    Wakeup(WakeupEvent),
    GetDowned(GetDownedEvent),
    Exit(ExitEvent),
    MissionFailed { subject: EntityId, downed_party: Seq<EntityId> },
}

impl View for FloorEvent {
    type V = EventModel;

    open spec fn view(&self) -> EventModel {
        match self {
            FloorEvent::Move(e) => EventModel::Move(*e),
            FloorEvent::PrepareAttack(e) => EventModel::PrepareAttack(*e),
            FloorEvent::StartAttack(e) => EventModel::StartAttack(*e),
            FloorEvent::AttackHit(e) => EventModel::AttackHit(*e),
            FloorEvent::JuggleHit(e) => EventModel::JuggleHit(*e),
            FloorEvent::JuggleLimit(e) => EventModel::JuggleLimit(*e),
            FloorEvent::SeeMap(e) => EventModel::SeeMap {
                subject: e.subject,
                vision: e.vision@,
                implied_tiles: e.implied_tiles@,
            },
            FloorEvent::KnockbackEvent(e) => EventModel::KnockbackEvent(*e),
            FloorEvent::KnockdownEvent(e) => EventModel::KnockdownEvent(*e),
            FloorEvent::Wakeup(e) => EventModel::Wakeup(*e),
            FloorEvent::GetDowned(e) => EventModel::GetDowned(*e),
            FloorEvent::Exit(e) => EventModel::Exit(*e),
            FloorEvent::MissionFailed(e) => EventModel::MissionFailed {
                subject: e.subject,
                downed_party: e.downed_party@,
            },
        }
    }
}

impl Clone for FloorEvent {
    fn clone(&self) -> (r: Self)
        ensures
            r@ == self@,
            !(self is SeeMap) && !(self is MissionFailed) ==> r == *self,
    {
        match self {
            FloorEvent::Move(e) => FloorEvent::Move(*e),
            FloorEvent::PrepareAttack(e) => FloorEvent::PrepareAttack(*e),
            FloorEvent::StartAttack(e) => FloorEvent::StartAttack(*e),
            FloorEvent::AttackHit(e) => FloorEvent::AttackHit(*e),
            FloorEvent::JuggleHit(e) => FloorEvent::JuggleHit(*e),
            FloorEvent::JuggleLimit(e) => FloorEvent::JuggleLimit(*e),
            FloorEvent::SeeMap(e) => {
                let mut vision: Vec<(AbsolutePosition, FloorTile)> = Vec::new();
                let mut i: usize = 0;
                while i < e.vision.len()
                    invariant
                        i <= e.vision.len(),
                        vision@ == e.vision@.subrange(0, i as int),
                    decreases e.vision.len() - i,
                {
                    vision.push(e.vision[i]);
                    i += 1;
                    proof {
                        assert(vision@ =~= e.vision@.subrange(0, i as int));
                    }
                }
                let mut implied_tiles: Vec<(AbsolutePosition, FloorTile)> = Vec::new();
                let mut j: usize = 0;
                while j < e.implied_tiles.len()
                    invariant
                        j <= e.implied_tiles.len(),
                        implied_tiles@ == e.implied_tiles@.subrange(0, j as int),
                    decreases e.implied_tiles.len() - j,
                {
                    implied_tiles.push(e.implied_tiles[j]);
                    j += 1;
                    proof {
                        assert(implied_tiles@ =~= e.implied_tiles@.subrange(0, j as int));
                    }
                }
                proof {
                    assert(vision@ =~= e.vision@);
                    assert(implied_tiles@ =~= e.implied_tiles@);
                }
                FloorEvent::SeeMap(SeeMapEvent { subject: e.subject, vision, implied_tiles })
            },
            FloorEvent::KnockbackEvent(e) => FloorEvent::KnockbackEvent(*e),
            FloorEvent::KnockdownEvent(e) => FloorEvent::KnockdownEvent(*e),
            FloorEvent::Wakeup(e) => FloorEvent::Wakeup(*e),
            FloorEvent::GetDowned(e) => FloorEvent::GetDowned(*e),
            FloorEvent::Exit(e) => FloorEvent::Exit(*e),
            FloorEvent::MissionFailed(e) => {
                let party = e.downed_party.clone();
                proof {
                    assert(party@ =~= e.downed_party@);
                }
                FloorEvent::MissionFailed(MissionFailedEvent { subject: e.subject, downed_party: party })
            },
        }
    }
}

/// A log of events, as values.
pub open spec fn log_models(s: Seq<FloorEvent>) -> Seq<EventModel> {
    s.map_values(|e: FloorEvent| e@)
}

} // verus!
