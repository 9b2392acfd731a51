//! The actions known to the crate, as enums.
use vstd::prelude::*;

use crate::actions::characters::axolotl_nano::EnterSmiteStanceAction;
use crate::actions::characters::axolotl_nano::StanceSmiteAction;
use crate::actions::characters::max_tegu::ForwardHeavyAction;
use crate::actions::characters::max_tegu::ForwardHeavyFollowupAction;
use crate::actions::characters::max_tegu::TrackingAction;
use crate::actions::characters::max_tegu::TrackingFollowupAction;
use crate::actions::example::DoubleHitAction;
use crate::actions::example::DoubleHitFollowupAction;
use crate::actions::example::EnterStanceAction;
use crate::actions::example::ExitStanceAction;
use crate::actions::ActionError;
use crate::actions::characters::axolotl_nano::EnterSmiteStanceCommand;
use crate::actions::characters::axolotl_nano::StanceSmiteCommand;
use crate::actions::characters::max_tegu::ForwardHeavyCommand;
use crate::actions::characters::max_tegu::ForwardHeavyFollowup;
use crate::actions::characters::max_tegu::TrackingFollowup;
use crate::actions::events::FloorEvent;
use crate::actions::events::StartAttackEvent;
use crate::actions::example::DoubleHitCommand;
use crate::actions::example::DoubleHitFollowup;
use crate::actions::example::EnterStanceCommand;
use crate::actions::example::ExitStanceCommand;
use crate::actions::public::GoingAction;
use crate::actions::public::GotoCommand;
use crate::actions::public::StepAction;
use crate::actions::public::ent;
use crate::actions::public::valid;
use crate::actions::utils::DelayCommand;
use crate::entity::EntityId;
use crate::floor::Floor;
use crate::floor::FloorUpdate;
use crate::positional::AbsolutePosition;
use crate::positional::RelativePosition;

verus! {

/// An action of any of the known kinds, not yet aimed.
#[derive(Debug, Clone, Copy, PartialEq, Eq, Structural)]
pub enum KnownUnaimedAction {
    NoTarget(KnownAction),
    Tile(KnownTileAction),
    Direction(KnownDirectionAction),
    Infallible(KnownInfallibleAction),
}

/// The known actions that take no target.
#[derive(Debug, Clone, Copy, PartialEq, Eq, Structural)]
pub enum KnownAction {
    Dingus(NoopAction),
}

/// This is temporary.
#[derive(Debug, Clone, Copy, PartialEq, Eq, Structural)]
pub struct NoopAction;

/// The known actions that target a tile.
#[derive(Debug, Clone, Copy, PartialEq, Eq, Structural)]
pub enum KnownTileAction {
    Tracking(TrackingAction),
    EnterSmiteStance(EnterSmiteStanceAction),
}

/// The known actions that target a direction.
#[derive(Debug, Clone, Copy, PartialEq, Eq, Structural)]
pub enum KnownDirectionAction {
    DoubleHit(DoubleHitAction),
    ForwardHeavy(ForwardHeavyAction),
}

/// The known actions that cannot fail; an entity commits to one and runs it later.
#[derive(Debug, Clone, Copy, PartialEq, Eq, Structural)]
pub enum KnownInfallibleAction {
    EnterStance(EnterStanceAction),
    ExitStance(ExitStanceAction),
    StanceSmite(StanceSmiteAction),
    DoubleHitFollowupAction(DoubleHitFollowupAction),
    ForwardHeavyFollowupAction(ForwardHeavyFollowupAction),
    TrackingFollowupAction(TrackingFollowupAction),
    GoingAction(GoingAction),
}


impl KnownAction {
    /// None of these is implemented yet: each is refused.
    pub fn verify_action(&self, floor: &Floor, subject_id: EntityId) -> (r: Result<DirectionCommand, ActionError>)
        ensures
            r == Err::<DirectionCommand, ActionError>(ActionError::InvalidState),
    {
        Err(ActionError::InvalidState)
    }
}

// ---------------------------------------------------------------- tile actions

/// What a tile action becomes once checked.
#[derive(Debug)]
pub enum TileCommand {
    Tracking(DelayCommand),
    EnterSmiteStance(EnterSmiteStanceCommand),
}

impl KnownTileAction {
    /// What `verify_action` returns.
    pub open spec fn spec_verify(self, floor: Floor, subject_id: EntityId, tile: AbsolutePosition) -> Result<TileCommand, ActionError> {
        match self {
            KnownTileAction::Tracking(_) => if !valid(floor, subject_id) {
                Err(ActionError::DataMismatch)
            } else if ent(floor, subject_id).energy <= 0 {
                Err(ActionError::NotEnoughEnergy)
            } else if !floor.occupiers@.contains_key(tile) || floor.occupiers@[tile] == subject_id {
                Err(ActionError::InvalidTarget)
            } else {
                Ok(
                    TileCommand::Tracking(
                        DelayCommand {
                            subject_id,
                            queued_command: KnownInfallibleAction::TrackingFollowupAction(
                                TrackingFollowupAction { tracking_id: floor.occupiers@[tile] },
                            ),
                            turns: 1,
                            event: Some(
                                FloorEvent::StartAttack(
                                    StartAttackEvent { subject: subject_id, tile: ent(floor, floor.occupiers@[tile]).pos },
                                ),
                            ),
                        },
                    ),
                )
            },
            KnownTileAction::EnterSmiteStance(_) => Ok(
                TileCommand::EnterSmiteStance(EnterSmiteStanceCommand { subject_id, tile }),
            ),
        }
    }

    pub fn verify_action(&self, floor: &Floor, subject_id: EntityId, tile: AbsolutePosition) -> (r: Result<TileCommand, ActionError>)
        requires
            floor.wf(),
        ensures
            r == self.spec_verify(*floor, subject_id, tile),
    {
        match self {
            KnownTileAction::Tracking(a) => match a.verify_action(floor, subject_id, tile) {
                Ok(c) => Ok(TileCommand::Tracking(c)),
                Err(e) => Err(e),
            },
            KnownTileAction::EnterSmiteStance(a) => match a.verify_action(floor, subject_id, tile) {
                Ok(c) => Ok(TileCommand::EnterSmiteStance(c)),
                Err(e) => Err(e),
            },
        }
    }
}

impl TileCommand {
    pub open spec fn can_run(&self, floor: Floor) -> bool {
        match self {
            TileCommand::Tracking(c) => c.can_run(floor),
            TileCommand::EnterSmiteStance(c) => c.can_run(floor),
        }
    }

    pub open spec fn result(&self, floor: Floor, next: Floor, log: Seq<FloorEvent>) -> bool {
        match self {
            TileCommand::Tracking(c) => c.result(floor, next, log),
            TileCommand::EnterSmiteStance(c) => c.result(floor, next, log),
        }
    }

    pub fn do_action(&self, floor: &Floor) -> (r: FloorUpdate)
        requires
            self.can_run(*floor),
        ensures
            self.result(*floor, r.value(), r.entries()),
    {
        match self {
            TileCommand::Tracking(c) => c.do_action(floor),
            TileCommand::EnterSmiteStance(c) => c.do_action(floor),
        }
    }
}

// ---------------------------------------------------------------- direction actions

/// What a direction action becomes once checked.
#[derive(Debug, Clone, Copy)]
pub enum DirectionCommand {
    DoubleHit(DoubleHitCommand),
    ForwardHeavy(ForwardHeavyCommand),
}

impl KnownDirectionAction {
    /// What `verify_action` returns.
    pub open spec fn spec_verify(self, floor: Floor, subject_id: EntityId, dir: RelativePosition) -> Result<DirectionCommand, ActionError> {
        if !valid(floor, subject_id) {
            Err(ActionError::DataMismatch)
        } else {
            match self {
                KnownDirectionAction::DoubleHit(_) => if dir.spec_length() > 1 {
                    Err(ActionError::TargetOutOfRange)
                } else {
                    Ok(DirectionCommand::DoubleHit(DoubleHitCommand { dir, subject_id }))
                },
                KnownDirectionAction::ForwardHeavy(_) => if ent(floor, subject_id).energy <= 0 {
                    Err(ActionError::NotEnoughEnergy)
                } else {
                    match StepAction.spec_verify(floor, subject_id, dir) {
                        Ok(step) => Ok(DirectionCommand::ForwardHeavy(ForwardHeavyCommand { step, dir, subject_id })),
                        Err(e) => Err(e),
                    }
                },
            }
        }
    }

    pub fn verify_action(&self, floor: &Floor, subject_id: EntityId, dir: RelativePosition) -> (r: Result<DirectionCommand, ActionError>)
        requires
            floor.wf(),
        ensures
            r == self.spec_verify(*floor, subject_id, dir),
    {
        match self {
            KnownDirectionAction::DoubleHit(a) => match a.verify_action(floor, subject_id, dir) {
                Ok(c) => Ok(DirectionCommand::DoubleHit(c)),
                Err(e) => Err(e),
            },
            KnownDirectionAction::ForwardHeavy(a) => match a.verify_action(floor, subject_id, dir) {
                Ok(c) => Ok(DirectionCommand::ForwardHeavy(c)),
                Err(e) => Err(e),
            },
        }
    }
}

impl DirectionCommand {
    pub open spec fn can_run(&self, floor: Floor) -> bool {
        match self {
            DirectionCommand::DoubleHit(c) => c.can_run(floor),
            DirectionCommand::ForwardHeavy(c) => c.can_run(floor),
        }
    }

    pub open spec fn result(&self, floor: Floor, next: Floor, log: Seq<FloorEvent>) -> bool {
        match self {
            DirectionCommand::DoubleHit(c) => c.result(floor, next, log),
            DirectionCommand::ForwardHeavy(c) => c.result(floor, next, log),
        }
    }

    pub fn do_action(&self, floor: &Floor) -> (r: FloorUpdate)
        requires
            self.can_run(*floor),
        ensures
            self.result(*floor, r.value(), r.entries()),
    {
        match self {
            DirectionCommand::DoubleHit(c) => c.do_action(floor),
            DirectionCommand::ForwardHeavy(c) => c.do_action(floor),
        }
    }
}

// ---------------------------------------------------------------- infallible actions

/// What an infallible action becomes for its subject.
#[derive(Debug, Clone, Copy)]
pub enum InfallibleCommand {
    EnterStance(EnterStanceCommand),
    ExitStance(ExitStanceCommand),
    StanceSmite(StanceSmiteCommand),
    DoubleHitFollowup(DoubleHitFollowup),
    ForwardHeavyFollowup(ForwardHeavyFollowup),
    TrackingFollowup(TrackingFollowup),
    Goto(GotoCommand),
}

impl KnownInfallibleAction {
    /// What `verify_action` returns.
    pub open spec fn spec_verify(self, subject_id: EntityId) -> InfallibleCommand {
        match self {
            KnownInfallibleAction::EnterStance(_) => InfallibleCommand::EnterStance(EnterStanceCommand { subject_id }),
            KnownInfallibleAction::ExitStance(_) => InfallibleCommand::ExitStance(ExitStanceCommand { subject_id }),
            KnownInfallibleAction::StanceSmite(a) => InfallibleCommand::StanceSmite(
                StanceSmiteCommand { subject_id, tile: a.tile },
            ),
            KnownInfallibleAction::DoubleHitFollowupAction(a) => InfallibleCommand::DoubleHitFollowup(
                DoubleHitFollowup { dir: a.dir, subject_id },
            ),
            KnownInfallibleAction::ForwardHeavyFollowupAction(a) => InfallibleCommand::ForwardHeavyFollowup(
                ForwardHeavyFollowup { dir: a.dir, subject_id },
            ),
            KnownInfallibleAction::TrackingFollowupAction(a) => InfallibleCommand::TrackingFollowup(
                TrackingFollowup { tracking_id: a.tracking_id, subject_id },
            ),
            KnownInfallibleAction::GoingAction(a) => InfallibleCommand::Goto(GotoCommand { tile: a.tile, subject_id }),
        }
    }

    pub fn verify_action(&self, floor: &Floor, subject_id: EntityId) -> (r: InfallibleCommand)
        ensures
            r == self.spec_verify(subject_id),
    {
        match self {
            KnownInfallibleAction::EnterStance(a) => InfallibleCommand::EnterStance(a.verify_action(floor, subject_id)),
            KnownInfallibleAction::ExitStance(a) => InfallibleCommand::ExitStance(a.verify_action(floor, subject_id)),
            KnownInfallibleAction::StanceSmite(a) => InfallibleCommand::StanceSmite(a.verify_action(floor, subject_id)),
            KnownInfallibleAction::DoubleHitFollowupAction(a) => InfallibleCommand::DoubleHitFollowup(
                a.verify_action(floor, subject_id),
            ),
            KnownInfallibleAction::ForwardHeavyFollowupAction(a) => InfallibleCommand::ForwardHeavyFollowup(
                a.verify_action(floor, subject_id),
            ),
            KnownInfallibleAction::TrackingFollowupAction(a) => InfallibleCommand::TrackingFollowup(
                a.verify_action(floor, subject_id),
            ),
            KnownInfallibleAction::GoingAction(a) => InfallibleCommand::Goto(a.verify(floor, subject_id)),
        }
    }
}

impl InfallibleCommand {
    pub open spec fn can_run(&self, floor: Floor) -> bool {
        match self {
            InfallibleCommand::EnterStance(c) => c.can_run(floor),
            InfallibleCommand::ExitStance(c) => c.can_run(floor),
            InfallibleCommand::StanceSmite(c) => c.can_run(floor),
            InfallibleCommand::DoubleHitFollowup(c) => c.can_run(floor),
            InfallibleCommand::ForwardHeavyFollowup(c) => c.can_run(floor),
            InfallibleCommand::TrackingFollowup(c) => c.can_run(floor),
            InfallibleCommand::Goto(c) => c.can_run(floor),
        }
    }

    pub open spec fn result(&self, floor: Floor, next: Floor, log: Seq<FloorEvent>) -> bool {
        match self {
            InfallibleCommand::EnterStance(c) => c.result(floor, next, log),
            InfallibleCommand::ExitStance(c) => c.result(floor, next, log),
            InfallibleCommand::StanceSmite(c) => c.result(floor, next, log),
            InfallibleCommand::DoubleHitFollowup(c) => c.result(floor, next, log),
            InfallibleCommand::ForwardHeavyFollowup(c) => c.result(floor, next, log),
            InfallibleCommand::TrackingFollowup(c) => c.result(floor, next, log),
            InfallibleCommand::Goto(c) => c.result(floor, next, log),
        }
    }

    pub fn do_action(&self, floor: &Floor) -> (r: FloorUpdate)
        requires
            self.can_run(*floor),
        ensures
            self.result(*floor, r.value(), r.entries()),
    {
        match self {
            InfallibleCommand::EnterStance(c) => c.do_action(floor),
            InfallibleCommand::ExitStance(c) => c.do_action(floor),
            InfallibleCommand::StanceSmite(c) => c.do_action(floor),
            InfallibleCommand::DoubleHitFollowup(c) => c.do_action(floor),
            InfallibleCommand::ForwardHeavyFollowup(c) => c.do_action(floor),
            InfallibleCommand::TrackingFollowup(c) => c.do_action(floor),
            InfallibleCommand::Goto(c) => c.do_action(floor),
        }
    }
}

} // verus!
