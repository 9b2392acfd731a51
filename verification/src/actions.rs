//! Actions: what entities can do, checked against a floor, and the commands they turn into.
use vstd::prelude::*;

pub mod characters;
pub mod events;
pub mod example;
pub mod known;
pub mod public;
pub mod utils;

verus! {

/// Why an action could not be turned into a command.
#[derive(Debug, Clone, Copy, PartialEq, Eq, Structural)]
pub enum ActionError {
    TargetOutOfRange,
    DataMismatch,
    InvalidTarget,
    NotEnoughEnergy,
    FloorInvalid,
    MacroFallthrough,
    InvalidState,
}

} // verus!
