//! Actions to give to entities on creation. Access through `Entity::get_actions()`.
pub mod axolotl_nano;
pub mod max_tegu;
