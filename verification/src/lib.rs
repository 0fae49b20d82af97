//! The discrete rules of an arcade invasion game: the defending roster,
//! formation bookkeeping, trigger discipline, hit resolution, scoring,
//! achievements, and the menu state machine.

pub mod types;
pub mod constants;
pub mod gameplay;
pub mod achievements;
pub mod spawning;
pub mod menu;
pub mod hud;
