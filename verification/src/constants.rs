//! Integer tuning of the game: formation size, trigger discipline, scoring
//! tables, lives, and streak target.

use vstd::prelude::*;

verus! {

/// Live player bullets allowed at once in Normal mode (classic single-shot
/// discipline).
pub const MAX_PLAYER_BULLETS: usize = 1;
/// Insane mode: live-bullet cap; extra single shots on screen compensate for
/// the faster fleet.
pub const INSANE_MAX_PLAYER_BULLETS: usize = 4;
/// Ridiculous mode: live-bullet cap for the twin cannon (one volley of 2).
pub const RIDICULOUS_MAX_PLAYER_BULLETS: usize = 2;
/// Insiculous mode: live-bullet cap for the twin cannon (3 volleys of 2).
pub const INSICULOUS_MAX_PLAYER_BULLETS: usize = 6;

pub const INVADER_COLS: usize = 10;
pub const INVADER_ROWS: usize = 5;

pub const BARRIER_COUNT: usize = 4;
pub const BARRIER_BLOCK_COLS: usize = 6;
pub const BARRIER_BLOCK_ROWS: usize = 3;

pub const STARTING_LIVES: u32 = 3;
/// Consecutive kill shots (no misses in between) for the streak achievement.
pub const SHARPSHOOTER_TARGET: u32 = 10;

/// Points per kill, by row (0 = top row, scores the most: classic table).
pub const INVADER_ROW_VALUES: [u32; 5] = [30, 20, 20, 10, 10];
/// The largest payout of any invader row.
pub const MAX_INVADER_VALUE: u32 = 30;

/// The mystery-ship bonus table.
pub const UFO_BONUS_VALUES: [u32; 4] = [50, 100, 150, 300];
/// The largest payout of the mystery ship.
pub const MAX_UFO_BONUS: u32 = 300;

/// The numbers of the rules: three lives per cannon, ten kills in a row for
/// Sharpshooter, a formation of five rows of ten, four bunkers of three rows
/// of six blocks.
pub proof fn lemma_rule_numbers()
    ensures
        STARTING_LIVES == 3,
        SHARPSHOOTER_TARGET == 10,
        INVADER_ROWS == 5,
        INVADER_COLS == 10,
        BARRIER_COUNT == 4,
        BARRIER_BLOCK_ROWS == 3,
        BARRIER_BLOCK_COLS == 6,
{
}

} // verus!
