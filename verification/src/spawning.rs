//! The formation's slots and what each row pays, and the bookkeeping of
//! freshly spawned bodies.

use vstd::prelude::*;

use crate::constants::{INVADER_COLS, INVADER_ROWS, INVADER_ROW_VALUES, MAX_INVADER_VALUE};
use crate::types::{lemma_roster_view_update, GameView, Invader, PlayerView, SpaceInvadersGame};

verus! {

/// Points paid out by an invader in `row`: the classic table, top row
/// paying the most; rows past the bottom pay the bottom row's value.
pub open spec fn spec_invader_value(row: int) -> u32 {
    if row <= 0 {
        30
    } else if row <= 2 {
        20
    } else {
        10
    }
}

/// Points paid out by an invader in `row`.
pub fn invader_value(row: usize) -> (v: u32)
    ensures
        v == spec_invader_value(row as int),
        v <= MAX_INVADER_VALUE,
{
    let r = if row < INVADER_ROWS - 1 { row } else { INVADER_ROWS - 1 };
    INVADER_ROW_VALUES[r]
}

/// Higher rows never pay less than lower rows, the top row pays the most,
/// and every row pays at least the bottom row's value.
pub proof fn lemma_invader_value_monotone(r1: int, r2: int)
    requires
        0 <= r1 <= r2,
    ensures
        spec_invader_value(r1) >= spec_invader_value(r2),
        spec_invader_value(0) >= spec_invader_value(r2),
        spec_invader_value(r2) >= spec_invader_value((INVADER_ROWS - 1) as int),
{
}

/// What each row pays, in points: the top row 30, the next two rows 20,
/// the bottom two rows (and any row below) 10.
pub proof fn lemma_row_values(row: int)
    requires
        row >= 0,
    ensures
        row == 0 ==> spec_invader_value(row) == 30,
        row == 1 || row == 2 ==> spec_invader_value(row) == 20,
        row >= 3 ==> spec_invader_value(row) == 10,
{
}

/// The formation slot of the `k`-th body spawned: rows top to bottom,
/// columns left to right within a row.
pub open spec fn formation_slot(entity: u64, k: int) -> Invader {
    Invader { entity, row: (k / INVADER_COLS as int) as usize, col: (k % INVADER_COLS as int) as usize }
}

/// The formation fills the whole grid, each slot once: the `k`-th body
/// takes row `k / INVADER_COLS`, column `k % INVADER_COLS`, so every slot of
/// the grid is taken by exactly one body and no body lies outside it.
pub proof fn lemma_formation_full_grid(bodies: Seq<u64>)
    requires
        bodies.len() == INVADER_ROWS * INVADER_COLS,
    ensures
        forall|k: int|
            0 <= k < bodies.len() ==> {
                &&& (#[trigger] formation_slot(bodies[k], k)).row < INVADER_ROWS
                &&& formation_slot(bodies[k], k).col < INVADER_COLS
                &&& k == formation_slot(bodies[k], k).row * INVADER_COLS + formation_slot(bodies[k], k).col
            },
        forall|r: int, c: int|
            #![trigger formation_slot(bodies[r * INVADER_COLS + c], r * INVADER_COLS + c)]
            0 <= r < INVADER_ROWS && 0 <= c < INVADER_COLS ==> {
                &&& 0 <= r * INVADER_COLS + c < bodies.len()
                &&& formation_slot(bodies[r * INVADER_COLS + c], r * INVADER_COLS + c).row == r
                &&& formation_slot(bodies[r * INVADER_COLS + c], r * INVADER_COLS + c).col == c
            },
{
    assert forall|r: int, c: int| 0 <= r < INVADER_ROWS && 0 <= c < INVADER_COLS implies {
        &&& 0 <= r * INVADER_COLS + c < bodies.len()
        &&& #[trigger] formation_slot(bodies[r * INVADER_COLS + c], r * INVADER_COLS + c).row == r
        &&& formation_slot(bodies[r * INVADER_COLS + c], r * INVADER_COLS + c).col == c
    } by {
        let k = r * INVADER_COLS + c;
        assert(k / (INVADER_COLS as int) == r && k % (INVADER_COLS as int) == c);
    }
}

/// The full formation from the bodies spawned for it, in row-major order:
/// `INVADER_ROWS` x `INVADER_COLS` invaders, each in its own slot.
pub fn spawn_invaders(bodies: &[u64]) -> (invaders: Vec<Invader>)
    requires
        bodies@.len() == INVADER_ROWS * INVADER_COLS,
    ensures
        invaders@.len() == INVADER_ROWS * INVADER_COLS,
        forall|k: int| 0 <= k < invaders@.len() ==> #[trigger] invaders@[k] == formation_slot(bodies@[k], k),
{
    let mut invaders: Vec<Invader> = Vec::new();
    let mut row: usize = 0;
    while row < INVADER_ROWS
        invariant
            row <= INVADER_ROWS,
            bodies@.len() == INVADER_ROWS * INVADER_COLS,
            invaders@.len() == row * INVADER_COLS,
            forall|k: int| 0 <= k < invaders@.len() ==> #[trigger] invaders@[k] == formation_slot(bodies@[k], k),
        decreases INVADER_ROWS - row,
    {
        let mut col: usize = 0;
        while col < INVADER_COLS
            invariant
                row < INVADER_ROWS,
                col <= INVADER_COLS,
                bodies@.len() == INVADER_ROWS * INVADER_COLS,
                invaders@.len() == row * INVADER_COLS + col,
                forall|k: int| 0 <= k < invaders@.len() ==> #[trigger] invaders@[k] == formation_slot(bodies@[k], k),
            decreases INVADER_COLS - col,
        {
            let k = row * INVADER_COLS + col;
            assert((k as int) / (INVADER_COLS as int) == row as int && (k as int) % (INVADER_COLS as int) == col as int);
            invaders.push(Invader { entity: bodies[k], row, col });
            col = col + 1;
        }
        row = row + 1;
    }
    invaders
}

impl SpaceInvadersGame {
    /// Cannon `index` fired `bullet`: it joins that cannon's bullets in flight.
    pub fn spawn_player_bullet(&mut self, index: usize, bullet: u64)
        requires
            index < old(self).players@.len(),
        ensures
            final(self)@ == (GameView {
                players: old(self)@.players.update(
                    index as int,
                    PlayerView { bullets: old(self)@.players[index as int].bullets.push(bullet), ..old(self)@.players[index as int] },
                ),
                ..old(self)@
            }),
    {
        let ghost prev = self.players@;
        proof {
            lemma_roster_view_update(prev, index as int, prev[index as int]);
        }
        self.players[index].bullets.push(bullet);
        proof {
            assert(self.players@ == prev.update(index as int, self.players@[index as int]));
            lemma_roster_view_update(prev, index as int, self.players@[index as int]);
            assert(self@.players =~= old(self)@.players.update(
                index as int,
                PlayerView { bullets: old(self)@.players[index as int].bullets.push(bullet), ..old(self)@.players[index as int] },
            ));
            assert(self@ =~= (GameView {
                players: old(self)@.players.update(
                    index as int,
                    PlayerView { bullets: old(self)@.players[index as int].bullets.push(bullet), ..old(self)@.players[index as int] },
                ),
                ..old(self)@
            }));
        }
    }

    /// The fleet fired `bullet`: it joins the fleet's bullets in flight.
    pub fn spawn_invader_bullet(&mut self, bullet: u64)
        ensures
            final(self)@ == (GameView { invader_bullets: old(self)@.invader_bullets.push(bullet), ..old(self)@ }),
    {
        self.invader_bullets.push(bullet);
        assert(self@ =~= (GameView { invader_bullets: old(self)@.invader_bullets.push(bullet), ..old(self)@ }));
    }
}

} // verus!
