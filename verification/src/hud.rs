//! The texts of the HUD and the screens: the lives row, the streak banner,
//! the achievement check boxes and the game-over title.

use vstd::prelude::*;
use vstd::string::StringExecFns;

use crate::types::{PlayerView, SpaceInvadersGame};

verus! {

/// Label in front of the life marks.
pub const LIVES_LABEL: &'static str = "LIVES ";

/// The streak banner shows once the best streak reaches this many kills.
pub const STREAK_BANNER_FROM: u32 = 3;

/// One star per life, separated by single spaces: "* * *".
pub open spec fn life_marks(lives: nat) -> Seq<char>
    decreases lives,
{
    if lives == 0 {
        Seq::empty()
    } else if lives == 1 {
        seq!['*']
    } else {
        life_marks((lives - 1) as nat) + seq![' ', '*']
    }
}

/// The life marks, character by character: one star per life, a single
/// space between neighbours, nothing else.
pub proof fn lemma_life_marks_shape(lives: nat)
    ensures
        life_marks(lives).len() == (if lives == 0 { 0 } else { 2 * lives - 1 }),
        forall|i: int|
            0 <= i < life_marks(lives).len() ==> #[trigger] life_marks(lives)[i] == (if i % 2 == 0 { '*' } else { ' ' }),
    decreases lives,
{
    if lives > 1 {
        lemma_life_marks_shape((lives - 1) as nat);
        let prev = life_marks((lives - 1) as nat);
        let m = life_marks(lives);
        assert forall|i: int| 0 <= i < m.len() implies #[trigger] m[i] == (if i % 2 == 0 { '*' } else { ' ' }) by {
            if i < prev.len() {
                assert(m[i] == prev[i]);
            }
        }
    }
}

/// The lives row: "LIVES " followed by one star per life, separated by
/// single spaces.
pub fn lives_text(lives: u32) -> (text: String)
    ensures
        text@ == LIVES_LABEL@ + life_marks(lives as nat),
{
    let mut text = String::from_str(LIVES_LABEL);
    let mut n: u32 = 0;
    while n < lives
        invariant
            n <= lives,
            text@ == LIVES_LABEL@ + life_marks(n as nat),
        decreases lives - n,
    {
        if n == 0 {
            text.append("*");
            proof {
                reveal_strlit("*");
            }
            assert("*"@ =~= seq!['*']);
            assert(text@ =~= LIVES_LABEL@ + life_marks(1));
        } else {
            text.append(" *");
            proof {
                reveal_strlit(" *");
            }
            assert(" *"@ =~= seq![' ', '*']);
            assert(life_marks((n + 1) as nat) == life_marks(n as nat) + seq![' ', '*']);
            assert(text@ =~= LIVES_LABEL@ + life_marks((n + 1) as nat));
        }
        n = n + 1;
    }
    text
}

/// The check box in front of an achievement on the achievements page.
pub fn achievement_marker(unlocked: bool) -> (marker: &'static str)
    ensures
        marker@ == (if unlocked { "[X]"@ } else { "[ ]"@ }),
{
    if unlocked {
        "[X]"
    } else {
        "[ ]"
    }
}

/// The title of the game-over panel: the invasion repelled or the planet
/// lost.
pub fn game_over_title(won: bool) -> (title: &'static str)
    ensures
        title@ == (if won { "INVASION REPELLED!"@ } else { "EARTH HAS FALLEN"@ }),
{
    if won {
        "INVASION REPELLED!"
    } else {
        "EARTH HAS FALLEN"
    }
}

/// The longest sharpshooter streak over the roster: no cannon's streak is
/// longer, and unless it is zero some cannon has it.
pub open spec fn is_best_streak(players: Seq<PlayerView>, best: u32) -> bool {
    &&& forall|i: int| 0 <= i < players.len() ==> #[trigger] players[i].shot_streak <= best
    &&& best == 0 || exists|i: int| 0 <= i < players.len() && #[trigger] players[i].shot_streak == best
}

impl SpaceInvadersGame {
    /// The longest sharpshooter streak over the roster (zero with no
    /// roster), which the streak banner shows.
    pub fn best_streak(&self) -> (best: u32)
        ensures
            is_best_streak(self@.players, best),
    {
        proof {
            crate::types::lemma_roster_view(self.players@);
        }
        let mut best: u32 = 0;
        let mut i: usize = 0;
        while i < self.players.len()
            invariant
                i <= self.players@.len(),
                self@.players.len() == self.players@.len(),
                forall|j: int| 0 <= j < self.players@.len() ==> #[trigger] self@.players[j] == self.players@[j]@,
                is_best_streak(self@.players.take(i as int), best),
            decreases self.players@.len() - i,
        {
            let s = self.players[i].shot_streak;
            let ghost prefix = self@.players.take(i as int);
            let ghost next = self@.players.take(i + 1);
            proof {
                assert(next =~= prefix.push(self@.players[i as int]));
            }
            if s > best {
                best = s;
                assert(next[i as int].shot_streak == best);
            } else if best > 0 {
                let ghost w = choose|k: int| 0 <= k < prefix.len() && #[trigger] prefix[k].shot_streak == best;
                assert(next[w].shot_streak == best);
            }
            assert forall|j: int| 0 <= j < next.len() implies #[trigger] next[j].shot_streak <= best by {
                if j < i {
                    assert(next[j] == prefix[j]);
                }
            }
            i = i + 1;
        }
        assert(self@.players.take(self.players@.len() as int) =~= self@.players);
        best
    }
}

} // verus!
