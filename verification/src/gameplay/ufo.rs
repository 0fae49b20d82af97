//! The mystery ship: every now and then a ship crosses the top lane and
//! pays a drawn bonus when shot. Purely optional target: it never fires and
//! never lands.

use vstd::prelude::*;

use crate::achievements::AchievementId;
use crate::constants::{MAX_UFO_BONUS, UFO_BONUS_VALUES};
use crate::gameplay::players::{
    lemma_owned_bullets, lemma_owned_bullets_members, lemma_owned_bullets_ordered, lemma_streak_rules, owned_bullet_list,
    owned_bullets, retire_shot,
};
use crate::gameplay::{first_where, lemma_first_where, other_than, started_contact, touched, Contact, Effect};
use crate::types::{lemma_roster_view, lemma_roster_view_update, GameView, PlayerView, SpaceInvadersGame};

verus! {

/// The mystery bonus for the pseudo-random draw `rand`: the draw wraps over
/// the classic table.
pub open spec fn spec_ufo_bonus(rand: u32) -> u32 {
    let i = (rand as int) % 4;
    if i == 0 {
        50
    } else if i == 1 {
        100
    } else if i == 2 {
        150
    } else {
        300
    }
}

/// The mystery bonus for a kill, drawn from the classic table.
pub fn ufo_bonus(rand: u32) -> (bonus: u32)
    ensures
        bonus == spec_ufo_bonus(rand),
        bonus <= MAX_UFO_BONUS,
{
    UFO_BONUS_VALUES[rand as usize % UFO_BONUS_VALUES.len()]
}

/// An owned bullet that started touching the ship `ufo` this frame.
pub open spec fn hits_ship(ufo: u64, contacts: Seq<Contact>) -> spec_fn((usize, u64)) -> bool {
    |c: (usize, u64)| touched(contacts, c.1, ufo)
}

/// A player bullet hit the mystery ship: the first such bullet (cannon by
/// cannon, in order) pays its cannon the bonus drawn by `rand`, the bonus
/// shows on the HUD, the ship goes down, the UFO hunter achievement unlocks,
/// and the bullet is retired as a kill.
pub open spec fn ufo_hit(g: GameView, contacts: Seq<Contact>, rand: u32) -> (GameView, Seq<Effect>) {
    match g.ufo {
        None => (g, Seq::empty()),
        Some(ufo) => {
            let owned = owned_bullets(g.players);
            let k = first_where(owned, hits_ship(ufo, contacts));
            if k < owned.len() {
                let idx = owned[k].0;
                let bullet = owned[k].1;
                let bonus = spec_ufo_bonus(rand);
                let p = g.players[idx as int];
                let paid = GameView {
                    players: g.players.update(idx as int, PlayerView { score: (p.score + bonus) as u32, ..p }),
                    ufo_flash_bonus: bonus,
                    ufo: None,
                    ..g
                };
                let r = retire_shot(paid, idx as int, bullet, true);
                (
                    r.0,
                    seq![Effect::ShipDown(ufo), Effect::Despawn(ufo), Effect::Unlock(AchievementId::UfoHunter)]
                        + r.1,
                )
            } else {
                (g, Seq::empty())
            }
        },
    }
}

/// The bonus table in points: the draw taken modulo four pays 50, 100, 150
/// or 300.
pub proof fn lemma_ufo_bonus_values(rand: u32)
    ensures
        rand % 4 == 0 ==> spec_ufo_bonus(rand) == 50,
        rand % 4 == 1 ==> spec_ufo_bonus(rand) == 100,
        rand % 4 == 2 ==> spec_ufo_bonus(rand) == 150,
        rand % 4 == 3 ==> spec_ufo_bonus(rand) == 300,
{
}

/// What shooting the mystery ship does: when a ship is in flight and some
/// cannon's bullet touched it, the first such cannon (by cannon order) is
/// paid the drawn bonus and extends its streak, the bonus shows on the HUD,
/// the ship goes down and is removed and the UFO hunter achievement
/// unlocks; no other cannon and nothing else changes. When no bullet
/// touched a ship in flight, nothing happens.
pub proof fn lemma_ufo_hit_laws(g: GameView, contacts: Seq<Contact>, rand: u32)
    requires
        g.players.len() <= usize::MAX,
        ufo_pays_fit(g, contacts, rand),
    ensures
        ({
            let r = ufo_hit(g, contacts, rand);
            let struck = |j: int| exists|i: int|
                0 <= i < g.players[j].bullets.len() && touched(contacts, #[trigger] g.players[j].bullets[i], g.ufo->0);
            let hit = g.ufo is Some && exists|j: int| 0 <= j < g.players.len() && #[trigger] struck(j);
            &&& !hit ==> r.0 == g && r.1.len() == 0
            &&& hit ==> {
                &&& r.0.ufo is None
                &&& r.0.ufo_flash_bonus == spec_ufo_bonus(rand)
                &&& r.1.len() >= 3
                &&& r.1[0] == Effect::ShipDown(g.ufo->0)
                &&& r.1[1] == Effect::Despawn(g.ufo->0)
                &&& r.1[2] == Effect::Unlock(AchievementId::UfoHunter)
                &&& r.0.invaders == g.invaders
                &&& r.0.barrier_blocks == g.barrier_blocks
                &&& r.0.invader_bullets == g.invader_bullets
                &&& r.0.players.len() == g.players.len()
                &&& exists|j: int|
                    0 <= j < g.players.len() && #[trigger] struck(j) && (forall|q: int| 0 <= q < j ==> !#[trigger] struck(q))
                        && r.0.players[j].score == g.players[j].score + spec_ufo_bonus(rand)
                        && r.0.players[j].shot_streak == g.players[j].shot_streak + 1
                        && r.0.players[j].bullets.len() < g.players[j].bullets.len()
                        && r.0.players[j].lives == g.players[j].lives
                        && forall|q: int| 0 <= q < g.players.len() && q != j ==> #[trigger] r.0.players[q] == g.players[q]
            }
        }),
{
    let r = ufo_hit(g, contacts, rand);
    let struck = |j: int| exists|i: int|
        0 <= i < g.players[j].bullets.len() && touched(contacts, #[trigger] g.players[j].bullets[i], g.ufo->0);
    if let Some(ufo) = g.ufo {
        let owned = owned_bullets(g.players);
        let pred = hits_ship(ufo, contacts);
        lemma_first_where(owned, pred);
        lemma_owned_bullets_members(g.players);
        lemma_owned_bullets_ordered(g.players);
        let k = first_where(owned, pred);
        if k < owned.len() {
            let idx = owned[k].0 as int;
            let bullet = owned[k].1;
            assert(g.players[idx].bullets.contains(bullet));
            let i0 = choose|i: int| 0 <= i < g.players[idx].bullets.len() && g.players[idx].bullets[i] == bullet;
            assert(pred(owned[k]));
            assert(struck(idx));
            assert forall|q: int| 0 <= q < idx implies !#[trigger] struck(q) by {
                if struck(q) {
                    let i = choose|i: int|
                        0 <= i < g.players[q].bullets.len() && touched(contacts, #[trigger] g.players[q].bullets[i], ufo);
                    assert(owned.contains((q as usize, g.players[q].bullets[i])));
                    let m = choose|m: int| 0 <= m < owned.len() && owned[m] == (q as usize, g.players[q].bullets[i]);
                    assert(pred(owned[m]));
                    if m >= k {
                        assert(owned[k].0 <= owned[m].0);
                    }
                }
            }
            let p = g.players[idx];
            let bonus = spec_ufo_bonus(rand);
            let paid = GameView {
                players: g.players.update(idx, PlayerView { score: (p.score + bonus) as u32, ..p }),
                ufo_flash_bonus: bonus,
                ufo: None,
                ..g
            };
            lemma_streak_rules(paid, idx, bullet, true);
            lemma_filter_len_lt(p.bullets, bullet, i0);
        } else {
            assert forall|j: int| 0 <= j < g.players.len() implies !#[trigger] struck(j) by {
                if struck(j) {
                    let i = choose|i: int|
                        0 <= i < g.players[j].bullets.len() && touched(contacts, #[trigger] g.players[j].bullets[i], ufo);
                    assert(owned.contains((j as usize, g.players[j].bullets[i])));
                    let m = choose|m: int| 0 <= m < owned.len() && owned[m] == (j as usize, g.players[j].bullets[i]);
                    assert(pred(owned[m]));
                }
            }
        }
    }
}

/// Dropping every entry `x`, where `x` stands at `i`, shortens the list.
proof fn lemma_filter_len_lt(s: Seq<u64>, x: u64, i: int)
    requires
        0 <= i < s.len(),
        s[i] == x,
    ensures
        s.filter(other_than(x)).len() < s.len(),
    decreases s.len(),
{
    reveal(Seq::filter);
    s.drop_last().lemma_filter_len(other_than(x));
    if i < s.len() - 1 {
        assert(s.drop_last()[i] == x);
        lemma_filter_len_lt(s.drop_last(), x, i);
    }
}

/// The cannon the mystery-ship hit would pay has room for the drawn bonus
/// in its score and for one more kill in its streak. Holds when nothing
/// hits the ship, as nothing is paid then.
pub open spec fn ufo_pays_fit(g: GameView, contacts: Seq<Contact>, rand: u32) -> bool {
    match g.ufo {
        None => true,
        Some(ufo) => {
            let owned = owned_bullets(g.players);
            let k = first_where(owned, hits_ship(ufo, contacts));
            k < owned.len() ==> {
                let p = g.players[owned[k].0 as int];
                &&& p.score + spec_ufo_bonus(rand) <= u32::MAX
                &&& p.shot_streak < u32::MAX
            }
        },
    }
}

/// Index in `owned` of the first bullet that started touching the ship
/// `ufo`, or `owned.len()` when none did.
fn first_ship_hit(owned: &Vec<(usize, u64)>, ufo: u64, contacts: &[Contact]) -> (k: usize)
    ensures
        k == first_where(owned@, hits_ship(ufo, contacts@)),
        k <= owned@.len(),
{
    let ghost pred = hits_ship(ufo, contacts@);
    proof {
        lemma_first_where(owned@, pred);
    }
    let mut k: usize = 0;
    while k < owned.len()
        invariant
            k <= owned@.len(),
            pred == hits_ship(ufo, contacts@),
            forall|j: int| 0 <= j < k ==> !pred(#[trigger] owned@[j]),
        ensures
            k <= owned@.len(),
            forall|j: int| 0 <= j < k ==> !pred(#[trigger] owned@[j]),
            k < owned@.len() ==> pred(owned@[k as int]),
        decreases owned@.len() - k,
    {
        if started_contact(contacts, owned[k].1, ufo) {
            break;
        }
        k = k + 1;
    }
    k
}

impl SpaceInvadersGame {
    /// A mystery ship with body `ufo` took off: it is now the ship in flight.
    pub fn spawn_ufo(&mut self, ufo: u64)
        ensures
            final(self)@ == (GameView { ufo: Some(ufo), ..old(self)@ }),
    {
        self.ufo = Some(ufo);
    }

    /// The ship's body is gone from the world without a shot: forget it,
    /// with no effect to carry out.
    pub fn lose_ufo(&mut self)
        ensures
            final(self)@ == (GameView { ufo: None, ..old(self)@ }),
    {
        self.ufo = None;
    }

    /// Whether `check_ufo_hit` can pay this frame's mystery-ship hit, if
    /// any, for the draw `rand` (see `ufo_pays_fit`).
    pub fn can_pay_ufo_hit(&self, contacts: &[Contact], rand: u32) -> (fits: bool)
        ensures
            fits == ufo_pays_fit(self@, contacts@, rand),
    {
        let ufo = match self.ufo {
            Some(u) => u,
            None => {
                return true;
            },
        };
        let owned = owned_bullet_list(self.players.as_slice());
        proof {
            lemma_owned_bullets(self@.players);
            lemma_roster_view(self.players@);
        }
        let k = first_ship_hit(&owned, ufo, contacts);
        if k == owned.len() {
            return true;
        }
        let idx = owned[k].0;
        let bonus = ufo_bonus(rand);
        let p = &self.players[idx];
        p.score <= u32::MAX - bonus && p.shot_streak < u32::MAX
    }

    /// Pay out a player bullet that hit the mystery ship (see `ufo_hit`).
    /// Returns whether the ship went down.
    pub fn check_ufo_hit(&mut self, contacts: &[Contact], rand: u32, effects: &mut Vec<Effect>) -> (hit: bool)
        requires
            ufo_pays_fit(old(self)@, contacts@, rand),
        ensures
            final(self)@ == ufo_hit(old(self)@, contacts@, rand).0,
            final(effects)@ == old(effects)@ + ufo_hit(old(self)@, contacts@, rand).1,
            hit == (ufo_hit(old(self)@, contacts@, rand).0.ufo != old(self)@.ufo),
    {
        let ufo = match self.ufo {
            Some(u) => u,
            None => {
                return false;
            },
        };
        let ghost g = self@;
        let owned = owned_bullet_list(self.players.as_slice());
        proof {
            lemma_owned_bullets(g.players);
            lemma_roster_view(self.players@);
        }
        let k = first_ship_hit(&owned, ufo, contacts);
        if k == owned.len() {
            return false;
        }
        let (idx, bullet) = owned[k];
        let bonus = ufo_bonus(rand);
        let ghost prev = self.players@;
        proof {
            lemma_roster_view_update(prev, idx as int, prev[idx as int]);
        }
        self.players[idx].score = self.players[idx].score + bonus;
        proof {
            assert(self.players@ == prev.update(idx as int, self.players@[idx as int]));
            lemma_roster_view_update(prev, idx as int, self.players@[idx as int]);
        }
        self.ufo_flash_bonus = bonus;
        effects.push(Effect::ShipDown(ufo));
        self.destroy_ufo(effects);
        effects.push(Effect::Unlock(AchievementId::UfoHunter));
        let ghost p = g.players[idx as int];
        let ghost paid = GameView {
            players: g.players.update(idx as int, PlayerView { score: (p.score + bonus) as u32, ..p }),
            ufo_flash_bonus: bonus,
            ufo: None,
            ..g
        };
        proof {
            assert(self@.players =~= paid.players);
            assert(self@ =~= paid);
            lemma_roster_view(self.players@);
        }
        let ghost before = effects@;
        self.finish_player_shot(idx, bullet, true, effects);
        assert(effects@ =~= old(effects)@ + ufo_hit(g, contacts@, rand).1);
        true
    }
}

} // verus!
