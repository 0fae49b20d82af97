//! The defending cannons: trigger discipline, shot accounting, and taking a
//! hit. Everything here is parameterized by player index so single player
//! (one merged cannon) and co-op (two independent cannons) share one path.

use vstd::prelude::*;

use crate::achievements::{roster_lives, AchievementId};
use crate::constants::SHARPSHOOTER_TARGET;
use crate::gameplay::flow::{disarm, disarm_roster, lemma_no_roster_bullets, wind_down};
use crate::gameplay::combat::{player_fire_caps, spec_player_fire_caps};
use crate::gameplay::{other_than, remove_all, Effect};
use crate::types::{
    lemma_roster_view, lemma_roster_view_update, roster_view, GameState, GameView, PlayerState, PlayerView, SpaceInvadersGame,
};

verus! {

/// Whether a fresh volley of `shots` fits under `max_live` given the
/// cannon's own bullets already in flight. Each cannon checks this against
/// its own bullets, so one player firing at cap never blocks the other.
pub fn volley_fits(live_bullets: usize, shots: usize, max_live: usize) -> (fits: bool)
    ensures
        fits == (live_bullets + shots <= max_live),
{
    shots <= max_live && live_bullets <= max_live - shots
}

/// The co-op match is lost only when every cannon is out of lives. An empty
/// roster (no match in progress) is not a defeat.
pub open spec fn spec_coop_defeated(lives: Seq<u32>) -> bool {
    lives.len() > 0 && forall|i: int| 0 <= i < lives.len() ==> lives[i] == 0
}

/// The co-op match is lost only when every cannon is out of lives. An empty
/// roster (no match in progress) is not a defeat.
pub fn coop_defeated(lives: &[u32]) -> (defeated: bool)
    ensures
        defeated == spec_coop_defeated(lives@),
{
    if lives.len() == 0 {
        return false;
    }
    let mut i: usize = 0;
    while i < lives.len()
        invariant
            i <= lives@.len(),
            forall|j: int| 0 <= j < i ==> lives@[j] == 0,
        decreases lives.len() - i,
    {
        if lives[i] != 0 {
            return false;
        }
        i = i + 1;
    }
    true
}

/// A cannon's sharpshooter streak after a shot: a kill extends it, anything
/// else resets it.
pub open spec fn streak_after_shot(streak: int, killed: bool) -> int {
    if killed {
        streak + 1
    } else {
        0
    }
}

/// What retiring `bullet` shows in the world: the bullet goes away, and the
/// kill that brings the streak to `SHARPSHOOTER_TARGET` unlocks the
/// sharpshooter achievement.
pub open spec fn retire_effects(bullet: u64, killed: bool, new_streak: int) -> Seq<Effect> {
    if killed && new_streak == SHARPSHOOTER_TARGET {
        seq![Effect::Despawn(bullet), Effect::Unlock(AchievementId::Sharpshooter)]
    } else {
        seq![Effect::Despawn(bullet)]
    }
}

/// Retire `bullet` of cannon `index` and account for the shot: kills extend
/// that player's sharpshooter streak, anything else resets it.
pub open spec fn retire_shot(g: GameView, index: int, bullet: u64, killed: bool) -> (GameView, Seq<Effect>) {
    let p = g.players[index];
    let s = streak_after_shot(p.shot_streak as int, killed);
    (
        GameView {
            players: g.players.update(
                index,
                PlayerView { bullets: p.bullets.filter(other_than(bullet)), shot_streak: s as u32, ..p },
            ),
            ..g
        },
        retire_effects(bullet, killed, s),
    )
}

/// Retire the shots of `done` of cannon `index` in order, each a bullet and
/// whether it killed.
pub open spec fn retire_shots(g: GameView, index: int, done: Seq<(u64, bool)>) -> (GameView, Seq<Effect>)
    decreases done.len(),
{
    if done.len() == 0 {
        (g, Seq::empty())
    } else {
        let prev = retire_shots(g, index, done.drop_last());
        let r = retire_shot(prev.0, index, done.last().0, done.last().1);
        (r.0, prev.1 + r.1)
    }
}

/// A cannon's streak, starting from `streak`, after the shots `done` retire
/// in order (each a bullet and whether it killed).
pub open spec fn streak_through(streak: int, done: Seq<(u64, bool)>) -> int
    decreases done.len(),
{
    if done.len() == 0 {
        streak
    } else {
        streak_after_shot(streak_through(streak, done.drop_last()), done.last().1)
    }
}

/// Retiring `done` from `streak` never overflows the streak counter: every
/// kill finds the streak below `u32::MAX`.
pub open spec fn streak_fits(streak: int, done: Seq<(u64, bool)>) -> bool {
    forall|k: int| 0 <= k < done.len() && (#[trigger] done[k]).1 ==> streak_through(streak, done.take(k)) < u32::MAX
}

/// Room for all of `done` leaves room for each prefix of it.
pub proof fn lemma_streak_fits_prefix(streak: int, done: Seq<(u64, bool)>, n: int)
    requires
        0 <= n <= done.len(),
        streak_fits(streak, done),
    ensures
        streak_fits(streak, done.take(n)),
{
    assert forall|k: int| 0 <= k < done.take(n).len() && (#[trigger] done.take(n)[k]).1 implies streak_through(
        streak,
        done.take(n).take(k),
    ) < u32::MAX by {
        assert(done.take(n).take(k) =~= done.take(k));
        assert(done.take(n)[k] == done[k]);
    }
}

/// Whether retiring `done` from `streak` keeps the streak counter in range
/// (see `streak_fits`).
pub fn streak_room(streak: u32, done: &[(u64, bool)]) -> (fits: bool)
    ensures
        fits == streak_fits(streak as int, done@),
{
    let mut s: u32 = streak;
    let mut i: usize = 0;
    while i < done.len()
        invariant
            i <= done@.len(),
            s == streak_through(streak as int, done@.take(i as int)),
            streak_fits(streak as int, done@.take(i as int)),
        decreases done@.len() - i,
    {
        proof {
            assert(done@.take(i + 1).drop_last() =~= done@.take(i as int));
            assert(done@.take(i + 1).last() == done@[i as int]);
        }
        if done[i].1 {
            if s == u32::MAX {
                assert(done@[i as int].1 && streak_through(streak as int, done@.take(i as int)) >= u32::MAX);
                return false;
            }
            s = s + 1;
        } else {
            s = 0;
        }
        proof {
            assert forall|k: int| 0 <= k < done@.take(i + 1).len() && (#[trigger] done@.take(i + 1)[k]).1 implies streak_through(
                streak as int,
                done@.take(i + 1).take(k),
            ) < u32::MAX by {
                assert(done@.take(i + 1)[k] == done@[k]);
                if k < i {
                    assert(done@.take(i + 1).take(k) =~= done@.take(i as int).take(k));
                    assert(done@.take(i as int)[k] == done@[k]);
                } else {
                    assert(done@.take(i + 1).take(k) =~= done@.take(i as int));
                }
            }
        }
        i = i + 1;
    }
    assert(done@.take(done@.len() as int) =~= done@);
    true
}

/// Retiring shots changes only cannon `index`'s bullets and streak, and never
/// lengthens the streak by more than one per shot.
pub proof fn lemma_retire_shots(g: GameView, index: int, done: Seq<(u64, bool)>)
    requires
        0 <= index < g.players.len(),
    ensures
        ({
            let r = retire_shots(g, index, done).0;
            &&& r == (GameView { players: r.players, ..g })
            &&& r.players.len() == g.players.len()
            &&& forall|j: int| 0 <= j < g.players.len() && j != index ==> #[trigger] r.players[j] == g.players[j]
            &&& r.players[index] == (PlayerView {
                bullets: r.players[index].bullets,
                shot_streak: r.players[index].shot_streak,
                ..g.players[index]
            })
            &&& r.players[index].shot_streak <= g.players[index].shot_streak + done.len()
            &&& streak_fits(g.players[index].shot_streak as int, done) ==> r.players[index].shot_streak
                == streak_through(g.players[index].shot_streak as int, done)
        }),
    decreases done.len(),
{
    if done.len() > 0 {
        lemma_retire_shots(g, index, done.drop_last());
        if streak_fits(g.players[index].shot_streak as int, done) {
            lemma_streak_fits_prefix(g.players[index].shot_streak as int, done, done.len() - 1);
            assert(done.take(done.len() - 1) =~= done.drop_last());
            assert(done[done.len() - 1] == done.last());
        }
    }
}

/// Every bullet in flight with the cannon that fired it: cannon by cannon,
/// each cannon's bullets in order.
pub open spec fn owned_bullets(players: Seq<PlayerView>) -> Seq<(usize, u64)>
    decreases players.len(),
{
    if players.len() == 0 {
        Seq::empty()
    } else {
        let n = (players.len() - 1) as usize;
        owned_bullets(players.drop_last()) + players.last().bullets.map_values(|b: u64| (n, b))
    }
}

/// Every owned bullet belongs to a cannon of the roster.
pub proof fn lemma_owned_bullets(players: Seq<PlayerView>)
    ensures
        forall|k: int| 0 <= k < owned_bullets(players).len() ==> #[trigger] owned_bullets(players)[k].0 < players.len(),
    decreases players.len(),
{
    if players.len() > 0 {
        lemma_owned_bullets(players.drop_last());
        let prev = owned_bullets(players.drop_last());
        let o = owned_bullets(players);
        assert forall|k: int| 0 <= k < o.len() implies #[trigger] o[k].0 < players.len() by {
            if k < prev.len() {
                assert(o[k] == prev[k]);
            }
        }
    }
}

/// The owned bullets are exactly the cannons' bullets, each with its cannon.
pub proof fn lemma_owned_bullets_members(players: Seq<PlayerView>)
    requires
        players.len() <= usize::MAX,
    ensures
        forall|k: int|
            0 <= k < owned_bullets(players).len() ==> (#[trigger] owned_bullets(players)[k]).0 < players.len()
                && players[owned_bullets(players)[k].0 as int].bullets.contains(owned_bullets(players)[k].1),
        forall|j: int, i: int|
            0 <= j < players.len() && 0 <= i < players[j].bullets.len() ==> owned_bullets(players).contains(
                (j as usize, #[trigger] players[j].bullets[i]),
            ),
    decreases players.len(),
{
    if players.len() > 0 {
        let rest = players.drop_last();
        lemma_owned_bullets_members(rest);
        let n = (players.len() - 1) as usize;
        let prev = owned_bullets(rest);
        let tail = players.last().bullets.map_values(|b: u64| (n, b));
        let o = owned_bullets(players);
        assert(o == prev + tail);
        assert forall|k: int| 0 <= k < o.len() implies (#[trigger] o[k]).0 < players.len()
            && players[o[k].0 as int].bullets.contains(o[k].1) by {
            if k < prev.len() {
                assert(o[k] == prev[k]);
                assert(rest[prev[k].0 as int] == players[prev[k].0 as int]);
            } else {
                let i = k - prev.len();
                assert(o[k] == tail[i]);
                assert(players[n as int].bullets[i] == o[k].1);
            }
        }
        assert forall|j: int, i: int|
            0 <= j < players.len() && 0 <= i < players[j].bullets.len() implies o.contains(
                (j as usize, #[trigger] players[j].bullets[i]),
            ) by {
            if j < rest.len() {
                assert(rest[j] == players[j]);
                assert(rest[j].bullets[i] == players[j].bullets[i]);
                let k = choose|k: int| 0 <= k < prev.len() && prev[k] == (j as usize, rest[j].bullets[i]);
                assert(o[k] == prev[k]);
            } else {
                assert(o[prev.len() + i] == tail[i]);
            }
        }
    }
}

/// The owned bullets come cannon by cannon: a later entry never belongs to
/// an earlier cannon.
pub proof fn lemma_owned_bullets_ordered(players: Seq<PlayerView>)
    requires
        players.len() <= usize::MAX,
    ensures
        forall|m1: int, m2: int|
            0 <= m1 <= m2 < owned_bullets(players).len() ==> #[trigger] owned_bullets(players)[m1].0
                <= #[trigger] owned_bullets(players)[m2].0,
    decreases players.len(),
{
    if players.len() > 0 {
        let rest = players.drop_last();
        lemma_owned_bullets_ordered(rest);
        lemma_owned_bullets(rest);
        let n = (players.len() - 1) as usize;
        let prev = owned_bullets(rest);
        let tail = players.last().bullets.map_values(|b: u64| (n, b));
        let o = owned_bullets(players);
        assert forall|m1: int, m2: int| 0 <= m1 <= m2 < o.len() implies #[trigger] o[m1].0 <= #[trigger] o[m2].0 by {
            if m2 < prev.len() {
                assert(o[m1] == prev[m1] && o[m2] == prev[m2]);
            } else if m1 < prev.len() {
                assert(o[m1] == prev[m1]);
                assert(o[m2] == tail[m2 - prev.len()]);
            } else {
                assert(o[m1] == tail[m1 - prev.len()]);
                assert(o[m2] == tail[m2 - prev.len()]);
            }
        }
    }
}

/// Every bullet in flight with the cannon that fired it: cannon by cannon,
/// each cannon's bullets in order.
pub(crate) fn owned_bullet_list(players: &[PlayerState]) -> (owned: Vec<(usize, u64)>)
    ensures
        owned@ == owned_bullets(roster_view(players@)),
{
    let ghost roster = roster_view(players@);
    proof {
        lemma_roster_view(players@);
    }
    let mut owned: Vec<(usize, u64)> = Vec::new();
    let mut i: usize = 0;
    while i < players.len()
        invariant
            i <= players@.len(),
            roster == roster_view(players@),
            roster.len() == players@.len(),
            forall|j: int| 0 <= j < players@.len() ==> #[trigger] roster[j] == players@[j]@,
            owned@ == owned_bullets(roster.take(i as int)),
        decreases players@.len() - i,
    {
        let ghost before = owned@;
        let mut m: usize = 0;
        while m < players[i].bullets.len()
            invariant
                i < players@.len(),
                m <= players@[i as int].bullets@.len(),
                owned@ == before + players@[i as int].bullets@.take(m as int).map_values(|b: u64| (i, b)),
            decreases players@[i as int].bullets@.len() - m,
        {
            owned.push((i, players[i].bullets[m]));
            proof {
                let bs = players@[i as int].bullets@;
                assert(bs.take(m + 1).map_values(|b: u64| (i, b)) =~= bs.take(m as int).map_values(|b: u64| (i, b)).push(
                    (i, bs[m as int]),
                ));
            }
            m = m + 1;
        }
        proof {
            let bs = players@[i as int].bullets@;
            assert(bs.take(bs.len() as int) =~= bs);
            assert(roster.take(i + 1).drop_last() =~= roster.take(i as int));
            assert(roster.take(i + 1).last() == players@[i as int]@);
            assert(owned@ =~= owned_bullets(roster.take(i + 1)));
        }
        i = i + 1;
    }
    assert(roster.take(players@.len() as int) =~= roster);
    owned
}

/// Lives left after losing one (never below zero).
pub open spec fn life_lost(lives: u32) -> u32 {
    if lives == 0 {
        0
    } else {
        (lives - 1) as u32
    }
}

/// What a cannon with body `body` shows once hit, after its explosion and
/// the bullets are gone: out of lives, its body is removed; otherwise the
/// body goes back to its spawn column.
pub open spec fn aftermath(index: usize, body: Option<u64>, lives_left: u32) -> Seq<Effect> {
    match body {
        Some(e) => if lives_left == 0 {
            seq![Effect::Despawn(e)]
        } else {
            seq![Effect::CannonRespawn { index, entity: e }]
        },
        None => Seq::empty(),
    }
}

/// Cannon `index` takes a hit: it explodes, every bullet in flight goes, its
/// streak resets and it loses a life. Out of lives, its body goes; once
/// every cannon is out of lives the match is lost.
pub open spec fn take_hit(g: GameView, index: usize) -> (GameView, Seq<Effect>) {
    let p = g.players[index as int];
    let a = disarm(g);
    let left = life_lost(p.lives);
    let hurt = PlayerView {
        shot_streak: 0,
        lives: left,
        entity: if left == 0 { None } else { p.entity },
        ..a.0.players[index as int]
    };
    let g2 = GameView { players: a.0.players.update(index as int, hurt), ..a.0 };
    let head = seq![Effect::CannonHit { index, body: p.entity }] + a.1 + aftermath(index, p.entity, left);
    if spec_coop_defeated(roster_lives(g2.players)) {
        let f = wind_down(g2, GameState::GameOver { won: false });
        (f.0, head + f.1)
    } else {
        (g2, head)
    }
}

/// The streak rules of one retired shot: a kill extends cannon `index`'s
/// streak by one, anything else resets it to zero, and the sharpshooter
/// achievement unlocks exactly when a kill brings the streak to
/// `SHARPSHOOTER_TARGET`. No other cannon is touched.
pub proof fn lemma_streak_rules(g: GameView, index: int, bullet: u64, killed: bool)
    requires
        0 <= index < g.players.len(),
        killed ==> g.players[index].shot_streak < u32::MAX,
    ensures
        ({
            let r = retire_shot(g, index, bullet, killed);
            &&& r.0.players[index].shot_streak == (if killed { g.players[index].shot_streak + 1 } else { 0 })
            &&& r.1.contains(Effect::Unlock(AchievementId::Sharpshooter)) <==> (killed
                && g.players[index].shot_streak + 1 == SHARPSHOOTER_TARGET)
            &&& r.1.contains(Effect::Despawn(bullet))
            &&& !r.0.players[index].bullets.contains(bullet)
            &&& forall|b: u64| b != bullet ==> (#[trigger] r.0.players[index].bullets.contains(b) <==> g.players[index].bullets.contains(b))
            &&& r.0.players[index].score == g.players[index].score
            &&& r.0.players[index].lives == g.players[index].lives
            &&& r.0.players.len() == g.players.len()
            &&& forall|j: int| 0 <= j < g.players.len() && j != index ==> #[trigger] r.0.players[j] == g.players[j]
        }),
{
    broadcast use vstd::seq_lib::group_filter_ensures;

    let r = retire_shot(g, index, bullet, killed);
    assert(r.1[0] == Effect::Despawn(bullet));
    let bs = g.players[index].bullets;
    let f = bs.filter(other_than(bullet));
    assert(r.0.players[index].bullets == f);
    assert forall|b: u64| #[trigger] f.contains(b) <==> (bs.contains(b) && b != bullet) by {
        if f.contains(b) {
            bs.lemma_filter_contains_rev(other_than(bullet), b);
            let i = choose|i: int| 0 <= i < f.len() && f[i] == b;
            assert(other_than(bullet)(f[i]));
        }
        if bs.contains(b) && b != bullet {
            let i = choose|i: int| 0 <= i < bs.len() && bs[i] == b;
            assert(other_than(bullet)(bs[i]));
        }
    }
    if killed && g.players[index].shot_streak + 1 == SHARPSHOOTER_TARGET {
        assert(r.1[1] == Effect::Unlock(AchievementId::Sharpshooter));
    }
}

/// What a hit does to the roster: every bullet in flight goes; the hit
/// cannon loses one life (none below zero), its streak resets, and its body
/// goes exactly when its last life is gone; every other cannon keeps its
/// body, score, lives and streak; no score changes; the fleet and the
/// barriers stay; the first thing shown is the hit cannon exploding.
pub proof fn lemma_take_hit_laws(g: GameView, index: usize)
    requires
        index < g.players.len(),
    ensures
        ({
            let r = take_hit(g, index);
            let p = g.players[index as int];
            let left: u32 = if p.lives == 0 { 0 } else { (p.lives - 1) as u32 };
            &&& r.0.players.len() == g.players.len()
            &&& r.0.invader_bullets.len() == 0
            &&& forall|j: int| 0 <= j < g.players.len() ==> (#[trigger] r.0.players[j]).bullets.len() == 0
                && r.0.players[j].score == g.players[j].score
            &&& r.0.players[index as int].lives == left
            &&& r.0.players[index as int].shot_streak == 0
            &&& r.0.players[index as int].entity == (if left == 0 { None } else { p.entity })
            &&& forall|j: int|
                0 <= j < g.players.len() && j != index ==> {
                    &&& (#[trigger] r.0.players[j]).entity == g.players[j].entity
                    &&& r.0.players[j].lives == g.players[j].lives
                    &&& r.0.players[j].shot_streak == g.players[j].shot_streak
                }
            &&& r.0.invaders == g.invaders
            &&& r.0.barrier_blocks == g.barrier_blocks
            &&& r.1.len() >= 1
            &&& r.1[0] == Effect::CannonHit { index, body: p.entity }
        }),
{
    let p = g.players[index as int];
    let a = disarm(g);
    assert(disarm_roster(g.players).len() == g.players.len());
    let left = life_lost(p.lives);
    let hurt = PlayerView {
        shot_streak: 0,
        lives: left,
        entity: if left == 0 { None } else { p.entity },
        ..a.0.players[index as int]
    };
    let g2 = GameView { players: a.0.players.update(index as int, hurt), ..a.0 };
    crate::gameplay::flow::lemma_wind_down_clears(g2, GameState::GameOver { won: false });
    assert forall|j: int| 0 <= j < g.players.len() implies (#[trigger] g2.players[j]).bullets.len() == 0
        && g2.players[j].score == g.players[j].score by {
        assert(disarm_roster(g.players)[j] == PlayerView { bullets: Seq::empty(), ..g.players[j] });
    }
    assert forall|j: int| 0 <= j < g.players.len() && j != index implies #[trigger] g2.players[j] == PlayerView {
        bullets: Seq::empty(),
        ..g.players[j]
    } by {
        assert(disarm_roster(g.players)[j] == PlayerView { bullets: Seq::empty(), ..g.players[j] });
    }
    let head = seq![Effect::CannonHit { index, body: p.entity }] + a.1 + aftermath(index, p.entity, left);
    assert(head[0] == Effect::CannonHit { index, body: p.entity });
}

/// A hit never ends the match while another cannon still has lives: the
/// screen and the mystery ship stay as they were, and the match is lost
/// exactly when the hit takes the last life of the last cannon standing.
pub proof fn lemma_hit_spares_match(g: GameView, index: usize)
    requires
        index < g.players.len(),
    ensures
        (exists|j: int| 0 <= j < g.players.len() && j != index && #[trigger] g.players[j].lives > 0) ==> {
            &&& take_hit(g, index).0.state == g.state
            &&& take_hit(g, index).0.ufo == g.ufo
        },
        take_hit(g, index).0.players.len() == g.players.len(),
        take_hit(g, index).0.players[index as int].lives == life_lost(g.players[index as int].lives),
        (forall|j: int| 0 <= j < g.players.len() && j != index ==> #[trigger] g.players[j].lives == 0)
            && g.players[index as int].lives <= 1 ==> take_hit(g, index).0.state == (GameState::GameOver { won: false }),
{
    let a = disarm(g);
    assert(disarm_roster(g.players).len() == g.players.len());
    let p = g.players[index as int];
    let left = life_lost(p.lives);
    let hurt = PlayerView {
        shot_streak: 0,
        lives: left,
        entity: if left == 0 { None } else { p.entity },
        ..a.0.players[index as int]
    };
    let g2 = GameView { players: a.0.players.update(index as int, hurt), ..a.0 };
    let lives = roster_lives(g2.players);
    assert forall|j: int| 0 <= j < g.players.len() && j != index implies #[trigger] lives[j] == g.players[j].lives by {
        assert(g2.players[j] == disarm_roster(g.players)[j]);
    }
    assert(lives[index as int] == left);
    if exists|j: int| 0 <= j < g.players.len() && j != index && #[trigger] g.players[j].lives > 0 {
        let j = choose|j: int| 0 <= j < g.players.len() && j != index && #[trigger] g.players[j].lives > 0;
        assert(lives[j] > 0);
        assert(!spec_coop_defeated(lives));
    }
    if (forall|j: int| 0 <= j < g.players.len() && j != index ==> #[trigger] g.players[j].lives == 0) && p.lives <= 1 {
        assert(spec_coop_defeated(lives));
    }
}

/// How many bullets cannon `index` fires when its trigger is held and its
/// cooldown is over: the chaos mode's volley when it fits under the cap
/// beside the cannon's own bullets in flight and the cannon has a body;
/// none otherwise.
pub open spec fn volley_ready(g: GameView, index: int) -> usize {
    let caps = spec_player_fire_caps(g.chaos_mode);
    let p = g.players[index];
    if p.entity is Some && p.bullets.len() + caps.0 <= caps.1 {
        caps.0
    } else {
        0
    }
}

/// A held trigger fires the whole volley of the chaos mode or nothing: a
/// volley is never cut short to squeeze under the cap. It fires exactly
/// when the cannon has a body and the volley fits under the cap beside the
/// cannon's bullets in flight, and then the cannon ends at or under its cap.
pub proof fn lemma_volley_all_or_nothing(g: GameView, index: int)
    requires
        0 <= index < g.players.len(),
    ensures
        ({
            let shots = volley_ready(g, index);
            let caps = spec_player_fire_caps(g.chaos_mode);
            let p = g.players[index];
            &&& shots == 0 || shots == caps.0
            &&& shots != 0 <==> (p.entity is Some && p.bullets.len() + caps.0 <= caps.1)
            &&& p.bullets.len() + shots <= caps.1 || shots == 0
            &&& caps.0 >= 1
        }),
{
}

/// Each cannon checks its volley against its own bullets only, so one
/// player firing at cap never blocks the other; and a volley, when fired,
/// never takes a cannon past its cap.
pub proof fn lemma_volley_independent(g1: GameView, g2: GameView, index: int)
    requires
        0 <= index < g1.players.len(),
        0 <= index < g2.players.len(),
        g1.players[index] == g2.players[index],
        g1.chaos_mode == g2.chaos_mode,
    ensures
        volley_ready(g1, index) == volley_ready(g2, index),
        g1.players[index].bullets.len() + volley_ready(g1, index) <= spec_player_fire_caps(g1.chaos_mode).1
            || volley_ready(g1, index) == 0,
{
}

impl SpaceInvadersGame {
    /// Retire one of cannon `index`'s bullets and account for the shot: kills
    /// extend that player's sharpshooter streak, anything else resets it.
    pub fn finish_player_shot(&mut self, index: usize, bullet: u64, killed: bool, effects: &mut Vec<Effect>)
        requires
            index < old(self).players@.len(),
            killed ==> old(self).players@[index as int].shot_streak < u32::MAX,
        ensures
            final(self)@ == retire_shot(old(self)@, index as int, bullet, killed).0,
            final(effects)@ == old(effects)@ + retire_shot(old(self)@, index as int, bullet, killed).1,
    {
        let ghost prev = self.players@;
        proof {
            lemma_roster_view_update(prev, index as int, prev[index as int]);
        }
        remove_all(&mut self.players[index].bullets, bullet);
        effects.push(Effect::Despawn(bullet));
        if killed {
            self.players[index].shot_streak = self.players[index].shot_streak + 1;
            if self.players[index].shot_streak == SHARPSHOOTER_TARGET {
                effects.push(Effect::Unlock(AchievementId::Sharpshooter));
            }
        } else {
            self.players[index].shot_streak = 0;
        }
        proof {
            let r = retire_shot(old(self)@, index as int, bullet, killed);
            assert(self.players@ == prev.update(index as int, self.players@[index as int]));
            lemma_roster_view_update(prev, index as int, self.players@[index as int]);
            assert(self.players@[index as int].bullets@ =~= r.0.players[index as int].bullets);
            assert(self.players@[index as int].shot_streak == r.0.players[index as int].shot_streak);
            assert(self.players@[index as int].entity == r.0.players[index as int].entity);
            assert(self.players@[index as int]@ =~= r.0.players[index as int]);
            assert(self@.players =~= r.0.players);
            assert(self@ =~= r.0);
            assert(effects@ =~= old(effects)@ + r.1);
        }
    }

    /// Cannon `index` took a hit: explode, clear every bullet in flight, and
    /// spend one of that player's lives. At zero lives the cannon is
    /// despawned and the survivor plays on; the match is lost only once
    /// every cannon is out of lives.
    pub fn player_hit(&mut self, index: usize, effects: &mut Vec<Effect>)
        requires
            index < old(self).players@.len(),
        ensures
            final(self)@ == take_hit(old(self)@, index).0,
            final(effects)@ == old(effects)@ + take_hit(old(self)@, index).1,
    {
        let ghost g = self@;
        let ghost start = effects@;
        effects.push(Effect::CannonHit { index, body: self.players[index].entity });
        self.destroy_all_bullets(effects);
        let ghost a = disarm(g);
        let ghost prev = self.players@;
        proof {
            lemma_roster_view_update(old(self).players@, index as int, old(self).players@[index as int]);
            assert(disarm_roster(g.players).len() == g.players.len());
            lemma_roster_view_update(prev, index as int, prev[index as int]);
        }
        self.players[index].shot_streak = 0;
        self.players[index].lives = self.players[index].lives.saturating_sub(1);

        if self.players[index].lives == 0 {
            if let Some(entity) = self.players[index].entity.take() {
                effects.push(Effect::Despawn(entity));
            }
        } else {
            if let Some(entity) = self.players[index].entity {
                effects.push(Effect::CannonRespawn { index, entity });
            }
        }
        let ghost p = g.players[index as int];
        let ghost left = life_lost(p.lives);
        let ghost g2 = GameView {
            players: a.0.players.update(
                index as int,
                PlayerView {
                    shot_streak: 0,
                    lives: left,
                    entity: if left == 0 { None } else { p.entity },
                    ..a.0.players[index as int]
                },
            ),
            ..a.0
        };
        proof {
            assert(self.players@ == prev.update(index as int, self.players@[index as int]));
            lemma_roster_view_update(prev, index as int, self.players@[index as int]);
            assert(self.players@[index as int]@ =~= g2.players[index as int]);
            assert(self@.players =~= g2.players);
            assert(self@ =~= g2);
            assert(effects@ =~= start + (seq![Effect::CannonHit { index, body: p.entity }] + a.1 + aftermath(
                index,
                p.entity,
                left,
            )));
        }

        let mut lives: Vec<u32> = Vec::new();
        let mut i: usize = 0;
        while i < self.players.len()
            invariant
                i <= self.players@.len(),
                lives@ == roster_lives(self@.players).take(i as int),
            decreases self.players@.len() - i,
        {
            lives.push(self.players[i].lives);
            proof {
                assert(roster_lives(self@.players).take(i + 1) =~= roster_lives(self@.players).take(i as int).push(
                    self.players@[i as int].lives,
                ));
            }
            i = i + 1;
        }
        assert(roster_lives(self@.players).take(self.players@.len() as int) =~= roster_lives(self@.players));
        if coop_defeated(lives.as_slice()) {
            proof {
                lemma_no_roster_bullets(self@.players);
            }
            self.finish_game(false, effects);
        }
    }

    /// How many bullets cannon `index` fires now that its trigger is held and
    /// its cooldown is over: the chaos mode's volley (see
    /// `player_fire_caps`) when it fits under the cap beside the cannon's own
    /// bullets in flight and the cannon has a body; none otherwise.
    pub fn ready_volley(&self, index: usize) -> (shots: usize)
        requires
            index < self.players@.len(),
        ensures
            shots == volley_ready(self@, index as int),
            shots == 0 || shots == spec_player_fire_caps(self.chaos_mode).0,
            shots != 0 <==> (self.players@[index as int].entity is Some && self.players@[index as int].bullets@.len()
                + spec_player_fire_caps(self.chaos_mode).0 <= spec_player_fire_caps(self.chaos_mode).1),
    {
        proof {
            lemma_roster_view(self.players@);
        }
        let (shots, max_live) = player_fire_caps(self.chaos_mode);
        if !volley_fits(self.players[index].bullets.len(), shots, max_live) {
            return 0;
        }
        if self.players[index].entity.is_none() {
            return 0;
        }
        shots
    }
}

} // verus!
