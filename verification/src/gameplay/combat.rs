//! Shooting and hit resolution: the cannons' trigger discipline, invader
//! return fire, and what happens when bullets meet things.

use vstd::prelude::*;

use crate::constants::{
    INSANE_MAX_PLAYER_BULLETS, INSICULOUS_MAX_PLAYER_BULLETS, MAX_PLAYER_BULLETS,
    RIDICULOUS_MAX_PLAYER_BULLETS,
};
use crate::achievements::{lemma_win_unlocks_laws, roster_lives, unlock_effects, win_unlocks, AchievementId};
use crate::gameplay::flow::{despawn_all, disarm_roster, lemma_no_roster_bullets, lemma_wind_down_clears, wind_down};
use crate::gameplay::players::{
    lemma_owned_bullets, lemma_owned_bullets_members, lemma_retire_shots, lemma_streak_fits_prefix, owned_bullet_list, owned_bullets, retire_shot,
    retire_shots, streak_fits, streak_room, take_hit,
};
use crate::gameplay::{
    entities, first_where, lemma_filter_agree, lemma_filter_keeps_all, lemma_filter_subset, lemma_filter_twice, lemma_first_touched, lemma_first_where, first_invader_touched, first_touched, first_touched_index, other_than, remove_all, started_contact, touched,
    Contact, Effect,
};
use crate::spawning::{invader_value, spec_invader_value};
use crate::types::{lemma_roster_view, lemma_roster_view_update, roster_view, ChaosMode, GameState, GameView, Invader, PlayerState, PlayerView, SpaceInvadersGame};

verus! {

/// Which live column returns fire, from a pseudo-random draw: the draw
/// wraps over the live columns.
pub fn pick_shooter_column(live_cols: &[usize], rand: u32) -> (col: usize)
    requires
        live_cols@.len() > 0,
    ensures
        col == live_cols@[(rand as int) % (live_cols@.len() as int)],
        live_cols@.contains(col),
{
    let i = rand as usize % live_cols.len();
    live_cols[i]
}

/// The trigger discipline of a chaos mode: `(shots_per_fire, max_live_bullets)`.
pub open spec fn spec_player_fire_caps(mode: ChaosMode) -> (usize, usize) {
    match mode {
        ChaosMode::Normal => (1, MAX_PLAYER_BULLETS),
        ChaosMode::Insane => (1, INSANE_MAX_PLAYER_BULLETS),
        ChaosMode::Ridiculous => (2, RIDICULOUS_MAX_PLAYER_BULLETS),
        ChaosMode::Insiculous => (2, INSICULOUS_MAX_PLAYER_BULLETS),
    }
}

/// The player's trigger discipline for a chaos mode:
/// `(shots_per_fire, max_live_bullets)`.
///
/// Normal keeps the classic one-bullet-in-flight rule. Insane compensates
/// for the faster fleet with more single shots on screen. Ridiculous
/// answers the relentless fire with twin cannons, one volley in flight.
/// Insiculous faces both fleet buffs, so it gets twin cannons AND stacked
/// volleys. A volley always fits under its own cap.
pub fn player_fire_caps(mode: ChaosMode) -> (caps: (usize, usize))
    ensures
        caps == spec_player_fire_caps(mode),
        1 <= caps.0 <= caps.1,
        caps.0 == (if mode.spec_is_ridiculous() { 2usize } else { 1usize }),
{
    match mode {
        ChaosMode::Normal => (1, MAX_PLAYER_BULLETS),
        ChaosMode::Insane => (1, INSANE_MAX_PLAYER_BULLETS),
        ChaosMode::Ridiculous => (2, RIDICULOUS_MAX_PLAYER_BULLETS),
        ChaosMode::Insiculous => (2, INSICULOUS_MAX_PLAYER_BULLETS),
    }
}

/// The trigger discipline of each chaos mode, in numbers: Normal fires one
/// bullet with one in flight; Insane one bullet with four in flight;
/// Ridiculous a twin volley with one volley in flight; Insiculous a twin
/// volley with three volleys in flight.
pub proof fn lemma_fire_caps_values()
    ensures
        spec_player_fire_caps(ChaosMode::Normal) == (1usize, 1usize),
        spec_player_fire_caps(ChaosMode::Insane) == (1usize, 4usize),
        spec_player_fire_caps(ChaosMode::Ridiculous) == (2usize, 2usize),
        spec_player_fire_caps(ChaosMode::Insiculous) == (2usize, 6usize),
{
}

/// `cols` lists the columns that still hold an invader, each once, left to
/// right.
pub open spec fn is_live_columns(invaders: Seq<Invader>, cols: Seq<usize>) -> bool {
    &&& forall|a: int, b: int| 0 <= a < b < cols.len() ==> cols[a] < cols[b]
    &&& forall|c: usize| cols.contains(c) <==> exists|k: int| 0 <= k < invaders.len() && #[trigger] invaders[k].col == c
}

/// Two left-to-right lists without repeats that hold the same columns are
/// the same list.
pub proof fn lemma_sorted_unique(a: Seq<usize>, b: Seq<usize>)
    requires
        forall|i: int, j: int| 0 <= i < j < a.len() ==> a[i] < a[j],
        forall|i: int, j: int| 0 <= i < j < b.len() ==> b[i] < b[j],
        forall|c: usize| a.contains(c) <==> b.contains(c),
    ensures
        a == b,
    decreases a.len() + b.len(),
{
    if a.len() == 0 {
        if b.len() > 0 {
            assert(b.contains(b[0]));
        }
        assert(a =~= b);
    } else if b.len() == 0 {
        assert(a.contains(a[0]));
    } else {
        assert(a.contains(a[0]));
        assert(b.contains(b[0]));
        let ia = choose|i: int| 0 <= i < a.len() && a[i] == b[0];
        let ib = choose|i: int| 0 <= i < b.len() && b[i] == a[0];
        assert(a[0] == b[0]) by {
            if a[0] < b[0] {
                assert(b[ib] >= b[0]);
            } else if b[0] < a[0] {
                assert(a[ia] >= a[0]);
            }
        }
        let ra = a.drop_first();
        let rb = b.drop_first();
        assert forall|c: usize| ra.contains(c) <==> rb.contains(c) by {
            if ra.contains(c) {
                let i = choose|i: int| 0 <= i < ra.len() && ra[i] == c;
                assert(a[i + 1] == c);
                assert(a.contains(c));
                let j = choose|j: int| 0 <= j < b.len() && b[j] == c;
                assert(j != 0);
                assert(rb[j - 1] == c);
            }
            if rb.contains(c) {
                let i = choose|i: int| 0 <= i < rb.len() && rb[i] == c;
                assert(b[i + 1] == c);
                assert(b.contains(c));
                let j = choose|j: int| 0 <= j < a.len() && a[j] == c;
                assert(j != 0);
                assert(ra[j - 1] == c);
            }
        }
        lemma_sorted_unique(ra, rb);
        assert(a =~= b) by {
            assert forall|i: int| 0 <= i < a.len() implies a[i] == b[i] by {
                if i > 0 {
                    assert(a[i] == ra[i - 1]);
                    assert(b[i] == rb[i - 1]);
                }
            }
        }
    }
}

/// The columns that still hold an invader, each once, left to right.
pub open spec fn spec_live_columns(invaders: Seq<Invader>) -> Seq<usize> {
    choose|cols: Seq<usize>| is_live_columns(invaders, cols)
}

/// The columns that still hold an invader, each once, left to right.
pub fn live_columns(invaders: &[Invader]) -> (cols: Vec<usize>)
    ensures
        is_live_columns(invaders@, cols@),
        cols@ == spec_live_columns(invaders@),
{
    let mut cols: Vec<usize> = Vec::new();
    let mut i: usize = 0;
    while i < invaders.len()
        invariant
            i <= invaders@.len(),
            forall|a: int, b: int| 0 <= a < b < cols@.len() ==> cols@[a] < cols@[b],
            forall|c: usize| cols@.contains(c) <==> exists|k: int| 0 <= k < i && #[trigger] invaders@[k].col == c,
        decreases invaders@.len() - i,
    {
        let c = invaders[i].col;
        let mut pos: usize = 0;
        while pos < cols.len() && cols[pos] < c
            invariant
                pos <= cols@.len(),
                forall|q: int| 0 <= q < pos ==> cols@[q] < c,
            decreases cols@.len() - pos,
        {
            pos = pos + 1;
        }
        let ghost before = cols@;
        if pos < cols.len() && cols[pos] == c {
            proof {
                assert forall|x: usize| cols@.contains(x) <==> exists|k: int| 0 <= k < i + 1 && #[trigger] invaders@[k].col == x by {
                    if x == c {
                        assert(cols@[pos as int] == x);
                        assert(invaders@[i as int].col == x);
                    }
                    if exists|k: int| 0 <= k < i + 1 && #[trigger] invaders@[k].col == x {
                        let k = choose|k: int| 0 <= k < i + 1 && #[trigger] invaders@[k].col == x;
                        if k < i {
                            assert(exists|k2: int| 0 <= k2 < i && #[trigger] invaders@[k2].col == x);
                        } else {
                            assert(cols@[pos as int] == x);
                        }
                    }
                }
            }
        } else {
            cols.insert(pos, c);
            proof {
                assert forall|a: int, b: int| 0 <= a < b < cols@.len() implies cols@[a] < cols@[b] by {
                    if b < pos {
                        assert(cols@[a] == before[a] && cols@[b] == before[b]);
                    } else if b == pos {
                        assert(cols@[a] == before[a]);
                    } else if a < pos {
                        assert(cols@[a] == before[a] && cols@[b] == before[b - 1]);
                        assert(before[b - 1] >= c) by {
                            if before[b - 1] < c {
                                assert(before[pos as int] <= before[b - 1]);
                            }
                        }
                    } else if a == pos {
                        assert(cols@[b] == before[b - 1]);
                        assert(before[pos as int] <= before[b - 1]);
                    } else {
                        assert(cols@[a] == before[a - 1] && cols@[b] == before[b - 1]);
                    }
                }
                assert forall|x: usize| cols@.contains(x) <==> exists|k: int| 0 <= k < i + 1 && #[trigger] invaders@[k].col == x by {
                    if cols@.contains(x) {
                        let q = choose|q: int| 0 <= q < cols@.len() && cols@[q] == x;
                        if q < pos {
                            assert(before[q] == x);
                            assert(before.contains(x));
                        } else if q == pos {
                            assert(invaders@[i as int].col == x);
                        } else {
                            assert(before[q - 1] == x);
                            assert(before.contains(x));
                        }
                    }
                    if exists|k: int| 0 <= k < i + 1 && #[trigger] invaders@[k].col == x {
                        let k = choose|k: int| 0 <= k < i + 1 && #[trigger] invaders@[k].col == x;
                        if k < i {
                            assert(exists|k2: int| 0 <= k2 < i && #[trigger] invaders@[k2].col == x);
                            assert(before.contains(x));
                            let q = choose|q: int| 0 <= q < before.len() && before[q] == x;
                            if q < pos {
                                assert(cols@[q] == x);
                            } else {
                                assert(cols@[q + 1] == x);
                            }
                        } else {
                            assert(cols@[pos as int] == x);
                        }
                    }
                }
            }
        }
        i = i + 1;
    }
    proof {
        assert(is_live_columns(invaders@, cols@));
        let s = spec_live_columns(invaders@);
        assert(is_live_columns(invaders@, s));
        lemma_sorted_unique(cols@, s);
    }
    cols
}

/// Invader `k` is the bottom-most of column `col`: it has the highest row
/// there, and it is the last such in the list when rows tie.
pub open spec fn is_bottom_of(invaders: Seq<Invader>, col: usize, k: int) -> bool {
    &&& 0 <= k < invaders.len()
    &&& invaders[k].col == col
    &&& forall|j: int| 0 <= j < invaders.len() && #[trigger] invaders[j].col == col ==> invaders[j].row <= invaders[k].row
    &&& forall|j: int| k < j < invaders.len() && #[trigger] invaders[j].col == col ==> invaders[j].row < invaders[k].row
}

/// The live column that returns fire for the pseudo-random draw `rand`.
pub open spec fn shooter_column(invaders: Seq<Invader>, rand: u32) -> usize {
    let cols = spec_live_columns(invaders);
    cols[(rand as int) % (cols.len() as int)]
}

/// What one player bullet did this frame.
#[derive(Debug, Clone, Copy, PartialEq, Eq, Structural)]
pub enum Shot {
    /// It killed this invader.
    Kill(Invader),
    /// It ate this barrier block.
    Chip(u64),
    /// It touched nothing.
    Miss,
}

/// The barrier blocks after `bullet` ate the first block it touched, and
/// that block, if any. Every entry of the block's id goes.
pub open spec fn chip(blocks: Seq<u64>, bullet: u64, contacts: Seq<Contact>) -> (Seq<u64>, Option<u64>) {
    let j = first_touched(blocks, bullet, contacts);
    if j < blocks.len() {
        (blocks.filter(other_than(blocks[j])), Some(blocks[j]))
    } else {
        (blocks, None)
    }
}

/// What `bullet` does to the fleet and the barriers: it kills the first
/// invader it touched; failing that it eats the first barrier block it
/// touched; failing that it flies on.
pub open spec fn strike(invaders: Seq<Invader>, blocks: Seq<u64>, bullet: u64, contacts: Seq<Contact>) -> (
    Seq<Invader>,
    Seq<u64>,
    Shot,
) {
    let i = first_touched(entities(invaders), bullet, contacts);
    if i < invaders.len() {
        (invaders.remove(i), blocks, Shot::Kill(invaders[i]))
    } else {
        let c = chip(blocks, bullet, contacts);
        match c.1 {
            Some(b) => (invaders, c.0, Shot::Chip(b)),
            None => (invaders, blocks, Shot::Miss),
        }
    }
}

/// The fleet, the barriers, and what each bullet did, after the `bullets`
/// strike in order.
pub open spec fn volley(invaders: Seq<Invader>, blocks: Seq<u64>, bullets: Seq<u64>, contacts: Seq<Contact>) -> (
    Seq<Invader>,
    Seq<u64>,
    Seq<Shot>,
)
    decreases bullets.len(),
{
    if bullets.len() == 0 {
        (invaders, blocks, Seq::empty())
    } else {
        let prev = volley(invaders, blocks, bullets.drop_last(), contacts);
        let s = strike(prev.0, prev.1, bullets.last(), contacts);
        (s.0, s.1, prev.2.push(s.2))
    }
}

/// What a shot shows in the world.
pub open spec fn shot_effects(shot: Shot) -> Seq<Effect> {
    match shot {
        Shot::Kill(invader) => seq![Effect::InvaderKilled(invader)],
        Shot::Chip(block) => seq![Effect::BlockChipped(block)],
        Shot::Miss => Seq::empty(),
    }
}

/// What the shots show in the world, in order.
pub open spec fn volley_effects(shots: Seq<Shot>) -> Seq<Effect>
    decreases shots.len(),
{
    if shots.len() == 0 {
        Seq::empty()
    } else {
        volley_effects(shots.drop_last()) + shot_effects(shots.last())
    }
}

/// The points the kills among `shots` pay.
pub open spec fn kill_points(shots: Seq<Shot>) -> int
    decreases shots.len(),
{
    if shots.len() == 0 {
        0
    } else {
        kill_points(shots.drop_last()) + match shots.last() {
            Shot::Kill(invader) => spec_invader_value(invader.row as int) as int,
            _ => 0,
        }
    }
}

/// The spent bullets among `bullets` (whose shots are `shots`), in order,
/// each with whether it killed.
pub open spec fn spent_bullets(bullets: Seq<u64>, shots: Seq<Shot>) -> Seq<(u64, bool)>
    decreases bullets.len(),
{
    if bullets.len() == 0 || shots.len() == 0 {
        Seq::empty()
    } else {
        let rest = spent_bullets(bullets.drop_last(), shots.drop_last());
        match shots.last() {
            Shot::Kill(_) => rest.push((bullets.last(), true)),
            Shot::Chip(_) => rest.push((bullets.last(), false)),
            Shot::Miss => rest,
        }
    }
}

/// `bullet` eats the first barrier block it touched, if any; the flag says
/// whether the bullet is spent.
pub open spec fn chip_barrier(g: GameView, bullet: u64, contacts: Seq<Contact>) -> (GameView, Seq<Effect>, bool) {
    let c = chip(g.barrier_blocks, bullet, contacts);
    match c.1 {
        Some(block) => (GameView { barrier_blocks: c.0, ..g }, seq![Effect::BlockChipped(block)], true),
        None => (g, Seq::empty(), false),
    }
}

/// Cannon `index`'s bullets strike in order (kills pay that cannon), then
/// every spent bullet is retired in order.
pub open spec fn cannon_volley(g: GameView, index: int, contacts: Seq<Contact>) -> (GameView, Seq<Effect>) {
    let p = g.players[index];
    let v = volley(g.invaders, g.barrier_blocks, p.bullets, contacts);
    let scored = GameView {
        invaders: v.0,
        barrier_blocks: v.1,
        players: g.players.update(index, PlayerView { score: (p.score + kill_points(v.2)) as u32, ..p }),
        ..g
    };
    let r = retire_shots(scored, index, spent_bullets(p.bullets, v.2));
    (r.0, volley_effects(v.2) + r.1)
}

/// Everything but the fleet, the barriers and cannon `index`'s bullets,
/// score and streak is left as it was by `cannon_volley`.
pub proof fn lemma_cannon_volley_frame(g: GameView, index: int, contacts: Seq<Contact>)
    requires
        0 <= index < g.players.len(),
    ensures
        ({
            let r = cannon_volley(g, index, contacts).0;
            &&& r == (GameView { invaders: r.invaders, barrier_blocks: r.barrier_blocks, players: r.players, ..g })
            &&& r.players.len() == g.players.len()
            &&& forall|j: int| 0 <= j < g.players.len() && j != index ==> #[trigger] r.players[j] == g.players[j]
            &&& r.players[index].entity == g.players[index].entity
            &&& r.players[index].lives == g.players[index].lives
            &&& r.invaders == volley(g.invaders, g.barrier_blocks, g.players[index].bullets, contacts).0
            &&& r.barrier_blocks == volley(g.invaders, g.barrier_blocks, g.players[index].bullets, contacts).1
        }),
{
    let p = g.players[index];
    let v = volley(g.invaders, g.barrier_blocks, p.bullets, contacts);
    let scored = GameView {
        invaders: v.0,
        barrier_blocks: v.1,
        players: g.players.update(index, PlayerView { score: (p.score + kill_points(v.2)) as u32, ..p }),
        ..g
    };
    lemma_retire_shots(scored, index, spent_bullets(p.bullets, v.2));
}

/// The bullets of every cannon, cannon by cannon in index order, for the
/// first `n` cannons.
pub open spec fn all_cannons(g: GameView, contacts: Seq<Contact>, n: int) -> (GameView, Seq<Effect>)
    decreases n,
{
    if n <= 0 {
        (g, Seq::empty())
    } else {
        let prev = all_cannons(g, contacts, n - 1);
        let c = cannon_volley(prev.0, n - 1, contacts);
        (c.0, prev.1 + c.1)
    }
}

/// After the first `n` cannons' volleys, only the fleet, the barriers and
/// those cannons changed.
pub proof fn lemma_all_cannons_frame(g: GameView, contacts: Seq<Contact>, n: int)
    requires
        0 <= n <= g.players.len(),
    ensures
        ({
            let a = all_cannons(g, contacts, n).0;
            &&& a == (GameView { invaders: a.invaders, barrier_blocks: a.barrier_blocks, players: a.players, ..g })
            &&& a.players.len() == g.players.len()
            &&& forall|j: int| n <= j < g.players.len() ==> #[trigger] a.players[j] == g.players[j]
        }),
    decreases n,
{
    if n > 0 {
        lemma_all_cannons_frame(g, contacts, n - 1);
        lemma_cannon_volley_frame(all_cannons(g, contacts, n - 1).0, n - 1, contacts);
    }
}

/// Index of the first cannon (by index) with a body that `bullet` started
/// touching, or `players.len()` when it touched none.
pub open spec fn first_cannon_touched(players: Seq<PlayerView>, bullet: u64, contacts: Seq<Contact>) -> int
    decreases players.len(),
{
    if players.len() == 0 {
        0
    } else if players[0].entity matches Some(e) && touched(contacts, bullet, e) {
        0
    } else {
        1 + first_cannon_touched(players.drop_first(), bullet, contacts)
    }
}

/// `first_cannon_touched` is the least touched cannon, or the roster size.
pub proof fn lemma_first_cannon_touched(players: Seq<PlayerView>, bullet: u64, contacts: Seq<Contact>)
    ensures
        0 <= first_cannon_touched(players, bullet, contacts) <= players.len(),
        forall|j: int|
            0 <= j < first_cannon_touched(players, bullet, contacts) ==> !(#[trigger] players[j].entity matches Some(
                e,
            ) && touched(contacts, bullet, e)),
        first_cannon_touched(players, bullet, contacts) < players.len() ==> (players[first_cannon_touched(
            players,
            bullet,
            contacts,
        )].entity matches Some(e) && touched(contacts, bullet, e)),
    decreases players.len(),
{
    if players.len() > 0 && !(players[0].entity matches Some(e) && touched(contacts, bullet, e)) {
        let rest = players.drop_first();
        lemma_first_cannon_touched(rest, bullet, contacts);
        assert forall|j: int|
            0 <= j < first_cannon_touched(players, bullet, contacts) implies !(#[trigger] players[j].entity matches Some(
                e,
            ) && touched(contacts, bullet, e)) by {
            if j > 0 {
                assert(players[j] == rest[j - 1]);
            }
        }
    }
}

/// The invader bullets `bullets` strike in order: each one that touched a
/// cannon's body is spent on the first such cannon; otherwise it eats the
/// first barrier block it touched. Returns the session, the spent bullets,
/// the cannons hit (one entry per hit, in order) and the effects shown.
pub open spec fn enemy_fire(g: GameView, bullets: Seq<u64>, contacts: Seq<Contact>) -> (
    GameView,
    Seq<u64>,
    Seq<usize>,
    Seq<Effect>,
)
    decreases bullets.len(),
{
    if bullets.len() == 0 {
        (g, Seq::empty(), Seq::empty(), Seq::empty())
    } else {
        let prev = enemy_fire(g, bullets.drop_last(), contacts);
        let b = bullets.last();
        let c = first_cannon_touched(prev.0.players, b, contacts);
        if c < prev.0.players.len() {
            (prev.0, prev.1.push(b), prev.2.push(c as usize), prev.3)
        } else {
            let ch = chip_barrier(prev.0, b, contacts);
            if ch.2 {
                (ch.0, prev.1.push(b), prev.2, prev.3 + ch.1)
            } else {
                prev
            }
        }
    }
}

/// Enemy fire only eats barrier blocks, and only hits cannons of the roster.
pub proof fn lemma_enemy_fire_frame(g: GameView, bullets: Seq<u64>, contacts: Seq<Contact>)
    ensures
        ({
            let e = enemy_fire(g, bullets, contacts);
            &&& e.0 == (GameView { barrier_blocks: e.0.barrier_blocks, ..g })
            &&& forall|k: int| 0 <= k < e.2.len() ==> #[trigger] e.2[k] < g.players.len()
            &&& e.1.len() <= bullets.len()
        }),
    decreases bullets.len(),
{
    if bullets.len() > 0 {
        lemma_enemy_fire_frame(g, bullets.drop_last(), contacts);
        let prev = enemy_fire(g, bullets.drop_last(), contacts);
        let e = enemy_fire(g, bullets, contacts);
        assert(prev.0.players == g.players);
        lemma_first_cannon_touched(prev.0.players, bullets.last(), contacts);
        assert forall|k: int| 0 <= k < e.2.len() implies #[trigger] e.2[k] < g.players.len() by {
            if k < prev.2.len() {
                assert(e.2[k] == prev.2[k]);
            }
        }
    }
}

/// `ids` with every entry of each id of `gone` dropped, one id after the other.
pub open spec fn drop_each(ids: Seq<u64>, gone: Seq<u64>) -> Seq<u64>
    decreases gone.len(),
{
    if gone.len() == 0 {
        ids
    } else {
        drop_each(ids, gone.drop_last()).filter(other_than(gone.last()))
    }
}

/// Cannons `hit` take their hits in order.
pub open spec fn take_hits(g: GameView, hit: Seq<usize>) -> (GameView, Seq<Effect>)
    decreases hit.len(),
{
    if hit.len() == 0 {
        (g, Seq::empty())
    } else {
        let prev = take_hits(g, hit.drop_last());
        let h = take_hit(prev.0, hit.last());
        (h.0, prev.1 + h.1)
    }
}

/// Taking hits keeps the roster's size.
pub proof fn lemma_take_hits_len(g: GameView, hit: Seq<usize>)
    requires
        forall|k: int| 0 <= k < hit.len() ==> #[trigger] hit[k] < g.players.len(),
    ensures
        take_hits(g, hit).0.players.len() == g.players.len(),
    decreases hit.len(),
{
    if hit.len() > 0 {
        lemma_take_hits_len(g, hit.drop_last());
        let prev = take_hits(g, hit.drop_last());
        assert(disarm_roster(prev.0.players).len() == prev.0.players.len());
        lemma_no_roster_bullets(disarm_roster(prev.0.players));
    }
}

/// The fleet's bullets strike (see `enemy_fire`), the spent ones go, then
/// every cannon hit takes its hit.
pub open spec fn invader_volley(g: GameView, contacts: Seq<Contact>) -> (GameView, Seq<Effect>) {
    let e = enemy_fire(g, g.invader_bullets, contacts);
    let d = GameView { invader_bullets: drop_each(g.invader_bullets, e.1), ..e.0 };
    let h = take_hits(d, e.2);
    (h.0, e.3 + despawn_all(e.1) + h.1)
}

/// This frame's started contacts, resolved: each cannon's own bullets
/// first, cannon by cannon (see `cannon_volley`), then the fleet's bullets
/// (see `invader_volley`).
pub open spec fn resolve_hits(g: GameView, contacts: Seq<Contact>) -> (GameView, Seq<Effect>) {
    let a = all_cannons(g, contacts, g.players.len() as int);
    let b = invader_volley(a.0, contacts);
    (b.0, a.1 + b.1)
}

/// Cannon `index`'s volley pays within range: the points of its kills fit
/// its score, and retiring its spent bullets never overflows its streak.
pub open spec fn volley_pays_fit(g: GameView, index: int, contacts: Seq<Contact>) -> bool {
    let p = g.players[index];
    let v = volley(g.invaders, g.barrier_blocks, p.bullets, contacts);
    &&& p.score + kill_points(v.2) <= u32::MAX
    &&& streak_fits(p.shot_streak as int, spent_bullets(p.bullets, v.2))
}

/// Every cannon's volley, in its turn (after the cannons before it), pays
/// within range (see `volley_pays_fit`).
pub open spec fn hits_pay_fit(g: GameView, contacts: Seq<Contact>) -> bool {
    forall|k: int| 0 <= k < g.players.len() ==> #[trigger] volley_pays_fit(all_cannons(g, contacts, k).0, k, contacts)
}

/// The kills of a prefix of the shots pay no more than all of them.
pub proof fn lemma_kill_points_prefix(shots: Seq<Shot>, n: int)
    requires
        0 <= n <= shots.len(),
    ensures
        0 <= kill_points(shots.take(n)) <= kill_points(shots),
    decreases shots.len(),
{
    if shots.len() == 0 {
        assert(shots.take(n) =~= shots);
    } else if n == shots.len() {
        lemma_kill_points_prefix(shots.drop_last(), n - 1);
        assert(shots.drop_last().take(n - 1) =~= shots.drop_last());
        assert(shots.take(n) =~= shots);
    } else {
        lemma_kill_points_prefix(shots.drop_last(), n);
        assert(shots.drop_last().take(n) =~= shots.take(n));
    }
}

/// The shots of a prefix of the bullets are the prefix of the shots.
pub proof fn lemma_volley_prefix(invaders: Seq<Invader>, blocks: Seq<u64>, bullets: Seq<u64>, contacts: Seq<Contact>, n: int)
    requires
        0 <= n <= bullets.len(),
    ensures
        volley(invaders, blocks, bullets.take(n), contacts).2 == volley(invaders, blocks, bullets, contacts).2.take(n),
        volley(invaders, blocks, bullets, contacts).2.len() == bullets.len(),
    decreases bullets.len(),
{
    if bullets.len() > 0 {
        lemma_volley_prefix(invaders, blocks, bullets.drop_last(), contacts, if n == bullets.len() { 0 } else { n });
    }
    if n == bullets.len() {
        assert(bullets.take(n) =~= bullets);
        assert(volley(invaders, blocks, bullets, contacts).2.take(n) =~= volley(invaders, blocks, bullets, contacts).2);
    } else {
        assert(bullets.drop_last().take(n) =~= bullets.take(n));
        let full = volley(invaders, blocks, bullets, contacts).2;
        assert(full.drop_last() == volley(invaders, blocks, bullets.drop_last(), contacts).2);
        assert(full.drop_last().take(n) =~= full.take(n));
    }
}

/// The bullets `bullets` strike the fleet `invaders` and the barriers
/// `blocks` in order (see `volley`); returns what each bullet did.
fn run_volley(invaders: &mut Vec<Invader>, blocks: &mut Vec<u64>, bullets: &[u64], contacts: &[Contact]) -> (shots: Vec<Shot>)
    ensures
        final(invaders)@ == volley(old(invaders)@, old(blocks)@, bullets@, contacts@).0,
        final(blocks)@ == volley(old(invaders)@, old(blocks)@, bullets@, contacts@).1,
        shots@ == volley(old(invaders)@, old(blocks)@, bullets@, contacts@).2,
{
    let ghost inv0 = invaders@;
    let ghost blk0 = blocks@;
    let mut shots: Vec<Shot> = Vec::new();
    let mut i: usize = 0;
    while i < bullets.len()
        invariant
            i <= bullets@.len(),
            inv0 == old(invaders)@,
            blk0 == old(blocks)@,
            ({
                let v = volley(inv0, blk0, bullets@.take(i as int), contacts@);
                &&& invaders@ == v.0
                &&& blocks@ == v.1
                &&& shots@ == v.2
            }),
        decreases bullets@.len() - i,
    {
        let bullet = bullets[i];
        proof {
            assert(bullets@.take(i + 1).drop_last() =~= bullets@.take(i as int));
            assert(bullets@.take(i + 1).last() == bullet);
        }
        let k = first_invader_touched(invaders.as_slice(), bullet, contacts);
        if k < invaders.len() {
            assert(entities(invaders@)[k as int] == invaders@[k as int].entity);
            let invader = invaders.remove(k);
            shots.push(Shot::Kill(invader));
        } else {
            let j = first_touched_index(blocks.as_slice(), bullet, contacts);
            if j < blocks.len() {
                let block = blocks[j];
                remove_all(blocks, block);
                shots.push(Shot::Chip(block));
            } else {
                shots.push(Shot::Miss);
            }
        }
        i = i + 1;
    }
    assert(bullets@.take(bullets@.len() as int) =~= bullets@);
    shots
}

/// The spent bullets among `bullets`, whose shots are `shots`, in order,
/// each with whether it killed (see `spent_bullets`).
fn spent_list(bullets: &[u64], shots: &[Shot]) -> (spent: Vec<(u64, bool)>)
    requires
        bullets@.len() == shots@.len(),
    ensures
        spent@ == spent_bullets(bullets@, shots@),
{
    let mut spent: Vec<(u64, bool)> = Vec::new();
    let mut i: usize = 0;
    while i < bullets.len()
        invariant
            i <= bullets@.len(),
            bullets@.len() == shots@.len(),
            spent@ == spent_bullets(bullets@.take(i as int), shots@.take(i as int)),
        decreases bullets@.len() - i,
    {
        proof {
            assert(bullets@.take(i + 1).drop_last() =~= bullets@.take(i as int));
            assert(shots@.take(i + 1).drop_last() =~= shots@.take(i as int));
            assert(bullets@.take(i + 1).last() == bullets@[i as int]);
            assert(shots@.take(i + 1).last() == shots@[i as int]);
        }
        match shots[i] {
            Shot::Kill(_) => spent.push((bullets[i], true)),
            Shot::Chip(_) => spent.push((bullets[i], false)),
            Shot::Miss => {},
        }
        i = i + 1;
    }
    assert(bullets@.take(bullets@.len() as int) =~= bullets@);
    assert(shots@.take(shots@.len() as int) =~= shots@);
    spent
}

/// Whether the kills among `shots` fit in a score of `score`.
fn points_room(score: u32, shots: &[Shot]) -> (fits: bool)
    ensures
        fits == (score + kill_points(shots@) <= u32::MAX),
{
    let mut total: u32 = score;
    let mut i: usize = 0;
    while i < shots.len()
        invariant
            i <= shots@.len(),
            total == score + kill_points(shots@.take(i as int)),
        decreases shots@.len() - i,
    {
        proof {
            assert(shots@.take(i + 1).drop_last() =~= shots@.take(i as int));
            assert(shots@.take(i + 1).last() == shots@[i as int]);
            lemma_kill_points_prefix(shots@, i + 1);
        }
        if let Shot::Kill(invader) = shots[i] {
            let value = invader_value(invader.row);
            if total > u32::MAX - value {
                return false;
            }
            total = total + value;
        }
        i = i + 1;
    }
    assert(shots@.take(shots@.len() as int) =~= shots@);
    true
}

impl SpaceInvadersGame {
    /// Destroy the first barrier block `bullet` reported a contact with.
    /// Returns true if the bullet is spent.
    pub fn bullet_chips_barrier(&mut self, bullet: u64, contacts: &[Contact], effects: &mut Vec<Effect>) -> (spent: bool)
        ensures
            final(self)@ == chip_barrier(old(self)@, bullet, contacts@).0,
            final(effects)@ == old(effects)@ + chip_barrier(old(self)@, bullet, contacts@).1,
            spent == chip_barrier(old(self)@, bullet, contacts@).2,
    {
        let j = first_touched_index(self.barrier_blocks.as_slice(), bullet, contacts);
        if j < self.barrier_blocks.len() {
            let block = self.barrier_blocks[j];
            effects.push(Effect::BlockChipped(block));
            let ghost before = self.barrier_blocks@;
            remove_all(&mut self.barrier_blocks, block);
            assert(self@ =~= chip_barrier(old(self)@, bullet, contacts@).0);
            true
        } else {
            assert(self@ =~= old(self)@);
            false
        }
    }

    /// Resolve the bullets belonging to cannon `index`: each bullet, in
    /// order, kills the first invader it touched (paying that cannon) or
    /// else eats the first barrier block it touched; every spent bullet is
    /// then retired, extending or resetting the streak.
    #[verifier::spinoff_prover]
    #[verifier::rlimit(40)]
    pub fn resolve_one_cannons_bullets(&mut self, index: usize, contacts: &[Contact], effects: &mut Vec<Effect>)
        requires
            index < old(self).players@.len(),
            volley_pays_fit(old(self)@, index as int, contacts@),
        ensures
            final(self)@ == cannon_volley(old(self)@, index as int, contacts@).0,
            final(effects)@ == old(effects)@ + cannon_volley(old(self)@, index as int, contacts@).1,
    {
        let ghost g = self@;
        let ghost start_effects = effects@;
        proof {
            lemma_roster_view(self.players@);
        }
        let ghost p = g.players[index as int];
        let bullets: Vec<u64> = self.players[index].bullets.clone();
        assert(bullets@ =~= p.bullets);
        let ghost v = volley(g.invaders, g.barrier_blocks, p.bullets, contacts@);

        let mut invaders: Vec<Invader> = Vec::new();
        std::mem::swap(&mut invaders, &mut self.invaders);
        let mut blocks: Vec<u64> = Vec::new();
        std::mem::swap(&mut blocks, &mut self.barrier_blocks);
        let shots = run_volley(&mut invaders, &mut blocks, bullets.as_slice(), contacts);
        self.invaders = invaders;
        self.barrier_blocks = blocks;
        proof {
            lemma_volley_prefix(g.invaders, g.barrier_blocks, p.bullets, contacts@, 0);
            assert(self@ =~= (GameView { invaders: v.0, barrier_blocks: v.1, ..g }));
            assert(v.2.take(0) =~= Seq::<Shot>::empty());
            assert(g.players.update(index as int, PlayerView { score: p.score, ..p }) =~= g.players);
        }

        let mut i: usize = 0;
        while i < shots.len()
            invariant
                i <= shots@.len(),
                shots@ == v.2,
                index < self.players@.len(),
                self.players@.len() == g.players.len(),
                p == g.players[index as int],
                p.score + kill_points(v.2) <= u32::MAX,
                self@ == (GameView {
                    invaders: v.0,
                    barrier_blocks: v.1,
                    players: g.players.update(
                        index as int,
                        PlayerView { score: (p.score + kill_points(v.2.take(i as int))) as u32, ..p },
                    ),
                    ..g
                }),
                effects@ == start_effects + volley_effects(v.2.take(i as int)),
            decreases shots@.len() - i,
        {
            proof {
                assert(v.2.take(i + 1).drop_last() =~= v.2.take(i as int));
                assert(v.2.take(i + 1).last() == v.2[i as int]);
                lemma_kill_points_prefix(v.2, i + 1);
                lemma_kill_points_prefix(v.2, i as int);
                lemma_roster_view(self.players@);
            }
            match shots[i] {
                Shot::Kill(invader) => {
                    effects.push(Effect::InvaderKilled(invader));
                    let value = invader_value(invader.row);
                    let ghost prev = self.players@;
                    proof {
                        lemma_roster_view_update(prev, index as int, prev[index as int]);
                        assert(self@.players[index as int] == prev[index as int]@);
                    }
                    self.players[index].score = self.players[index].score + value;
                    proof {
                        assert(self.players@ == prev.update(index as int, self.players@[index as int]));
                        lemma_roster_view_update(prev, index as int, self.players@[index as int]);
                    }
                },
                Shot::Chip(block) => {
                    effects.push(Effect::BlockChipped(block));
                },
                Shot::Miss => {},
            }
            proof {
                assert(self@.players =~= g.players.update(
                    index as int,
                    PlayerView { score: (p.score + kill_points(v.2.take(i + 1))) as u32, ..p },
                ));
                assert(effects@ =~= start_effects + volley_effects(v.2.take(i + 1)));
            }
            i = i + 1;
        }
        proof {
            assert(v.2.take(v.2.len() as int) =~= v.2);
        }
        let ghost scored = self@;
        let spent = spent_list(bullets.as_slice(), shots.as_slice());

        let mut j: usize = 0;
        while j < spent.len()
            invariant
                j <= spent@.len(),
                index < scored.players.len(),
                scored.players[index as int].shot_streak == p.shot_streak,
                streak_fits(p.shot_streak as int, spent@),
                self@ == retire_shots(scored, index as int, spent@.take(j as int)).0,
                effects@ == start_effects + volley_effects(v.2) + retire_shots(scored, index as int, spent@.take(j as int)).1,
            decreases spent@.len() - j,
        {
            proof {
                lemma_streak_fits_prefix(p.shot_streak as int, spent@, j as int);
                lemma_retire_shots(scored, index as int, spent@.take(j as int));
                assert(spent@.take(j + 1).drop_last() =~= spent@.take(j as int));
                lemma_roster_view(self.players@);
            }
            let (bullet, killed) = spent[j];
            self.finish_player_shot(index, bullet, killed, effects);
            proof {
                assert(effects@ =~= start_effects + volley_effects(v.2) + retire_shots(scored, index as int, spent@.take(j + 1)).1);
            }
            j = j + 1;
        }
        assert(spent@.take(spent@.len() as int) =~= spent@);
    }
}

/// Index of the first cannon (by index) with a body that `bullet` started
/// touching, or `players.len()` when it touched none.
pub fn first_cannon_touched_index(players: &[PlayerState], bullet: u64, contacts: &[Contact]) -> (r: usize)
    ensures
        r == first_cannon_touched(roster_view(players@), bullet, contacts@),
{
    let ghost roster = roster_view(players@);
    proof {
        lemma_first_cannon_touched(roster, bullet, contacts@);
        assert(roster.len() == players@.len());
    }
    let mut i: usize = 0;
    while i < players.len()
        invariant
            i <= players@.len(),
            roster == roster_view(players@),
            roster.len() == players@.len(),
            forall|j: int| 0 <= j < i ==> !(#[trigger] roster[j].entity matches Some(e) && touched(contacts@, bullet, e)),
        decreases players@.len() - i,
    {
        assert(roster[i as int] == players@[i as int]@);
        if let Some(e) = players[i].entity {
            if started_contact(contacts, bullet, e) {
                proof {
                    lemma_first_cannon_touched(roster, bullet, contacts@);
                }
                return i;
            }
        }
        i = i + 1;
    }
    proof {
        lemma_first_cannon_touched(roster, bullet, contacts@);
    }
    i
}

/// The invader bullets already paired off in `cs`.
pub open spec fn taken_theirs(cs: Seq<(usize, u64, u64)>) -> Seq<u64> {
    cs.map_values(|c: (usize, u64, u64)| c.2)
}

/// An invader bullet that player bullet `mine` crosses this frame and that
/// no earlier crossing of `taken` has claimed.
pub open spec fn crossing_pred(mine: u64, taken: Seq<(usize, u64, u64)>, overlaps: Seq<(u64, u64)>) -> spec_fn(u64) -> bool {
    |theirs: u64| !taken_theirs(taken).contains(theirs) && overlaps.contains((mine, theirs))
}

/// The crossings of this frame, each `(cannon, its bullet, invader bullet)`:
/// the owned bullets in order, each paired with the first invader bullet it
/// overlaps that no earlier crossing claimed. `overlaps` holds the
/// `(player bullet, invader bullet)` pairs whose boxes overlap.
pub open spec fn crossings(owned: Seq<(usize, u64)>, enemy: Seq<u64>, overlaps: Seq<(u64, u64)>) -> Seq<(usize, u64, u64)>
    decreases owned.len(),
{
    if owned.len() == 0 {
        Seq::empty()
    } else {
        let prev = crossings(owned.drop_last(), enemy, overlaps);
        let mine = owned.last().1;
        let t = first_where(enemy, crossing_pred(mine, prev, overlaps));
        if t < enemy.len() {
            prev.push((owned.last().0, mine, enemy[t]))
        } else {
            prev
        }
    }
}

/// Every crossing belongs to a cannon that owns a bullet.
pub proof fn lemma_crossings_owner(owned: Seq<(usize, u64)>, enemy: Seq<u64>, overlaps: Seq<(u64, u64)>, n: int)
    requires
        forall|k: int| 0 <= k < owned.len() ==> #[trigger] owned[k].0 < n,
    ensures
        forall|k: int|
            0 <= k < crossings(owned, enemy, overlaps).len() ==> #[trigger] crossings(owned, enemy, overlaps)[k].0 < n,
    decreases owned.len(),
{
    if owned.len() > 0 {
        assert(forall|k: int| 0 <= k < owned.drop_last().len() ==> #[trigger] owned.drop_last()[k] == owned[k]);
        lemma_crossings_owner(owned.drop_last(), enemy, overlaps, n);
        let prev = crossings(owned.drop_last(), enemy, overlaps);
        let cs = crossings(owned, enemy, overlaps);
        assert forall|k: int| 0 <= k < cs.len() implies #[trigger] cs[k].0 < n by {
            if k < prev.len() {
                assert(cs[k] == prev[k]);
            } else {
                assert(owned[owned.len() - 1].0 < n);
            }
        }
    }
}

/// Each crossing of `cs` in order: the player bullet is retired as a miss
/// (a cancel is not a kill) and the invader bullet goes.
pub open spec fn cancel_all(g: GameView, cs: Seq<(usize, u64, u64)>) -> (GameView, Seq<Effect>)
    decreases cs.len(),
{
    if cs.len() == 0 {
        (g, Seq::empty())
    } else {
        let prev = cancel_all(g, cs.drop_last());
        let c = cs.last();
        let r = retire_shot(prev.0, c.0 as int, c.1, false);
        (
            GameView { invader_bullets: r.0.invader_bullets.filter(other_than(c.2)), ..r.0 },
            prev.1 + r.1 + seq![Effect::Despawn(c.2)],
        )
    }
}

/// Cancelling keeps the roster's size.
pub proof fn lemma_cancel_all_len(g: GameView, cs: Seq<(usize, u64, u64)>)
    requires
        forall|k: int| 0 <= k < cs.len() ==> #[trigger] cs[k].0 < g.players.len(),
    ensures
        cancel_all(g, cs).0.players.len() == g.players.len(),
    decreases cs.len(),
{
    if cs.len() > 0 {
        assert(forall|k: int| 0 <= k < cs.drop_last().len() ==> #[trigger] cs.drop_last()[k] == cs[k]);
        lemma_cancel_all_len(g, cs.drop_last());
    }
}

/// Player bullets and invader bullets flying opposite ways cancel each
/// other in a flash (see `crossings`); nothing happens while the fleet has
/// no bullet in flight.
pub open spec fn cancel_crossings(g: GameView, overlaps: Seq<(u64, u64)>) -> (GameView, Seq<Effect>) {
    if g.invader_bullets.len() == 0 {
        (g, Seq::empty())
    } else {
        let cs = crossings(owned_bullets(g.players), g.invader_bullets, overlaps);
        let a = cancel_all(g, cs);
        (a.0, cs.map_values(|c: (usize, u64, u64)| Effect::BulletsCancelled(c.1)) + a.1)
    }
}

/// The player side of each crossing: the cannon and its bullet.
pub open spec fn mine_of(cs: Seq<(usize, u64, u64)>) -> Seq<(usize, u64)> {
    cs.map_values(|c: (usize, u64, u64)| (c.0, c.1))
}

/// Every crossing pairs a bullet `owned` holds with a bullet of `enemy` that
/// it overlaps, and no invader bullet is paired twice.
pub proof fn lemma_crossings_pair(owned: Seq<(usize, u64)>, enemy: Seq<u64>, overlaps: Seq<(u64, u64)>)
    ensures
        ({
            let cs = crossings(owned, enemy, overlaps);
            &&& taken_theirs(cs).no_duplicates()
            &&& forall|k: int|
                0 <= k < cs.len() ==> {
                    &&& overlaps.contains(((#[trigger] cs[k]).1, cs[k].2))
                    &&& enemy.contains(cs[k].2)
                    &&& owned.contains((cs[k].0, cs[k].1))
                }
        }),
    decreases owned.len(),
{
    if owned.len() > 0 {
        let rest = owned.drop_last();
        lemma_crossings_pair(rest, enemy, overlaps);
        let prev = crossings(rest, enemy, overlaps);
        let cs = crossings(owned, enemy, overlaps);
        let mine = owned.last().1;
        let pred = crossing_pred(mine, prev, overlaps);
        lemma_first_where(enemy, pred);
        let t = first_where(enemy, pred);
        if t < enemy.len() {
            assert(pred(enemy[t]));
            assert(taken_theirs(cs) =~= taken_theirs(prev).push(enemy[t]));
            assert(owned[owned.len() - 1] == owned.last());
        }
        assert forall|k: int| 0 <= k < cs.len() implies {
            &&& overlaps.contains(((#[trigger] cs[k]).1, cs[k].2))
            &&& enemy.contains(cs[k].2)
            &&& owned.contains((cs[k].0, cs[k].1))
        } by {
            if k < prev.len() {
                assert(cs[k] == prev[k]);
                let m = choose|m: int| 0 <= m < rest.len() && rest[m] == (prev[k].0, prev[k].1);
                assert(owned[m] == rest[m]);
            } else {
                assert(owned[owned.len() - 1] == (cs[k].0, cs[k].1));
            }
        }
    }
}

/// Cancelling the crossings `cs` retires their player bullets as misses
/// (see `miss_all`) and drops their invader bullets.
pub proof fn lemma_cancel_all_is_misses(g: GameView, cs: Seq<(usize, u64, u64)>)
    ensures
        ({
            let m = miss_all(g, mine_of(cs)).0;
            cancel_all(g, cs).0 == (GameView { invader_bullets: g.invader_bullets.filter(not_in(taken_theirs(cs))), ..m })
        }),
    decreases cs.len(),
{
    if cs.len() == 0 {
        lemma_filter_keeps_all(g.invader_bullets, not_in(taken_theirs(cs)));
    } else {
        let rest = cs.drop_last();
        let c = cs.last();
        lemma_cancel_all_is_misses(g, rest);
        assert(mine_of(cs).drop_last() =~= mine_of(rest));
        assert(mine_of(cs).last() == (c.0, c.1));
        assert(taken_theirs(cs) =~= taken_theirs(rest).push(c.2));
        lemma_filter_twice(g.invader_bullets, not_in(taken_theirs(rest)), other_than(c.2));
        assert((|x: u64| not_in(taken_theirs(rest))(x) && other_than(c.2)(x)) =~= not_in(taken_theirs(cs))) by {
            assert forall|x: u64| (not_in(taken_theirs(rest))(x) && other_than(c.2)(x)) == #[trigger] not_in(
                taken_theirs(cs),
            )(x) by {
                let tc = taken_theirs(cs);
                let tr = taken_theirs(rest);
                if tc.contains(x) {
                    let k = choose|k: int| 0 <= k < tc.len() && tc[k] == x;
                    if k < tr.len() {
                        assert(tr[k] == x);
                    }
                }
                if tr.contains(x) {
                    let k = choose|k: int| 0 <= k < tr.len() && tr[k] == x;
                    assert(tc[k] == x);
                }
                if x == c.2 {
                    assert(tc[tc.len() - 1] == x);
                }
            }
        }
    }
}

/// Crossing bullets cancel one for one, as direct laws: each crossing pairs
/// a bullet its cannon had in flight with an invader bullet it overlaps, no
/// invader bullet is paired twice; the fleet loses exactly the paired
/// invader bullets, each cannon exactly its paired bullets, a cannon's
/// streak resets exactly when it lost one, and the fleet, barriers, scores,
/// lives and bodies stay.
pub proof fn lemma_cancel_laws(g: GameView, overlaps: Seq<(u64, u64)>)
    requires
        g.players.len() <= usize::MAX,
    ensures
        ({
            let cs = crossings(owned_bullets(g.players), g.invader_bullets, overlaps);
            let r = cancel_crossings(g, overlaps).0;
            &&& taken_theirs(cs).no_duplicates()
            &&& forall|k: int|
                0 <= k < cs.len() ==> {
                    &&& overlaps.contains(((#[trigger] cs[k]).1, cs[k].2))
                    &&& g.invader_bullets.contains(cs[k].2)
                    &&& cs[k].0 < g.players.len()
                    &&& g.players[cs[k].0 as int].bullets.contains(cs[k].1)
                }
            &&& r == (GameView { players: r.players, invader_bullets: r.invader_bullets, ..g })
            &&& r.invader_bullets == g.invader_bullets.filter(not_in(taken_theirs(cs)))
            &&& r.players.len() == g.players.len()
            &&& forall|j: int| 0 <= j < g.players.len() ==> #[trigger] r.players[j] == after_misses(g.players[j], mine_of(cs), j)
        }),
{
    let owned = owned_bullets(g.players);
    let cs = crossings(owned, g.invader_bullets, overlaps);
    lemma_crossings_pair(owned, g.invader_bullets, overlaps);
    lemma_owned_bullets_members(g.players);
    assert forall|k: int| 0 <= k < cs.len() implies (#[trigger] cs[k]).0 < g.players.len()
        && g.players[cs[k].0 as int].bullets.contains(cs[k].1) by {
        let m = choose|m: int| 0 <= m < owned.len() && owned[m] == (cs[k].0, cs[k].1);
        assert(owned[m].0 < g.players.len());
    }
    let shots = mine_of(cs);
    assert forall|k: int| 0 <= k < shots.len() implies #[trigger] shots[k].0 < g.players.len() by {
        assert(shots[k].0 == cs[k].0);
    }
    lemma_miss_all_laws(g, shots);
    lemma_cancel_all_is_misses(g, cs);
    if g.invader_bullets.len() == 0 {
        if cs.len() > 0 {
            assert(g.invader_bullets.contains(cs[0].2));
        }
        assert(shots =~= Seq::<(usize, u64)>::empty());
        assert(g.invader_bullets.filter(not_in(taken_theirs(cs))) =~= g.invader_bullets) by {
            lemma_filter_keeps_all(g.invader_bullets, not_in(taken_theirs(cs)));
        }
        let m = miss_all(g, shots).0;
        assert(m == g);
        assert forall|j: int| 0 <= j < g.players.len() implies #[trigger] g.players[j] == after_misses(g.players[j], shots, j) by {
            assert(m.players[j] == after_misses(g.players[j], shots, j));
        }
    }
}

/// Is `(a, b)` one of `pairs`?
fn contains_pair(pairs: &[(u64, u64)], a: u64, b: u64) -> (r: bool)
    ensures
        r == pairs@.contains((a, b)),
{
    let mut k: usize = 0;
    while k < pairs.len()
        invariant
            k <= pairs@.len(),
            forall|j: int| 0 <= j < k ==> pairs@[j] != (a, b),
        decreases pairs@.len() - k,
    {
        if pairs[k].0 == a && pairs[k].1 == b {
            assert(pairs@[k as int] == (a, b));
            return true;
        }
        k = k + 1;
    }
    false
}

/// Has an earlier crossing of `cs` claimed invader bullet `theirs`?
fn already_taken(cs: &[(usize, u64, u64)], theirs: u64) -> (r: bool)
    ensures
        r == taken_theirs(cs@).contains(theirs),
{
    let mut k: usize = 0;
    while k < cs.len()
        invariant
            k <= cs@.len(),
            forall|j: int| 0 <= j < k ==> cs@[j].2 != theirs,
        decreases cs@.len() - k,
    {
        if cs[k].2 == theirs {
            assert(taken_theirs(cs@)[k as int] == theirs);
            return true;
        }
        k = k + 1;
    }
    proof {
        if taken_theirs(cs@).contains(theirs) {
            let j = choose|j: int| 0 <= j < taken_theirs(cs@).len() && taken_theirs(cs@)[j] == theirs;
            assert(cs@[j].2 == theirs);
        }
    }
    false
}

/// A shot whose bullet is among `stray`.
pub open spec fn is_stray_shot(stray: Seq<u64>) -> spec_fn((usize, u64)) -> bool {
    |c: (usize, u64)| stray.contains(c.1)
}

/// An id among `stray`.
pub open spec fn is_stray(stray: Seq<u64>) -> spec_fn(u64) -> bool {
    |b: u64| stray.contains(b)
}

/// Each shot of `shots` in order is retired as a miss.
pub open spec fn miss_all(g: GameView, shots: Seq<(usize, u64)>) -> (GameView, Seq<Effect>)
    decreases shots.len(),
{
    if shots.len() == 0 {
        (g, Seq::empty())
    } else {
        let prev = miss_all(g, shots.drop_last());
        let r = retire_shot(prev.0, shots.last().0 as int, shots.last().1, false);
        (r.0, prev.1 + r.1)
    }
}

/// Retiring misses keeps the roster's size and the fleet's bullets.
pub proof fn lemma_miss_all_frame(g: GameView, shots: Seq<(usize, u64)>)
    requires
        forall|k: int| 0 <= k < shots.len() ==> #[trigger] shots[k].0 < g.players.len(),
    ensures
        miss_all(g, shots).0.players.len() == g.players.len(),
        miss_all(g, shots).0.invader_bullets == g.invader_bullets,
    decreases shots.len(),
{
    if shots.len() > 0 {
        assert(forall|k: int| 0 <= k < shots.drop_last().len() ==> #[trigger] shots.drop_last()[k] == shots[k]);
        lemma_miss_all_frame(g, shots.drop_last());
    }
}

/// Bullets that left the playfield (or were despawned by their lifetime
/// safety net) go: `stray` names them. A player bullet ending this way is a
/// miss; the fleet's stray bullets are removed after.
pub open spec fn cull(g: GameView, stray: Seq<u64>) -> (GameView, Seq<Effect>) {
    let a = miss_all(g, owned_bullets(g.players).filter(is_stray_shot(stray)));
    let gone = a.0.invader_bullets.filter(is_stray(stray));
    (GameView { invader_bullets: drop_each(a.0.invader_bullets, gone), ..a.0 }, a.1 + despawn_all(gone))
}

/// Does `shots` retire bullet `b` of cannon `j`?
pub open spec fn retires(shots: Seq<(usize, u64)>, j: int, b: u64) -> bool {
    exists|k: int| 0 <= k < shots.len() && (#[trigger] shots[k]).0 == j && shots[k].1 == b
}

/// Does `shots` retire any bullet of cannon `j`?
pub open spec fn retires_any(shots: Seq<(usize, u64)>, j: int) -> bool {
    exists|k: int| 0 <= k < shots.len() && (#[trigger] shots[k]).0 == j
}

/// Keeps the bullets of cannon `j` that `shots` does not retire.
pub open spec fn unretired(shots: Seq<(usize, u64)>, j: int) -> spec_fn(u64) -> bool {
    |b: u64| !retires(shots, j, b)
}

/// Cannon `p`, number `j`, once its shots among `shots` are retired as
/// misses: those bullets go and, if there was any, its streak resets.
pub open spec fn after_misses(p: PlayerView, shots: Seq<(usize, u64)>, j: int) -> PlayerView {
    PlayerView {
        bullets: p.bullets.filter(unretired(shots, j)),
        shot_streak: if retires_any(shots, j) { 0 } else { p.shot_streak },
        ..p
    }
}

/// Retiring shots as misses, one after the other, comes to this: each
/// cannon loses exactly its retired bullets, its streak resets exactly when
/// one of them was its own, and nothing else changes.
pub proof fn lemma_miss_all_laws(g: GameView, shots: Seq<(usize, u64)>)
    requires
        forall|k: int| 0 <= k < shots.len() ==> #[trigger] shots[k].0 < g.players.len(),
    ensures
        ({
            let r = miss_all(g, shots).0;
            &&& r == (GameView { players: r.players, ..g })
            &&& r.players.len() == g.players.len()
            &&& forall|j: int| 0 <= j < g.players.len() ==> #[trigger] r.players[j] == after_misses(g.players[j], shots, j)
        }),
    decreases shots.len(),
{
    let r = miss_all(g, shots).0;
    if shots.len() == 0 {
        assert forall|j: int| 0 <= j < g.players.len() implies #[trigger] r.players[j] == after_misses(g.players[j], shots, j) by {
            lemma_filter_keeps_all(g.players[j].bullets, unretired(shots, j));
            assert(r.players[j] =~= after_misses(g.players[j], shots, j));
        }
    } else {
        let rest = shots.drop_last();
        assert(forall|k: int| 0 <= k < rest.len() ==> #[trigger] rest[k] == shots[k]);
        lemma_miss_all_laws(g, rest);
        let prev = miss_all(g, rest).0;
        let c = shots.last();
        assert(shots[shots.len() - 1] == c);
        assert forall|j: int| 0 <= j < g.players.len() implies #[trigger] r.players[j] == after_misses(g.players[j], shots, j) by {
            let gp = g.players[j];
            assert(prev.players[j] == after_misses(gp, rest, j));
            if j == c.0 {
                lemma_filter_twice(gp.bullets, unretired(rest, j), other_than(c.1));
                assert((|x: u64| unretired(rest, j)(x) && other_than(c.1)(x)) =~= unretired(shots, j)) by {
                    assert forall|b: u64| (!retires(rest, j, b) && other_than(c.1)(b)) == !retires(shots, j, b) by {
                        if retires(shots, j, b) && b != c.1 {
                            let k = choose|k: int| 0 <= k < shots.len() && (#[trigger] shots[k]).0 == j && shots[k].1 == b;
                            assert(rest[k] == shots[k]);
                        }
                        if retires(rest, j, b) {
                            let k = choose|k: int| 0 <= k < rest.len() && (#[trigger] rest[k]).0 == j && rest[k].1 == b;
                            assert(shots[k] == rest[k]);
                        }
                    }
                }
                assert(retires_any(shots, j)) by {
                    assert(shots[shots.len() - 1].0 == j);
                }
                assert(r == retire_shot(prev, j, c.1, false).0);
                assert(r.players[j] =~= after_misses(gp, shots, j));
            } else {
                assert(unretired(rest, j) =~= unretired(shots, j)) by {
                    assert forall|b: u64| !retires(rest, j, b) == !retires(shots, j, b) by {
                        if retires(shots, j, b) {
                            let k = choose|k: int| 0 <= k < shots.len() && (#[trigger] shots[k]).0 == j && shots[k].1 == b;
                            assert(rest[k] == shots[k]);
                        }
                        if retires(rest, j, b) {
                            let k = choose|k: int| 0 <= k < rest.len() && (#[trigger] rest[k]).0 == j && rest[k].1 == b;
                            assert(shots[k] == rest[k]);
                        }
                    }
                }
                assert(retires_any(shots, j) == retires_any(rest, j)) by {
                    if retires_any(shots, j) {
                        let k = choose|k: int| 0 <= k < shots.len() && (#[trigger] shots[k]).0 == j;
                        assert(rest[k] == shots[k]);
                    }
                    if retires_any(rest, j) {
                        let k = choose|k: int| 0 <= k < rest.len() && (#[trigger] rest[k]).0 == j;
                        assert(shots[k] == rest[k]);
                    }
                }
                assert(r.players[j] =~= after_misses(gp, shots, j));
            }
        }
    }
}

/// Keeps the ids that are not among `ids`.
pub open spec fn not_in(ids: Seq<u64>) -> spec_fn(u64) -> bool {
    |b: u64| !ids.contains(b)
}

/// Dropping each id of `gone` in turn drops exactly the ids among `gone`.
pub proof fn lemma_drop_each(ids: Seq<u64>, gone: Seq<u64>)
    ensures
        drop_each(ids, gone) == ids.filter(not_in(gone)),
    decreases gone.len(),
{
    if gone.len() == 0 {
        lemma_filter_keeps_all(ids, not_in(gone));
    } else {
        let rest = gone.drop_last();
        lemma_drop_each(ids, rest);
        lemma_filter_twice(ids, not_in(rest), other_than(gone.last()));
        assert((|x: u64| not_in(rest)(x) && other_than(gone.last())(x)) =~= not_in(gone)) by {
            assert forall|x: u64| (not_in(rest)(x) && other_than(gone.last())(x)) == #[trigger] not_in(gone)(x) by {
                if gone.contains(x) {
                    let k = choose|k: int| 0 <= k < gone.len() && gone[k] == x;
                    if k < rest.len() {
                        assert(rest[k] == x);
                    }
                }
                if rest.contains(x) {
                    let k = choose|k: int| 0 <= k < rest.len() && rest[k] == x;
                    assert(gone[k] == x);
                }
                if x == gone.last() {
                    assert(gone[gone.len() - 1] == x);
                }
            }
        }
    }
}

/// Culling stray bullets, as direct laws: every cannon keeps exactly its
/// bullets that are not stray, and so does the fleet; a cannon's streak
/// resets exactly when one of its bullets was stray; bodies, scores, lives
/// and everything else stay.
pub proof fn lemma_cull_laws(g: GameView, stray: Seq<u64>)
    requires
        g.players.len() <= usize::MAX,
    ensures
        ({
            let r = cull(g, stray).0;
            &&& r == (GameView { players: r.players, invader_bullets: r.invader_bullets, ..g })
            &&& r.invader_bullets == g.invader_bullets.filter(not_in(stray))
            &&& r.players.len() == g.players.len()
            &&& forall|j: int|
                0 <= j < g.players.len() ==> {
                    &&& (#[trigger] r.players[j]).bullets == g.players[j].bullets.filter(not_in(stray))
                    &&& r.players[j].shot_streak == (if (exists|i: int|
                        0 <= i < g.players[j].bullets.len() && stray.contains(#[trigger] g.players[j].bullets[i])) {
                        0
                    } else {
                        g.players[j].shot_streak
                    })
                    &&& r.players[j].entity == g.players[j].entity
                    &&& r.players[j].score == g.players[j].score
                    &&& r.players[j].lives == g.players[j].lives
                }
        }),
{
    broadcast use vstd::seq_lib::group_filter_ensures;

    let owned = owned_bullets(g.players);
    let shots = owned.filter(is_stray_shot(stray));
    lemma_owned_bullets_members(g.players);
    lemma_filter_subset(owned, is_stray_shot(stray));
    assert forall|k: int| 0 <= k < shots.len() implies #[trigger] shots[k].0 < g.players.len() by {
        assert(owned.contains(shots[k]));
        let m = choose|m: int| 0 <= m < owned.len() && owned[m] == shots[k];
        assert(owned[m].0 < g.players.len());
    }
    lemma_miss_all_laws(g, shots);
    let a = miss_all(g, shots).0;
    let r = cull(g, stray).0;

    assert forall|j: int| 0 <= j < g.players.len() implies {
        &&& (#[trigger] r.players[j]).bullets == g.players[j].bullets.filter(not_in(stray))
        &&& r.players[j].shot_streak == (if (exists|i: int|
            0 <= i < g.players[j].bullets.len() && stray.contains(#[trigger] g.players[j].bullets[i])) {
            0
        } else {
            g.players[j].shot_streak
        })
    } by {
        let gp = g.players[j];
        assert(r.players[j] == a.players[j]);
        assert forall|i: int| 0 <= i < gp.bullets.len() implies unretired(shots, j)(#[trigger] gp.bullets[i])
            == not_in(stray)(gp.bullets[i]) by {
            let b = gp.bullets[i];
            if stray.contains(b) {
                assert(owned.contains((j as usize, gp.bullets[i])));
                let m = choose|m: int| 0 <= m < owned.len() && owned[m] == (j as usize, b);
                assert(is_stray_shot(stray)(owned[m]));
                assert(shots.contains(owned[m]));
                let k = choose|k: int| 0 <= k < shots.len() && shots[k] == owned[m];
                assert(shots[k].0 == j && shots[k].1 == b);
                assert(retires(shots, j, b));
            }
            if retires(shots, j, b) {
                let k = choose|k: int| 0 <= k < shots.len() && (#[trigger] shots[k]).0 == j && shots[k].1 == b;
                assert(is_stray_shot(stray)(shots[k]));
            }
        }
        lemma_filter_agree(gp.bullets, unretired(shots, j), not_in(stray));
        let some_stray = exists|i: int| 0 <= i < gp.bullets.len() && stray.contains(#[trigger] gp.bullets[i]);
        assert(retires_any(shots, j) == some_stray) by {
            if some_stray {
                let i = choose|i: int| 0 <= i < gp.bullets.len() && stray.contains(#[trigger] gp.bullets[i]);
                assert(unretired(shots, j)(gp.bullets[i]) == not_in(stray)(gp.bullets[i]));
                let k = choose|k: int| 0 <= k < shots.len() && (#[trigger] shots[k]).0 == j && shots[k].1 == gp.bullets[i];
                assert(shots[k].0 == j);
            }
            if retires_any(shots, j) {
                let k = choose|k: int| 0 <= k < shots.len() && (#[trigger] shots[k]).0 == j;
                assert(owned.contains(shots[k]));
                let m = choose|m: int| 0 <= m < owned.len() && owned[m] == shots[k];
                assert(gp.bullets.contains(shots[k].1));
                let i = choose|i: int| 0 <= i < gp.bullets.len() && gp.bullets[i] == shots[k].1;
                assert(is_stray_shot(stray)(shots[k]));
                assert(stray.contains(gp.bullets[i]));
            }
        }
    }

    let gone = g.invader_bullets.filter(is_stray(stray));
    lemma_drop_each(g.invader_bullets, gone);
    assert forall|i: int| 0 <= i < g.invader_bullets.len() implies not_in(gone)(#[trigger] g.invader_bullets[i])
        == not_in(stray)(g.invader_bullets[i]) by {
        let b = g.invader_bullets[i];
        if stray.contains(b) {
            assert(is_stray(stray)(g.invader_bullets[i]));
            assert(gone.contains(b));
        }
        if gone.contains(b) {
            let k = choose|k: int| 0 <= k < gone.len() && gone[k] == b;
            assert(is_stray(stray)(gone[k]));
        }
    }
    lemma_filter_agree(g.invader_bullets, not_in(gone), not_in(stray));
}

/// Is `x` among `ids`?
pub(crate) fn contains_id(ids: &[u64], x: u64) -> (r: bool)
    ensures
        r == ids@.contains(x),
{
    let mut k: usize = 0;
    while k < ids.len()
        invariant
            k <= ids@.len(),
            forall|j: int| 0 <= j < k ==> ids@[j] != x,
        decreases ids@.len() - k,
    {
        if ids[k] == x {
            return true;
        }
        k = k + 1;
    }
    false
}

/// The invaders killed among `shots`, in order.
pub open spec fn kills(shots: Seq<Shot>) -> Seq<Invader>
    decreases shots.len(),
{
    if shots.len() == 0 {
        Seq::empty()
    } else {
        kills(shots.drop_last()) + match shots.last() {
            Shot::Kill(invader) => seq![invader],
            _ => Seq::empty(),
        }
    }
}

/// Every bullet is spent by its first hit, and only on what it touched: each
/// bullet has exactly one outcome; a kill is an invader of the fleet the
/// bullet touched, a chip a barrier block it touched; the fleet loses
/// exactly the killed invaders (one each), and the kills pay exactly their
/// rows' values.
pub proof fn lemma_volley_honest(invaders: Seq<Invader>, blocks: Seq<u64>, bullets: Seq<u64>, contacts: Seq<Contact>)
    ensures
        ({
            let v = volley(invaders, blocks, bullets, contacts);
            &&& v.2.len() == bullets.len()
            &&& v.0.len() + kills(v.2).len() == invaders.len()
            &&& v.1.len() <= blocks.len()
            &&& forall|k: int| 0 <= k < v.2.len() ==> match #[trigger] v.2[k] {
                Shot::Kill(inv) => invaders.contains(inv) && touched(contacts, bullets[k], inv.entity),
                Shot::Chip(b) => blocks.contains(b) && touched(contacts, bullets[k], b),
                Shot::Miss => true,
            }
            &&& forall|i: int| 0 <= i < v.0.len() ==> invaders.contains(#[trigger] v.0[i])
            &&& forall|i: int| 0 <= i < v.1.len() ==> blocks.contains(#[trigger] v.1[i])
        }),
    decreases bullets.len(),
{
    if bullets.len() > 0 {
        let rest = bullets.drop_last();
        lemma_volley_honest(invaders, blocks, rest, contacts);
        let prev = volley(invaders, blocks, rest, contacts);
        let b = bullets.last();
        let v = volley(invaders, blocks, bullets, contacts);
        let i = first_touched(entities(prev.0), b, contacts);
        let j = first_touched(prev.1, b, contacts);
        lemma_first_touched(entities(prev.0), b, contacts);
        lemma_first_touched(prev.1, b, contacts);
        assert(entities(prev.0).len() == prev.0.len());
        let last = v.2[v.2.len() - 1];
        assert(v.2.drop_last() =~= prev.2);
        if i < prev.0.len() {
            assert(entities(prev.0)[i] == prev.0[i].entity);
            assert(invaders.contains(prev.0[i]));
            assert(last == Shot::Kill(prev.0[i]));
            assert(kills(v.2) =~= kills(prev.2).push(prev.0[i]));
            assert forall|q: int| 0 <= q < v.0.len() implies invaders.contains(#[trigger] v.0[q]) by {
                if q < i {
                    assert(v.0[q] == prev.0[q]);
                } else {
                    assert(v.0[q] == prev.0[q + 1]);
                }
            }
        } else if j < prev.1.len() {
            prev.1.lemma_filter_len(other_than(prev.1[j]));
            lemma_filter_subset(prev.1, other_than(prev.1[j]));
            assert(blocks.contains(prev.1[j]));
            assert(last == Shot::Chip(prev.1[j]));
            assert(kills(v.2) =~= kills(prev.2));
            assert forall|q: int| 0 <= q < v.1.len() implies blocks.contains(#[trigger] v.1[q]) by {
                assert(prev.1.contains(v.1[q]));
                let w = choose|w: int| 0 <= w < prev.1.len() && prev.1[w] == v.1[q];
                assert(blocks.contains(prev.1[w]));
            }
        } else {
            assert(last == Shot::Miss);
            assert(kills(v.2) =~= kills(prev.2));
        }
        assert(v.2.drop_last() =~= prev.2);
        assert forall|k: int| 0 <= k < v.2.len() implies match #[trigger] v.2[k] {
            Shot::Kill(inv) => invaders.contains(inv) && touched(contacts, bullets[k], inv.entity),
            Shot::Chip(bl) => blocks.contains(bl) && touched(contacts, bullets[k], bl),
            Shot::Miss => true,
        } by {
            if k < prev.2.len() {
                assert(v.2[k] == prev.2[k]);
                assert(bullets[k] == rest[k]);
            } else {
                assert(bullets[k] == b);
                assert(v.2[k] == last);
            }
        }
    }
}

/// Each bullet of a volley is spent on the first thing it touched, in the
/// fleet and barriers as they stand when its turn comes: the first invader
/// (in fleet order) it touched, if any, is killed; failing that, the first
/// barrier block it touched is chipped; failing both, it misses.
pub proof fn lemma_volley_first_hit(
    invaders: Seq<Invader>,
    blocks: Seq<u64>,
    bullets: Seq<u64>,
    contacts: Seq<Contact>,
    k: int,
)
    requires
        0 <= k < bullets.len(),
    ensures
        ({
            let before = volley(invaders, blocks, bullets.take(k), contacts);
            let shot = volley(invaders, blocks, bullets, contacts).2[k];
            let b = bullets[k];
            let hit_invader = exists|i: int| 0 <= i < before.0.len() && touched(contacts, b, #[trigger] before.0[i].entity);
            let hit_block = exists|j: int| 0 <= j < before.1.len() && touched(contacts, b, #[trigger] before.1[j]);
            &&& hit_invader ==> exists|i: int|
                0 <= i < before.0.len() && shot == Shot::Kill(before.0[i]) && touched(contacts, b, before.0[i].entity)
                    && forall|q: int| 0 <= q < i ==> !touched(contacts, b, #[trigger] before.0[q].entity)
            &&& !hit_invader && hit_block ==> exists|j: int|
                0 <= j < before.1.len() && shot == Shot::Chip(before.1[j]) && touched(contacts, b, before.1[j])
                    && forall|q: int| 0 <= q < j ==> !touched(contacts, b, #[trigger] before.1[q])
            &&& !hit_invader && !hit_block ==> shot == Shot::Miss
        }),
{
    let before = volley(invaders, blocks, bullets.take(k), contacts);
    let b = bullets[k];
    lemma_volley_prefix(invaders, blocks, bullets, contacts, k + 1);
    lemma_volley_prefix(invaders, blocks, bullets.take(k + 1), contacts, k);
    assert(bullets.take(k + 1).drop_last() =~= bullets.take(k));
    assert(bullets.take(k + 1).take(k) =~= bullets.take(k));
    assert(bullets.take(k + 1).last() == b);
    let st = strike(before.0, before.1, b, contacts);
    assert(volley(invaders, blocks, bullets.take(k + 1), contacts).2 == before.2.push(st.2));
    assert(volley(invaders, blocks, bullets, contacts).2[k] == volley(invaders, blocks, bullets.take(k + 1), contacts).2[k]);
    let ents = entities(before.0);
    lemma_first_touched(ents, b, contacts);
    lemma_first_touched(before.1, b, contacts);
    let i = first_touched(ents, b, contacts);
    let j = first_touched(before.1, b, contacts);
    assert forall|q: int| 0 <= q < before.0.len() implies #[trigger] before.0[q].entity == ents[q] by {}
    if exists|x: int| 0 <= x < before.0.len() && touched(contacts, b, #[trigger] before.0[x].entity) {
        let x = choose|x: int| 0 <= x < before.0.len() && touched(contacts, b, #[trigger] before.0[x].entity);
        assert(touched(contacts, b, ents[x]));
        assert(i < before.0.len());
        assert forall|q: int| 0 <= q < i implies !touched(contacts, b, #[trigger] before.0[q].entity) by {
            assert(!touched(contacts, b, ents[q]));
        }
    } else {
        if i < before.0.len() {
            assert(touched(contacts, b, before.0[i].entity));
        }
        if exists|x: int| 0 <= x < before.1.len() && touched(contacts, b, #[trigger] before.1[x]) {
            let x = choose|x: int| 0 <= x < before.1.len() && touched(contacts, b, #[trigger] before.1[x]);
            assert(j < before.1.len());
        } else {
            if j < before.1.len() {
                assert(touched(contacts, b, before.1[j]));
            }
        }
    }
}

/// Every kill pays between the bottom row's 10 and the top row's 30 points,
/// and shots that kill nothing pay nothing.
pub proof fn lemma_kill_points_range(shots: Seq<Shot>)
    ensures
        10 * kills(shots).len() <= kill_points(shots) <= 30 * kills(shots).len(),
    decreases shots.len(),
{
    if shots.len() > 0 {
        lemma_kill_points_range(shots.drop_last());
    }
}

/// One cannon's volley pays that cannon, and only that cannon, between 10
/// and 30 points for each invader the fleet lost, and nothing when the
/// fleet lost none; the fleet never grows.
pub proof fn lemma_cannon_volley_pays(g: GameView, index: int, contacts: Seq<Contact>)
    requires
        0 <= index < g.players.len(),
        volley_pays_fit(g, index, contacts),
    ensures
        ({
            let r = cannon_volley(g, index, contacts).0;
            let lost = g.invaders.len() - r.invaders.len();
            &&& 0 <= lost
            &&& 10 * lost <= r.players[index].score - g.players[index].score <= 30 * lost
            &&& forall|j: int| 0 <= j < g.players.len() && j != index ==> #[trigger] r.players[j].score == g.players[j].score
        }),
{
    let p = g.players[index];
    let v = volley(g.invaders, g.barrier_blocks, p.bullets, contacts);
    let scored = GameView {
        invaders: v.0,
        barrier_blocks: v.1,
        players: g.players.update(index, PlayerView { score: (p.score + kill_points(v.2)) as u32, ..p }),
        ..g
    };
    lemma_retire_shots(scored, index, spent_bullets(p.bullets, v.2));
    lemma_cannon_volley_frame(g, index, contacts);
    lemma_volley_honest(g.invaders, g.barrier_blocks, p.bullets, contacts);
    lemma_kill_points_range(v.2);
}

/// A fleet bullet that touched a cannon's body is never let through: when
/// any of them did, the fleet's bullets hit at least one cannon.
pub proof fn lemma_enemy_fire_hits(g: GameView, bullets: Seq<u64>, contacts: Seq<Contact>)
    requires
        exists|k: int, j: int|
            0 <= k < bullets.len() && 0 <= j < g.players.len() && (#[trigger] g.players[j]).entity is Some
                && touched(contacts, #[trigger] bullets[k], g.players[j].entity->0),
    ensures
        enemy_fire(g, bullets, contacts).2.len() > 0,
    decreases bullets.len(),
{
    let (k, j) = choose|k: int, j: int|
        0 <= k < bullets.len() && 0 <= j < g.players.len() && (#[trigger] g.players[j]).entity is Some && touched(
            contacts,
            #[trigger] bullets[k],
            g.players[j].entity->0,
        );
    let rest = bullets.drop_last();
    let prev = enemy_fire(g, rest, contacts);
    lemma_enemy_fire_frame(g, rest, contacts);
    if k < bullets.len() - 1 {
        assert(rest[k] == bullets[k]);
        lemma_enemy_fire_hits(g, rest, contacts);
    } else {
        assert(prev.0.players == g.players);
        lemma_first_cannon_touched(g.players, bullets.last(), contacts);
        assert(bullets[k] == bullets.last());
    }
}

/// The fleet's bullets only ever add to what they spent and hit as more of
/// them strike, and barrier blocks only go.
pub proof fn lemma_enemy_fire_grows(g: GameView, bullets: Seq<u64>, contacts: Seq<Contact>, n: int)
    requires
        0 <= n <= bullets.len(),
    ensures
        ({
            let a = enemy_fire(g, bullets.take(n), contacts);
            let e = enemy_fire(g, bullets, contacts);
            &&& forall|x: u64| #[trigger] a.1.contains(x) ==> e.1.contains(x)
            &&& forall|c: usize| #[trigger] a.2.contains(c) ==> e.2.contains(c)
        }),
    decreases bullets.len(),
{
    if n == bullets.len() {
        assert(bullets.take(n) =~= bullets);
    } else {
        let rest = bullets.drop_last();
        lemma_enemy_fire_grows(g, rest, contacts, n);
        assert(rest.take(n) =~= bullets.take(n));
        let p = enemy_fire(g, rest, contacts);
        let e = enemy_fire(g, bullets, contacts);
        assert forall|x: u64| #[trigger] p.1.contains(x) implies e.1.contains(x) by {
            let q = choose|q: int| 0 <= q < p.1.len() && p.1[q] == x;
            assert(e.1[q] == x);
        }
        assert forall|c: usize| #[trigger] p.2.contains(c) implies e.2.contains(c) by {
            let q = choose|q: int| 0 <= q < p.2.len() && p.2[q] == c;
            assert(e.2[q] == c);
        }
    }
}

/// Each fleet bullet is spent on the first thing it touched: on the first
/// cannon (by roster order) whose body it touched, which is then hit; or,
/// touching no cannon, on the first barrier block it touched that still
/// stands at its turn, which is chipped. A fleet bullet that touched a body
/// or a standing block never flies on.
pub proof fn lemma_enemy_fire_first_hit(g: GameView, bullets: Seq<u64>, contacts: Seq<Contact>, k: int)
    requires
        0 <= k < bullets.len(),
    ensures
        ({
            let before = enemy_fire(g, bullets.take(k), contacts).0;
            let e = enemy_fire(g, bullets, contacts);
            let b = bullets[k];
            let hit_cannon = exists|j: int|
                0 <= j < g.players.len() && (#[trigger] g.players[j]).entity is Some && touched(contacts, b, g.players[j].entity->0);
            let hit_block = exists|x: int| 0 <= x < before.barrier_blocks.len() && touched(contacts, b, #[trigger] before.barrier_blocks[x]);
            &&& hit_cannon ==> e.1.contains(b) && exists|j: int|
                0 <= j < g.players.len() && #[trigger] e.2.contains(j as usize) && g.players[j].entity is Some && touched(
                    contacts,
                    b,
                    g.players[j].entity->0,
                ) && forall|q: int|
                    0 <= q < j ==> !((#[trigger] g.players[q]).entity is Some && touched(contacts, b, g.players[q].entity->0))
            &&& !hit_cannon && hit_block ==> e.1.contains(b) && exists|x: int|
                0 <= x < before.barrier_blocks.len() && touched(contacts, b, before.barrier_blocks[x])
                    && !enemy_fire(g, bullets.take(k + 1), contacts).0.barrier_blocks.contains(before.barrier_blocks[x])
                    && forall|q: int| 0 <= q < x ==> !touched(contacts, b, #[trigger] before.barrier_blocks[q])
        }),
{
    let b = bullets[k];
    let t = bullets.take(k + 1);
    assert(t.drop_last() =~= bullets.take(k));
    assert(t.last() == b);
    lemma_enemy_fire_grows(g, bullets, contacts, k + 1);
    lemma_enemy_fire_frame(g, bullets.take(k), contacts);
    let prev = enemy_fire(g, bullets.take(k), contacts);
    let step = enemy_fire(g, t, contacts);
    lemma_first_cannon_touched(g.players, b, contacts);
    assert(prev.0.players == g.players);
    let c = first_cannon_touched(g.players, b, contacts);
    if exists|j: int| 0 <= j < g.players.len() && (#[trigger] g.players[j]).entity is Some && touched(contacts, b, g.players[j].entity->0) {
        let j = choose|j: int| 0 <= j < g.players.len() && (#[trigger] g.players[j]).entity is Some && touched(contacts, b, g.players[j].entity->0);
        assert(c < g.players.len());
        assert(step.1 == prev.1.push(b));
        assert(step.1[step.1.len() - 1] == b);
        assert(step.2 == prev.2.push(c as usize));
        assert(step.2[step.2.len() - 1] == c as usize);
        assert(step.1.contains(b));
        assert(step.2.contains(c as usize));
        assert(g.players[c].entity is Some);
    } else {
        if c < g.players.len() {
            assert(g.players[c].entity is Some);
        }
        let blocks = prev.0.barrier_blocks;
        lemma_first_touched(blocks, b, contacts);
        let x0 = first_touched(blocks, b, contacts);
        if exists|x: int| 0 <= x < blocks.len() && touched(contacts, b, #[trigger] blocks[x]) {
            let x = choose|x: int| 0 <= x < blocks.len() && touched(contacts, b, #[trigger] blocks[x]);
            assert(x0 < blocks.len());
            assert(step.1 == prev.1.push(b));
            assert(step.1[step.1.len() - 1] == b);
            assert(step.1.contains(b));
            let f = blocks.filter(other_than(blocks[x0]));
            assert(step.0.barrier_blocks == f);
            if f.contains(blocks[x0]) {
                let q = choose|q: int| 0 <= q < f.len() && f[q] == blocks[x0];
                blocks.lemma_filter_pred(other_than(blocks[x0]), q);
            }
        }
    }
}

/// When a fleet bullet touched a cannon's body, a cannon is shown hit.
pub proof fn lemma_invader_volley_hits(g: GameView, contacts: Seq<Contact>)
    requires
        exists|k: int, j: int|
            0 <= k < g.invader_bullets.len() && 0 <= j < g.players.len() && (#[trigger] g.players[j]).entity is Some
                && touched(contacts, #[trigger] g.invader_bullets[k], g.players[j].entity->0),
    ensures
        exists|q: int| 0 <= q < invader_volley(g, contacts).1.len() && (#[trigger] invader_volley(g, contacts).1[q]) is CannonHit,
{
    let e = enemy_fire(g, g.invader_bullets, contacts);
    lemma_enemy_fire_hits(g, g.invader_bullets, contacts);
    lemma_enemy_fire_frame(g, g.invader_bullets, contacts);
    let d = GameView { invader_bullets: drop_each(g.invader_bullets, e.1), ..e.0 };
    let hit = e.2;
    let rest = hit.drop_last();
    assert forall|q: int| 0 <= q < rest.len() implies #[trigger] rest[q] < d.players.len() by {
        assert(rest[q] == hit[q]);
    }
    lemma_take_hits_len(d, rest);
    let prev = take_hits(d, rest);
    assert(hit[hit.len() - 1] == hit.last());
    crate::gameplay::players::lemma_take_hit_laws(prev.0, hit.last());
    let th = take_hit(prev.0, hit.last());
    let h = take_hits(d, hit);
    assert(h.1 == prev.1 + th.1);
    let all = e.3 + despawn_all(e.1) + h.1;
    assert(invader_volley(g, contacts).1 == all);
    let q: int = (e.3.len() + e.1.len() + prev.1.len()) as int;
    assert(all[q] == th.1[0]);
    assert(all[q] is CannonHit);
}

/// What the shots show: a kill effect for exactly the invaders killed, a
/// chip effect for exactly the blocks chipped, and nothing else.
pub proof fn lemma_volley_effects(shots: Seq<Shot>)
    ensures
        forall|inv: Invader| #[trigger] volley_effects(shots).contains(Effect::InvaderKilled(inv)) <==> shots.contains(Shot::Kill(inv)),
        forall|b: u64| #[trigger] volley_effects(shots).contains(Effect::BlockChipped(b)) <==> shots.contains(Shot::Chip(b)),
        forall|q: int|
            0 <= q < volley_effects(shots).len() ==> (#[trigger] volley_effects(shots)[q]) is InvaderKilled
                || volley_effects(shots)[q] is BlockChipped,
    decreases shots.len(),
{
    if shots.len() > 0 {
        let rest = shots.drop_last();
        lemma_volley_effects(rest);
        let pe = volley_effects(rest);
        let le = shot_effects(shots.last());
        let e = volley_effects(shots);
        assert(e == pe + le);
        assert(shots[shots.len() - 1] == shots.last());
        assert forall|x: Effect| #[trigger] e.contains(x) <==> (pe.contains(x) || le.contains(x)) by {
            if e.contains(x) {
                let q = choose|q: int| 0 <= q < e.len() && e[q] == x;
                if q < pe.len() {
                    assert(pe[q] == x);
                } else {
                    assert(le[q - pe.len()] == x);
                }
            }
            if pe.contains(x) {
                let q = choose|q: int| 0 <= q < pe.len() && pe[q] == x;
                assert(e[q] == x);
            }
            if le.contains(x) {
                let q = choose|q: int| 0 <= q < le.len() && le[q] == x;
                assert(e[pe.len() + q] == x);
            }
        }
        assert forall|y: Shot| #[trigger] shots.contains(y) <==> (rest.contains(y) || shots.last() == y) by {
            if shots.contains(y) {
                let q = choose|q: int| 0 <= q < shots.len() && shots[q] == y;
                if q < rest.len() {
                    assert(rest[q] == y);
                }
            }
            if rest.contains(y) {
                let q = choose|q: int| 0 <= q < rest.len() && rest[q] == y;
                assert(shots[q] == y);
            }
        }
        assert forall|inv: Invader| #[trigger] e.contains(Effect::InvaderKilled(inv)) <==> shots.contains(Shot::Kill(inv)) by {
            assert(pe.contains(Effect::InvaderKilled(inv)) <==> rest.contains(Shot::Kill(inv)));
            if le.contains(Effect::InvaderKilled(inv)) {
                assert(le[0] == Effect::InvaderKilled(inv));
            }
            if shots.last() == Shot::Kill(inv) {
                assert(le[0] == Effect::InvaderKilled(inv));
            }
        }
        assert forall|b: u64| #[trigger] e.contains(Effect::BlockChipped(b)) <==> shots.contains(Shot::Chip(b)) by {
            assert(pe.contains(Effect::BlockChipped(b)) <==> rest.contains(Shot::Chip(b)));
            if le.contains(Effect::BlockChipped(b)) {
                assert(le[0] == Effect::BlockChipped(b));
            }
            if shots.last() == Shot::Chip(b) {
                assert(le[0] == Effect::BlockChipped(b));
            }
        }
        assert forall|q: int| 0 <= q < e.len() implies (#[trigger] e[q]) is InvaderKilled || e[q] is BlockChipped by {
            if q < pe.len() {
                assert(e[q] == pe[q]);
            } else {
                assert(e[q] == le[q - pe.len()]);
            }
        }
    }
}

/// Retiring shots as misses shows one despawn per shot, in order.
pub proof fn lemma_miss_all_effects(g: GameView, shots: Seq<(usize, u64)>)
    ensures
        miss_all(g, shots).1 == shots.map_values(|c: (usize, u64)| Effect::Despawn(c.1)),
    decreases shots.len(),
{
    if shots.len() > 0 {
        lemma_miss_all_effects(g, shots.drop_last());
        assert(shots.map_values(|c: (usize, u64)| Effect::Despawn(c.1)) =~= shots.drop_last().map_values(
            |c: (usize, u64)| Effect::Despawn(c.1),
        ).push(Effect::Despawn(shots.last().1)));
    }
}

/// Culling removes from the world exactly the stray bullets in flight, the
/// fleet's and every cannon's, and shows nothing else.
pub proof fn lemma_cull_despawns(g: GameView, stray: Seq<u64>)
    requires
        g.players.len() <= usize::MAX,
    ensures
        ({
            let w = cull(g, stray).1;
            &&& forall|b: u64| #[trigger] g.invader_bullets.contains(b) && stray.contains(b) ==> w.contains(Effect::Despawn(b))
            &&& forall|j: int, i: int|
                0 <= j < g.players.len() && 0 <= i < g.players[j].bullets.len() && stray.contains(g.players[j].bullets[i])
                    ==> w.contains(Effect::Despawn(#[trigger] g.players[j].bullets[i]))
            &&& forall|q: int| 0 <= q < w.len() ==> (#[trigger] w[q]) is Despawn && stray.contains(w[q]->Despawn_0)
        }),
{
    broadcast use vstd::seq_lib::group_filter_ensures;

    let owned = owned_bullets(g.players);
    let shots = owned.filter(is_stray_shot(stray));
    lemma_owned_bullets_members(g.players);
    lemma_miss_all_effects(g, shots);
    assert forall|k: int| 0 <= k < shots.len() implies #[trigger] shots[k].0 < g.players.len() by {
        lemma_filter_subset(owned, is_stray_shot(stray));
        assert(owned.contains(shots[k]));
        let m = choose|m: int| 0 <= m < owned.len() && owned[m] == shots[k];
        assert(owned[m].0 < g.players.len());
    }
    lemma_miss_all_frame(g, shots);
    let a = miss_all(g, shots);
    let gone = a.0.invader_bullets.filter(is_stray(stray));
    let dm = shots.map_values(|c: (usize, u64)| Effect::Despawn(c.1));
    let dg = despawn_all(gone);
    let w = cull(g, stray).1;
    assert(w == dm + dg);
    assert forall|b: u64| #[trigger] g.invader_bullets.contains(b) && stray.contains(b) implies w.contains(Effect::Despawn(b)) by {
        let k = choose|k: int| 0 <= k < g.invader_bullets.len() && g.invader_bullets[k] == b;
        assert(is_stray(stray)(g.invader_bullets[k]));
        assert(gone.contains(b));
        let m = choose|m: int| 0 <= m < gone.len() && gone[m] == b;
        assert(w[dm.len() + m] == dg[m]);
    }
    assert forall|j: int, i: int|
        0 <= j < g.players.len() && 0 <= i < g.players[j].bullets.len() && stray.contains(g.players[j].bullets[i])
            implies w.contains(Effect::Despawn(#[trigger] g.players[j].bullets[i])) by {
        let b = g.players[j].bullets[i];
        assert(owned.contains((j as usize, b)));
        let m = choose|m: int| 0 <= m < owned.len() && owned[m] == (j as usize, b);
        assert(is_stray_shot(stray)(owned[m]));
        assert(shots.contains(owned[m]));
        let k = choose|k: int| 0 <= k < shots.len() && shots[k] == owned[m];
        assert(w[k] == dm[k]);
    }
    assert forall|q: int| 0 <= q < w.len() implies (#[trigger] w[q]) is Despawn && stray.contains(w[q]->Despawn_0) by {
        if q < dm.len() {
            assert(w[q] == dm[q]);
            assert(is_stray_shot(stray)(shots[q]));
        } else {
            let m = q - dm.len();
            assert(w[q] == dg[m]);
            assert(is_stray(stray)(gone[m]));
        }
    }
}

/// Cancelling shows, for each crossing, its player bullet cancelled and
/// both bullets removed from the world.
pub proof fn lemma_cancel_effects(g: GameView, overlaps: Seq<(u64, u64)>)
    requires
        g.invader_bullets.len() > 0,
    ensures
        ({
            let cs = crossings(owned_bullets(g.players), g.invader_bullets, overlaps);
            let w = cancel_crossings(g, overlaps).1;
            forall|k: int|
                0 <= k < cs.len() ==> {
                    &&& w.contains(Effect::BulletsCancelled((#[trigger] cs[k]).1))
                    &&& w.contains(Effect::Despawn(cs[k].1))
                    &&& w.contains(Effect::Despawn(cs[k].2))
                }
        }),
{
    let cs = crossings(owned_bullets(g.players), g.invader_bullets, overlaps);
    let head = cs.map_values(|c: (usize, u64, u64)| Effect::BulletsCancelled(c.1));
    let a = cancel_all(g, cs);
    let w = cancel_crossings(g, overlaps).1;
    assert(w == head + a.1);
    lemma_cancel_all_effects(g, cs);
    assert forall|k: int| 0 <= k < cs.len() implies {
        &&& w.contains(Effect::BulletsCancelled((#[trigger] cs[k]).1))
        &&& w.contains(Effect::Despawn(cs[k].1))
        &&& w.contains(Effect::Despawn(cs[k].2))
    } by {
        assert(w[k] == head[k]);
        let m1 = choose|m: int| 0 <= m < a.1.len() && a.1[m] == Effect::Despawn(cs[k].1);
        let m2 = choose|m: int| 0 <= m < a.1.len() && a.1[m] == Effect::Despawn(cs[k].2);
        assert(w[head.len() + m1] == a.1[m1]);
        assert(w[head.len() + m2] == a.1[m2]);
    }
}

/// Cancelling the crossings `cs` removes both bullets of each crossing.
pub proof fn lemma_cancel_all_effects(g: GameView, cs: Seq<(usize, u64, u64)>)
    ensures
        forall|k: int|
            0 <= k < cs.len() ==> cancel_all(g, cs).1.contains(Effect::Despawn((#[trigger] cs[k]).1))
                && cancel_all(g, cs).1.contains(Effect::Despawn(cs[k].2)),
    decreases cs.len(),
{
    if cs.len() > 0 {
        let rest = cs.drop_last();
        lemma_cancel_all_effects(g, rest);
        let prev = cancel_all(g, rest);
        let c = cs.last();
        let r = retire_shot(prev.0, c.0 as int, c.1, false);
        let e = cancel_all(g, cs).1;
        assert(e == prev.1 + r.1 + seq![Effect::Despawn(c.2)]);
        assert(r.1[0] == Effect::Despawn(c.1));
        assert forall|k: int| 0 <= k < cs.len() implies e.contains(Effect::Despawn((#[trigger] cs[k]).1)) && e.contains(
            Effect::Despawn(cs[k].2),
        ) by {
            if k < rest.len() {
                assert(rest[k] == cs[k]);
                let m1 = choose|m: int| 0 <= m < prev.1.len() && prev.1[m] == Effect::Despawn(rest[k].1);
                let m2 = choose|m: int| 0 <= m < prev.1.len() && prev.1[m] == Effect::Despawn(rest[k].2);
                assert(e[m1] == prev.1[m1]);
                assert(e[m2] == prev.1[m2]);
            } else {
                assert(cs[k] == c);
                assert(e[prev.1.len() as int] == r.1[0]);
                assert(e[e.len() - 1] == Effect::Despawn(c.2));
            }
        }
    }
}

/// Victory the moment the last invader dies while a match is on: the win
/// achievements unlock, then the match winds down as won.
pub open spec fn win_check(g: GameView) -> (GameView, Seq<Effect>) {
    if g.state == GameState::Playing && g.invaders.len() == 0 {
        let w = wind_down(g, GameState::GameOver { won: true });
        (w.0, unlock_effects(win_unlocks(g.chaos_mode, roster_lives(g.players))) + w.1)
    } else {
        (g, Seq::empty())
    }
}

/// The match is won exactly when a match is on and its last invader is
/// gone: then the screen shows the win, nothing is left in flight, and the
/// first thing shown is the unlock of the chaos mode's clear achievement.
/// Otherwise nothing changes and nothing is shown.
pub proof fn lemma_win_check_laws(g: GameView)
    ensures
        ({
            let r = win_check(g);
            let won = g.state == GameState::Playing && g.invaders.len() == 0;
            &&& won ==> {
                &&& r.0.state == (GameState::GameOver { won: true })
                &&& r.0.invader_bullets.len() == 0
                &&& r.0.ufo is None
                &&& forall|j: int| 0 <= j < r.0.players.len() ==> (#[trigger] r.0.players[j]).bullets.len() == 0
                &&& r.1.len() >= 1
                &&& g.chaos_mode == ChaosMode::Normal ==> r.1[0] == Effect::Unlock(AchievementId::ClearNormal)
                &&& g.chaos_mode == ChaosMode::Insane ==> r.1[0] == Effect::Unlock(AchievementId::ClearInsane)
                &&& g.chaos_mode == ChaosMode::Ridiculous ==> r.1[0] == Effect::Unlock(AchievementId::ClearRidiculous)
                &&& g.chaos_mode == ChaosMode::Insiculous ==> r.1[0] == Effect::Unlock(AchievementId::ClearInsiculous)
            }
            &&& !won ==> r.0 == g && r.1.len() == 0
            &&& r.0.players.len() == g.players.len()
        }),
{
    let u = win_unlocks(g.chaos_mode, roster_lives(g.players));
    lemma_win_unlocks_laws(g.chaos_mode, roster_lives(g.players));
    lemma_wind_down_clears(g, GameState::GameOver { won: true });
    let w = wind_down(g, GameState::GameOver { won: true });
    assert((unlock_effects(u) + w.1)[0] == unlock_effects(u)[0]);
}

impl SpaceInvadersGame {
    /// The fleet's bullets strike in order: a bullet that touched a cannon's
    /// body is spent on the first such cannon, otherwise it eats the first
    /// barrier block it touched. The spent bullets go, then every cannon hit
    /// takes its hit (one hit per bullet).
    pub fn resolve_invader_bullets(&mut self, contacts: &[Contact], effects: &mut Vec<Effect>)
        ensures
            final(self)@ == invader_volley(old(self)@, contacts@).0,
            final(effects)@ == old(effects)@ + invader_volley(old(self)@, contacts@).1,
    {
        let ghost g = self@;
        let ghost start = effects@;
        let enemy: Vec<u64> = self.invader_bullets.clone();
        assert(enemy@ =~= g.invader_bullets);
        let mut spent: Vec<u64> = Vec::new();
        let mut hit: Vec<usize> = Vec::new();
        let mut k: usize = 0;
        while k < enemy.len()
            invariant
                k <= enemy@.len(),
                enemy@ == g.invader_bullets,
                g == old(self)@,
                start == old(effects)@,
                ({
                    let e = enemy_fire(g, enemy@.take(k as int), contacts@);
                    &&& self@ == e.0
                    &&& spent@ == e.1
                    &&& hit@ == e.2
                    &&& effects@ == start + e.3
                }),
            decreases enemy@.len() - k,
        {
            let b = enemy[k];
            proof {
                assert(enemy@.take(k + 1).drop_last() =~= enemy@.take(k as int));
                assert(enemy@.take(k + 1).last() == b);
                lemma_roster_view(self.players@);
            }
            let c = first_cannon_touched_index(self.players.as_slice(), b, contacts);
            if c < self.players.len() {
                spent.push(b);
                hit.push(c);
            } else {
                let chipped = self.bullet_chips_barrier(b, contacts, effects);
                if chipped {
                    spent.push(b);
                }
            }
            proof {
                assert(effects@ =~= start + enemy_fire(g, enemy@.take(k + 1), contacts@).3);
            }
            k = k + 1;
        }
        assert(enemy@.take(enemy@.len() as int) =~= enemy@);
        let ghost e = enemy_fire(g, g.invader_bullets, contacts@);
        proof {
            lemma_enemy_fire_frame(g, g.invader_bullets, contacts@);
        }

        let mut m: usize = 0;
        while m < spent.len()
            invariant
                m <= spent@.len(),
                spent@ == e.1,
                self@ == (GameView { invader_bullets: drop_each(g.invader_bullets, spent@.take(m as int)), ..e.0 }),
                effects@ == start + e.3 + despawn_all(spent@.take(m as int)),
            decreases spent@.len() - m,
        {
            proof {
                assert(spent@.take(m + 1).drop_last() =~= spent@.take(m as int));
            }
            remove_all(&mut self.invader_bullets, spent[m]);
            effects.push(Effect::Despawn(spent[m]));
            proof {
                assert(self@ =~= (GameView { invader_bullets: drop_each(g.invader_bullets, spent@.take(m + 1)), ..e.0 }));
                assert(effects@ =~= start + e.3 + despawn_all(spent@.take(m + 1)));
            }
            m = m + 1;
        }
        assert(spent@.take(spent@.len() as int) =~= spent@);
        let ghost d = self@;

        let mut h: usize = 0;
        while h < hit.len()
            invariant
                h <= hit@.len(),
                hit@ == e.2,
                forall|q: int| 0 <= q < hit@.len() ==> #[trigger] hit@[q] < d.players.len(),
                self@ == take_hits(d, hit@.take(h as int)).0,
                effects@ == start + e.3 + despawn_all(e.1) + take_hits(d, hit@.take(h as int)).1,
            decreases hit@.len() - h,
        {
            proof {
                assert(hit@.take(h + 1).drop_last() =~= hit@.take(h as int));
                assert forall|q: int| 0 <= q < hit@.take(h as int).len() implies #[trigger] hit@.take(h as int)[q] < d.players.len() by {
                    assert(hit@.take(h as int)[q] == hit@[q]);
                }
                lemma_take_hits_len(d, hit@.take(h as int));
                lemma_roster_view(self.players@);
            }
            self.player_hit(hit[h], effects);
            proof {
                assert(effects@ =~= start + e.3 + despawn_all(e.1) + take_hits(d, hit@.take(h + 1)).1);
            }
            h = h + 1;
        }
        assert(hit@.take(hit@.len() as int) =~= hit@);
        assert(effects@ =~= start + invader_volley(g, contacts@).1);
    }

    /// Whether `resolve_bullet_hits` can pay this frame's hits: every
    /// cannon's kills fit its score and its streak stays in range (see
    /// `hits_pay_fit`).
    pub fn can_pay_bullet_hits(&self, contacts: &[Contact]) -> (fits: bool)
        ensures
            fits == hits_pay_fit(self@, contacts@),
    {
        let ghost g = self@;
        proof {
            lemma_roster_view(self.players@);
        }
        let mut invaders: Vec<Invader> = self.invaders.clone();
        let mut blocks: Vec<u64> = self.barrier_blocks.clone();
        assert(invaders@ =~= g.invaders);
        assert(blocks@ =~= g.barrier_blocks);
        let mut k: usize = 0;
        while k < self.players.len()
            invariant
                k <= self.players@.len(),
                g == self@,
                g.players.len() == self.players@.len(),
                forall|j: int| 0 <= j < self.players@.len() ==> #[trigger] g.players[j] == self.players@[j]@,
                invaders@ == all_cannons(g, contacts@, k as int).0.invaders,
                blocks@ == all_cannons(g, contacts@, k as int).0.barrier_blocks,
                forall|q: int| 0 <= q < k ==> #[trigger] volley_pays_fit(all_cannons(g, contacts@, q).0, q, contacts@),
            decreases self.players@.len() - k,
        {
            let ghost a = all_cannons(g, contacts@, k as int).0;
            proof {
                lemma_all_cannons_frame(g, contacts@, k as int);
                lemma_cannon_volley_frame(a, k as int, contacts@);
                assert(a.players[k as int] == g.players[k as int]);
                lemma_volley_prefix(a.invaders, a.barrier_blocks, g.players[k as int].bullets, contacts@, 0);
            }
            let shots = run_volley(&mut invaders, &mut blocks, self.players[k].bullets.as_slice(), contacts);
            if !points_room(self.players[k].score, shots.as_slice()) {
                assert(!volley_pays_fit(a, k as int, contacts@));
                return false;
            }
            let spent = spent_list(self.players[k].bullets.as_slice(), shots.as_slice());
            if !streak_room(self.players[k].shot_streak, spent.as_slice()) {
                assert(!volley_pays_fit(a, k as int, contacts@));
                return false;
            }
            assert(volley_pays_fit(a, k as int, contacts@));
            k = k + 1;
        }
        true
    }

    /// Resolve this frame's started contacts: each cannon's bullets kill
    /// invaders and chip barriers (cannon by cannon); the fleet's bullets
    /// hit any live cannon and chip barriers. Every bullet is spent by its
    /// first hit.
    pub fn resolve_bullet_hits(&mut self, contacts: &[Contact], effects: &mut Vec<Effect>)
        requires
            hits_pay_fit(old(self)@, contacts@),
        ensures
            final(self)@ == resolve_hits(old(self)@, contacts@).0,
            final(effects)@ == old(effects)@ + resolve_hits(old(self)@, contacts@).1,
    {
        let ghost g = self@;
        let ghost start = effects@;
        proof {
            lemma_roster_view(self.players@);
        }
        let n = self.players.len();
        let mut index: usize = 0;
        while index < n
            invariant
                index <= n,
                n == g.players.len(),
                self.players@.len() == n,
                self@ == all_cannons(g, contacts@, index as int).0,
                effects@ == start + all_cannons(g, contacts@, index as int).1,
                forall|j: int| index <= j < n ==> #[trigger] self@.players[j] == g.players[j],
                hits_pay_fit(g, contacts@),
            decreases n - index,
        {
            proof {
                lemma_roster_view(self.players@);
                lemma_cannon_volley_frame(self@, index as int, contacts@);
                assert(volley_pays_fit(all_cannons(g, contacts@, index as int).0, index as int, contacts@));
            }
            self.resolve_one_cannons_bullets(index, contacts, effects);
            proof {
                lemma_roster_view(self.players@);
                assert(effects@ =~= start + all_cannons(g, contacts@, index + 1).1);
            }
            index = index + 1;
        }
        self.resolve_invader_bullets(contacts, effects);
        assert(effects@ =~= start + resolve_hits(g, contacts@).1);
    }

    /// Invader return fire: for the pseudo-random draw `rand`, the shot comes
    /// from the bottom-most invader of the live column the draw picks
    /// (see `pick_shooter_column`). No invader, no shooter.
    pub fn invader_shooter(&self, rand: u32) -> (shooter: Option<u64>)
        ensures
            self.invaders@.len() == 0 ==> shooter is None,
            self.invaders@.len() > 0 ==> exists|k: int|
                is_bottom_of(self.invaders@, shooter_column(self.invaders@, rand), k) && shooter == Some(
                    #[trigger] self.invaders@[k].entity,
                ),
    {
        if self.invaders.len() == 0 {
            return None;
        }
        let cols = live_columns(self.invaders.as_slice());
        assert(cols@.contains(self.invaders@[0].col));
        let col = pick_shooter_column(cols.as_slice(), rand);
        let ghost invaders = self.invaders@;
        let mut best: Option<usize> = None;
        let mut k: usize = 0;
        while k < self.invaders.len()
            invariant
                k <= invaders.len(),
                invaders == self.invaders@,
                best is None ==> forall|j: int| 0 <= j < k ==> #[trigger] invaders[j].col != col,
                best matches Some(b) ==> {
                    &&& b < k
                    &&& invaders[b as int].col == col
                    &&& forall|j: int| 0 <= j < k && #[trigger] invaders[j].col == col ==> invaders[j].row <= invaders[b as int].row
                    &&& forall|j: int| b < j < k && #[trigger] invaders[j].col == col ==> invaders[j].row < invaders[b as int].row
                },
            decreases invaders.len() - k,
        {
            if self.invaders[k].col == col {
                match best {
                    None => {
                        best = Some(k);
                    },
                    Some(b) => {
                        if self.invaders[k].row >= self.invaders[b].row {
                            best = Some(k);
                        }
                    },
                }
            }
            k = k + 1;
        }
        match best {
            Some(b) => {
                assert(is_bottom_of(invaders, col, b as int));
                Some(self.invaders[b].entity)
            },
            None => {
                proof {
                    let q = choose|q: int| 0 <= q < invaders.len() && #[trigger] invaders[q].col == col;
                    assert(invaders[q].col == col);
                }
                None
            },
        }
    }

    /// Player bullets and invader bullets flying opposite ways cancel each
    /// other in a flash. `overlaps` holds the `(player bullet, invader
    /// bullet)` pairs whose boxes overlap this frame (the player bullet's box
    /// inflated by half a frame of closing speed). A cancel is not a kill:
    /// the owner's streak resets.
    pub fn cancel_crossing_bullets(&mut self, overlaps: &[(u64, u64)], effects: &mut Vec<Effect>)
        ensures
            final(self)@ == cancel_crossings(old(self)@, overlaps@).0,
            final(effects)@ == old(effects)@ + cancel_crossings(old(self)@, overlaps@).1,
    {
        if self.invader_bullets.len() == 0 {
            return;
        }
        let ghost g = self@;
        let ghost start = effects@;
        let owned = owned_bullet_list(self.players.as_slice());
        let mut cancelled: Vec<(usize, u64, u64)> = Vec::new();
        let mut k: usize = 0;
        while k < owned.len()
            invariant
                k <= owned@.len(),
                owned@ == owned_bullets(g.players),
                self@ == g,
                cancelled@ == crossings(owned@.take(k as int), g.invader_bullets, overlaps@),
                effects@ == start + cancelled@.map_values(|c: (usize, u64, u64)| Effect::BulletsCancelled(c.1)),
            decreases owned@.len() - k,
        {
            let (idx, mine) = owned[k];
            proof {
                assert(owned@.take(k + 1).drop_last() =~= owned@.take(k as int));
                assert(owned@.take(k + 1).last() == owned@[k as int]);
                lemma_first_where(g.invader_bullets, crossing_pred(mine, cancelled@, overlaps@));
            }
            let ghost pred = crossing_pred(mine, cancelled@, overlaps@);
            let mut t: usize = 0;
            while t < self.invader_bullets.len()
                invariant
                    t <= self.invader_bullets@.len(),
                    self@ == g,
                    pred == crossing_pred(mine, cancelled@, overlaps@),
                    forall|j: int| 0 <= j < t ==> !pred(#[trigger] g.invader_bullets[j]),
                ensures
                    t <= self.invader_bullets@.len(),
                    forall|j: int| 0 <= j < t ==> !pred(#[trigger] g.invader_bullets[j]),
                    t < self.invader_bullets@.len() ==> pred(g.invader_bullets[t as int]),
                decreases self.invader_bullets@.len() - t,
            {
                let theirs = self.invader_bullets[t];
                if !already_taken(cancelled.as_slice(), theirs) && contains_pair(overlaps, mine, theirs) {
                    break;
                }
                t = t + 1;
            }
            proof {
                lemma_first_where(g.invader_bullets, pred);
            }
            if t < self.invader_bullets.len() {
                let theirs = self.invader_bullets[t];
                effects.push(Effect::BulletsCancelled(mine));
                cancelled.push((idx, mine, theirs));
                proof {
                    assert(first_where(g.invader_bullets, pred) == t);
                }
            } else {
                proof {
                    assert(first_where(g.invader_bullets, pred) == g.invader_bullets.len());
                }
            }
            proof {
                assert(effects@ =~= start + cancelled@.map_values(|c: (usize, u64, u64)| Effect::BulletsCancelled(c.1)));
            }
            k = k + 1;
        }
        assert(owned@.take(owned@.len() as int) =~= owned@);
        let ghost cs = cancelled@;
        let ghost head = effects@;
        proof {
            lemma_owned_bullets(g.players);
            lemma_crossings_owner(owned@, g.invader_bullets, overlaps@, g.players.len() as int);
        }

        let mut m: usize = 0;
        while m < cancelled.len()
            invariant
                m <= cancelled@.len(),
                cancelled@ == cs,
                forall|q: int| 0 <= q < cs.len() ==> #[trigger] cs[q].0 < g.players.len(),
                self@ == cancel_all(g, cs.take(m as int)).0,
                effects@ == head + cancel_all(g, cs.take(m as int)).1,
            decreases cancelled@.len() - m,
        {
            proof {
                assert(cs.take(m + 1).drop_last() =~= cs.take(m as int));
                assert forall|q: int| 0 <= q < cs.take(m as int).len() implies #[trigger] cs.take(m as int)[q].0 < g.players.len() by {
                    assert(cs.take(m as int)[q] == cs[q]);
                }
                lemma_cancel_all_len(g, cs.take(m as int));
                lemma_roster_view(self.players@);
            }
            let (idx, mine, theirs) = cancelled[m];
            self.finish_player_shot(idx, mine, false, effects);
            remove_all(&mut self.invader_bullets, theirs);
            effects.push(Effect::Despawn(theirs));
            proof {
                assert(self@ =~= cancel_all(g, cs.take(m + 1)).0);
                assert(effects@ =~= head + cancel_all(g, cs.take(m + 1)).1);
            }
            m = m + 1;
        }
        assert(cs.take(cs.len() as int) =~= cs);
    }

    /// Remove the bullets that left the playfield or were despawned by their
    /// lifetime safety net: `stray` names them. A player bullet ending this
    /// way is a miss and resets its owner's streak.
    pub fn cull_stray_bullets(&mut self, stray: &[u64], effects: &mut Vec<Effect>)
        ensures
            final(self)@ == cull(old(self)@, stray@).0,
            final(effects)@ == old(effects)@ + cull(old(self)@, stray@).1,
    {
        let ghost g = self@;
        let ghost start = effects@;
        let ghost sp = is_stray_shot(stray@);
        let owned = owned_bullet_list(self.players.as_slice());
        proof {
            lemma_owned_bullets(g.players);
        }
        let mut k: usize = 0;
        while k < owned.len()
            invariant
                k <= owned@.len(),
                owned@ == owned_bullets(g.players),
                forall|q: int| 0 <= q < owned@.len() ==> #[trigger] owned@[q].0 < g.players.len(),
                sp == is_stray_shot(stray@),
                self@ == miss_all(g, owned@.take(k as int).filter(sp)).0,
                effects@ == start + miss_all(g, owned@.take(k as int).filter(sp)).1,
            decreases owned@.len() - k,
        {
            let ghost done = owned@.take(k as int).filter(sp);
            proof {
                reveal(Seq::filter);
                assert(owned@.take(k + 1).drop_last() =~= owned@.take(k as int));
                assert(owned@.take(k + 1).last() == owned@[k as int]);
                owned@.take(k as int).lemma_filter_len(sp);
                assert forall|q: int| 0 <= q < done.len() implies #[trigger] done[q].0 < g.players.len() by {
                    lemma_filter_subset(owned@.take(k as int), sp);
                    assert(owned@.take(k as int).contains(done[q]));
                }
                lemma_miss_all_frame(g, done);
                lemma_roster_view(self.players@);
            }
            let (idx, bullet) = owned[k];
            if contains_id(stray, bullet) {
                assert(sp(owned@[k as int]));
                self.finish_player_shot(idx, bullet, false, effects);
                proof {
                    assert(owned@.take(k + 1).filter(sp) =~= done.push((idx, bullet)));
                    assert(done.push((idx, bullet)).drop_last() =~= done);
                    assert(effects@ =~= start + miss_all(g, owned@.take(k + 1).filter(sp)).1);
                }
            } else {
                assert(!sp(owned@[k as int]));
            }
            k = k + 1;
        }
        assert(owned@.take(owned@.len() as int) =~= owned@);
        let ghost a = self@;
        let ghost mid = effects@;
        proof {
            let all = owned@.filter(sp);
            assert forall|q: int| 0 <= q < all.len() implies #[trigger] all[q].0 < g.players.len() by {
                lemma_filter_subset(owned@, sp);
                assert(owned@.contains(all[q]));
            }
            lemma_miss_all_frame(g, all);
        }

        let ghost ep = is_stray(stray@);
        let mut gone: Vec<u64> = Vec::new();
        let mut e: usize = 0;
        while e < self.invader_bullets.len()
            invariant
                e <= self.invader_bullets@.len(),
                self@ == a,
                ep == is_stray(stray@),
                gone@ == a.invader_bullets.take(e as int).filter(ep),
            decreases self.invader_bullets@.len() - e,
        {
            proof {
                reveal(Seq::filter);
                assert(a.invader_bullets.take(e + 1).drop_last() =~= a.invader_bullets.take(e as int));
                assert(a.invader_bullets.take(e + 1).last() == a.invader_bullets[e as int]);
            }
            let b = self.invader_bullets[e];
            if contains_id(stray, b) {
                assert(ep(b));
                gone.push(b);
            } else {
                assert(!ep(b));
            }
            e = e + 1;
        }
        assert(a.invader_bullets.take(a.invader_bullets.len() as int) =~= a.invader_bullets);

        let mut m: usize = 0;
        while m < gone.len()
            invariant
                m <= gone@.len(),
                self@ == (GameView { invader_bullets: drop_each(a.invader_bullets, gone@.take(m as int)), ..a }),
                effects@ == mid + despawn_all(gone@.take(m as int)),
            decreases gone@.len() - m,
        {
            proof {
                assert(gone@.take(m + 1).drop_last() =~= gone@.take(m as int));
            }
            remove_all(&mut self.invader_bullets, gone[m]);
            effects.push(Effect::Despawn(gone[m]));
            proof {
                assert(self@ =~= (GameView { invader_bullets: drop_each(a.invader_bullets, gone@.take(m + 1)), ..a }));
                assert(effects@ =~= mid + despawn_all(gone@.take(m + 1)));
            }
            m = m + 1;
        }
        assert(gone@.take(gone@.len() as int) =~= gone@);
    }

    /// Victory the moment the last invader dies.
    pub fn check_win_condition(&mut self, effects: &mut Vec<Effect>)
        ensures
            final(self)@ == win_check(old(self)@).0,
            final(effects)@ == old(effects)@ + win_check(old(self)@).1,
    {
        if self.state == GameState::Playing && self.invaders.len() == 0 {
            proof {
                lemma_roster_view(self.players@);
                assert(roster_lives(self@.players) =~= self.players@.map_values(|p: PlayerState| p.lives));
            }
            self.unlock_win_achievements(effects);
            self.finish_game(true, effects);
            assert(effects@ =~= old(effects)@ + win_check(old(self)@).1);
        } else {
            assert(effects@ =~= old(effects)@ + win_check(old(self)@).1);
        }
    }
}

} // verus!
