//! Entity ids are never shared: every id the session tracks (an invader, a
//! barrier block, a bullet of the fleet or of a cannon, a cannon's body, the
//! mystery ship) stands in exactly one place, once. Only spawning brings an
//! id in, and every other step only lets ids go, so the distinctness that
//! fresh bodies bring is kept for the whole match. What leaves the world
//! when a match winds down or a new one starts is stated here too.

use vstd::prelude::*;

use crate::gameplay::combat::{
    lemma_crossings_pair,
    after_misses, cancel_crossings, cull, lemma_cancel_laws, lemma_cull_laws, mine_of, not_in, taken_theirs, crossings, unretired,
    win_check,
    all_cannons, cannon_volley, chip, enemy_fire, lemma_all_cannons_frame, lemma_cannon_volley_frame, lemma_drop_each,
    lemma_enemy_fire_frame, lemma_take_hits_len, resolve_hits, invader_volley, spent_bullets, strike, take_hits, volley,
    kill_points,
};
use crate::gameplay::flow::{disarm, disarm_roster, lemma_no_roster_bullets, roster_bodies, roster_bullets, wind_down};
use crate::gameplay::players::{lemma_owned_bullets, lemma_retire_shots, owned_bullets, retire_shot, retire_shots, take_hit};
use crate::gameplay::ufo::{hits_ship, ufo_hit};
use crate::gameplay::formation::{chomp, standing};
use crate::gameplay::flow::{formation, fresh_roster, start, state_input};
use crate::gameplay::{first_where, lemma_first_where};
use crate::menu::{mode_select_input, title_input};
use crate::gameplay::{entities, first_touched, lemma_first_touched, other_than, Effect};
use crate::types::{GameState, GameView, Invader, PlayerView};

verus! {

/// How many times `x` occurs in `s`.
pub open spec fn occ(s: Seq<u64>, x: u64) -> nat
    decreases s.len(),
{
    if s.len() == 0 {
        0
    } else {
        occ(s.drop_last(), x) + if s.last() == x {
            1nat
        } else {
            0nat
        }
    }
}

/// How many places of the session hold id `x`.
pub open spec fn id_count(g: GameView, x: u64) -> nat {
    occ(entities(g.invaders), x) + occ(g.barrier_blocks, x) + occ(g.invader_bullets, x) + occ(
        roster_bullets(g.players),
        x,
    ) + occ(roster_bodies(g.players), x) + if g.ufo == Some(x) {
        1nat
    } else {
        0nat
    }
}

/// No id stands in two places, or twice in one.
pub open spec fn ids_distinct(g: GameView) -> bool {
    forall|x: u64| #[trigger] id_count(g, x) <= 1
}

/// Every id occurs in `b` at most as often as in `a`.
pub open spec fn list_shrinks(a: Seq<u64>, b: Seq<u64>) -> bool {
    forall|x: u64| #[trigger] occ(b, x) <= occ(a, x)
}

/// Cannon `q` holds no id that cannon `p` did not: its bullets only went,
/// and its body stayed or went.
pub open spec fn player_shrinks(p: PlayerView, q: PlayerView) -> bool {
    &&& list_shrinks(p.bullets, q.bullets)
    &&& (q.entity == p.entity || q.entity is None)
}

/// Session `h` holds no id that session `g` did not, place by place: ids
/// only went.
pub open spec fn adds_no_ids(g: GameView, h: GameView) -> bool {
    &&& list_shrinks(entities(g.invaders), entities(h.invaders))
    &&& list_shrinks(g.barrier_blocks, h.barrier_blocks)
    &&& list_shrinks(g.invader_bullets, h.invader_bullets)
    &&& h.players.len() == g.players.len()
    &&& forall|j: int| 0 <= j < g.players.len() ==> player_shrinks(g.players[j], #[trigger] h.players[j])
    &&& (h.ufo == g.ufo || h.ufo is None)
}

/// Occurrences add up over a concatenation.
pub proof fn lemma_occ_concat(a: Seq<u64>, b: Seq<u64>, x: u64)
    ensures
        occ(a + b, x) == occ(a, x) + occ(b, x),
    decreases b.len(),
{
    if b.len() == 0 {
        assert(a + b =~= a);
    } else {
        lemma_occ_concat(a, b.drop_last(), x);
        assert((a + b).drop_last() =~= a + b.drop_last());
    }
}

/// Filtering only lets ids go.
pub proof fn lemma_occ_filter(s: Seq<u64>, p: spec_fn(u64) -> bool)
    ensures
        list_shrinks(s, s.filter(p)),
    decreases s.len(),
{
    reveal(Seq::filter);
    if s.len() > 0 {
        lemma_occ_filter(s.drop_last(), p);
        assert forall|x: u64| #[trigger] occ(s.filter(p), x) <= occ(s, x) by {
            assert(occ(s.drop_last().filter(p), x) <= occ(s.drop_last(), x));
            if p(s.last()) {
                assert(s.drop_last().filter(p).push(s.last()).drop_last() =~= s.drop_last().filter(p));
            }
        }
    }
}

/// The empty list holds no id.
pub proof fn lemma_occ_empty(s: Seq<u64>)
    requires
        s.len() == 0,
    ensures
        forall|x: u64| #[trigger] occ(s, x) == 0,
{
}

/// Removing one entry only lets ids go.
pub proof fn lemma_occ_remove(s: Seq<u64>, i: int)
    requires
        0 <= i < s.len(),
    ensures
        list_shrinks(s, s.remove(i)),
{
    let a = s.subrange(0, i);
    let b = s.subrange(i + 1, s.len() as int);
    assert(s.remove(i) =~= a + b);
    assert(s =~= a + seq![s[i]] + b);
    assert forall|x: u64| #[trigger] occ(s.remove(i), x) <= occ(s, x) by {
        lemma_occ_concat(a, b, x);
        lemma_occ_concat(a + seq![s[i]], b, x);
        lemma_occ_concat(a, seq![s[i]], x);
    }
}

/// Removing an invader only lets ids go.
pub proof fn lemma_entities_remove(invaders: Seq<Invader>, i: int)
    requires
        0 <= i < invaders.len(),
    ensures
        list_shrinks(entities(invaders), entities(invaders.remove(i))),
{
    assert(entities(invaders.remove(i)) =~= entities(invaders).remove(i));
    lemma_occ_remove(entities(invaders), i);
}

/// A roster whose cannons each only let ids go lets ids go.
pub proof fn lemma_roster_shrinks(ps: Seq<PlayerView>, qs: Seq<PlayerView>)
    requires
        ps.len() == qs.len(),
        forall|j: int| 0 <= j < ps.len() ==> player_shrinks(ps[j], #[trigger] qs[j]),
    ensures
        list_shrinks(roster_bullets(ps), roster_bullets(qs)),
        list_shrinks(roster_bodies(ps), roster_bodies(qs)),
    decreases ps.len(),
{
    if ps.len() > 0 {
        assert(forall|j: int| 0 <= j < ps.drop_last().len() ==> #[trigger] ps.drop_last()[j] == ps[j]);
        assert(forall|j: int| 0 <= j < qs.drop_last().len() ==> #[trigger] qs.drop_last()[j] == qs[j]);
        lemma_roster_shrinks(ps.drop_last(), qs.drop_last());
        let p = ps.last();
        let q = qs.last();
        assert(player_shrinks(ps[ps.len() - 1], qs[qs.len() - 1]));
        let pb = match p.entity {
            Some(e) => seq![e],
            None => Seq::<u64>::empty(),
        };
        let qb = match q.entity {
            Some(e) => seq![e],
            None => Seq::<u64>::empty(),
        };
        assert forall|x: u64| #[trigger] occ(roster_bullets(qs), x) <= occ(roster_bullets(ps), x) by {
            lemma_occ_concat(roster_bullets(ps.drop_last()), p.bullets, x);
            lemma_occ_concat(roster_bullets(qs.drop_last()), q.bullets, x);
            assert(occ(q.bullets, x) <= occ(p.bullets, x));
            assert(occ(roster_bullets(qs.drop_last()), x) <= occ(roster_bullets(ps.drop_last()), x));
        }
        assert forall|x: u64| #[trigger] occ(roster_bodies(qs), x) <= occ(roster_bodies(ps), x) by {
            lemma_occ_concat(roster_bodies(ps.drop_last()), pb, x);
            lemma_occ_concat(roster_bodies(qs.drop_last()), qb, x);
            assert(occ(roster_bodies(qs.drop_last()), x) <= occ(roster_bodies(ps.drop_last()), x));
            assert(occ(seq![x], x) == 1) by {
                assert(seq![x].drop_last() =~= Seq::<u64>::empty());
            }
            if let Some(e) = q.entity {
                assert(seq![e].drop_last() =~= Seq::<u64>::empty());
            }
            if let Some(e) = p.entity {
                assert(seq![e].drop_last() =~= Seq::<u64>::empty());
            }
        }
    }
}

/// Letting ids go never makes an id appear more often in the session.
pub proof fn lemma_adds_no_ids_count(g: GameView, h: GameView)
    requires
        adds_no_ids(g, h),
    ensures
        forall|x: u64| #[trigger] id_count(h, x) <= id_count(g, x),
{
    lemma_roster_shrinks(g.players, h.players);
    assert forall|x: u64| #[trigger] id_count(h, x) <= id_count(g, x) by {
        assert(occ(entities(h.invaders), x) <= occ(entities(g.invaders), x));
        assert(occ(h.barrier_blocks, x) <= occ(g.barrier_blocks, x));
        assert(occ(h.invader_bullets, x) <= occ(g.invader_bullets, x));
        assert(occ(roster_bullets(h.players), x) <= occ(roster_bullets(g.players), x));
        assert(occ(roster_bodies(h.players), x) <= occ(roster_bodies(g.players), x));
    }
}

/// A step that only lets ids go keeps them distinct.
pub proof fn lemma_adds_no_ids_keeps_distinct(g: GameView, h: GameView)
    requires
        adds_no_ids(g, h),
        ids_distinct(g),
    ensures
        ids_distinct(h),
{
    lemma_adds_no_ids_count(g, h);
    assert forall|x: u64| #[trigger] id_count(h, x) <= 1 by {
        assert(id_count(g, x) <= 1);
    }
}

/// Letting ids go is reflexive.
pub proof fn lemma_adds_no_ids_refl(g: GameView)
    ensures
        adds_no_ids(g, g),
{
}

/// Letting ids go, twice, lets ids go.
pub proof fn lemma_adds_no_ids_trans(a: GameView, b: GameView, c: GameView)
    requires
        adds_no_ids(a, b),
        adds_no_ids(b, c),
    ensures
        adds_no_ids(a, c),
{
    assert forall|x: u64| #[trigger] occ(entities(c.invaders), x) <= occ(entities(a.invaders), x) by {
        assert(occ(entities(b.invaders), x) <= occ(entities(a.invaders), x));
    }
    assert forall|x: u64| #[trigger] occ(c.barrier_blocks, x) <= occ(a.barrier_blocks, x) by {
        assert(occ(b.barrier_blocks, x) <= occ(a.barrier_blocks, x));
    }
    assert forall|x: u64| #[trigger] occ(c.invader_bullets, x) <= occ(a.invader_bullets, x) by {
        assert(occ(b.invader_bullets, x) <= occ(a.invader_bullets, x));
    }
    assert forall|j: int| 0 <= j < a.players.len() implies player_shrinks(a.players[j], #[trigger] c.players[j]) by {
        assert(player_shrinks(a.players[j], b.players[j]));
        assert(player_shrinks(b.players[j], c.players[j]));
        assert forall|x: u64| #[trigger] occ(c.players[j].bullets, x) <= occ(a.players[j].bullets, x) by {
            assert(occ(b.players[j].bullets, x) <= occ(a.players[j].bullets, x));
        }
    }
}

/// Letting ids go from a list, twice, lets ids go.
pub proof fn lemma_list_shrinks_trans(a: Seq<u64>, b: Seq<u64>, c: Seq<u64>)
    requires
        list_shrinks(a, b),
        list_shrinks(b, c),
    ensures
        list_shrinks(a, c),
{
    assert forall|x: u64| #[trigger] occ(c, x) <= occ(a, x) by {
        assert(occ(b, x) <= occ(a, x));
        assert(occ(c, x) <= occ(b, x));
    }
}

/// Retiring a shot lets only that cannon's bullet go.
pub proof fn lemma_retire_shot_ids(g: GameView, index: int, bullet: u64, killed: bool)
    requires
        0 <= index < g.players.len(),
    ensures
        adds_no_ids(g, retire_shot(g, index, bullet, killed).0),
{
    lemma_occ_filter(g.players[index].bullets, other_than(bullet));
}

/// Retiring shots, one after the other, only lets ids go.
pub proof fn lemma_retire_shots_ids(g: GameView, index: int, done: Seq<(u64, bool)>)
    requires
        0 <= index < g.players.len(),
    ensures
        adds_no_ids(g, retire_shots(g, index, done).0),
    decreases done.len(),
{
    if done.len() == 0 {
        lemma_adds_no_ids_refl(g);
    } else {
        lemma_retire_shots_ids(g, index, done.drop_last());
        lemma_retire_shots(g, index, done.drop_last());
        let prev = retire_shots(g, index, done.drop_last()).0;
        lemma_retire_shot_ids(prev, index, done.last().0, done.last().1);
        lemma_adds_no_ids_trans(g, prev, retire_shots(g, index, done).0);
    }
}

/// A volley only lets invaders and barrier blocks go.
pub proof fn lemma_volley_ids(invaders: Seq<Invader>, blocks: Seq<u64>, bullets: Seq<u64>, contacts: Seq<crate::gameplay::Contact>)
    ensures
        list_shrinks(entities(invaders), entities(volley(invaders, blocks, bullets, contacts).0)),
        list_shrinks(blocks, volley(invaders, blocks, bullets, contacts).1),
    decreases bullets.len(),
{
    if bullets.len() > 0 {
        lemma_volley_ids(invaders, blocks, bullets.drop_last(), contacts);
        let prev = volley(invaders, blocks, bullets.drop_last(), contacts);
        let b = bullets.last();
        let i = first_touched(entities(prev.0), b, contacts);
        lemma_first_touched(entities(prev.0), b, contacts);
        let st = strike(prev.0, prev.1, b, contacts);
        if i < prev.0.len() {
            lemma_entities_remove(prev.0, i);
        } else {
            let j = first_touched(prev.1, b, contacts);
            lemma_occ_filter(prev.1, other_than(prev.1[j]));
        }
        lemma_list_shrinks_trans(entities(invaders), entities(prev.0), entities(st.0));
        lemma_list_shrinks_trans(blocks, prev.1, st.1);
    }
}

/// One cannon's volley only lets ids go.
pub proof fn lemma_cannon_volley_ids(g: GameView, index: int, contacts: Seq<crate::gameplay::Contact>)
    requires
        0 <= index < g.players.len(),
    ensures
        adds_no_ids(g, cannon_volley(g, index, contacts).0),
{
    let p = g.players[index];
    let v = volley(g.invaders, g.barrier_blocks, p.bullets, contacts);
    let scored = GameView {
        invaders: v.0,
        barrier_blocks: v.1,
        players: g.players.update(index, PlayerView { score: (p.score + kill_points(v.2)) as u32, ..p }),
        ..g
    };
    lemma_volley_ids(g.invaders, g.barrier_blocks, p.bullets, contacts);
    assert(adds_no_ids(g, scored));
    lemma_retire_shots_ids(scored, index, spent_bullets(p.bullets, v.2));
    lemma_adds_no_ids_trans(g, scored, cannon_volley(g, index, contacts).0);
}

/// Every cannon's volley in turn only lets ids go.
pub proof fn lemma_all_cannons_ids(g: GameView, contacts: Seq<crate::gameplay::Contact>, n: int)
    requires
        0 <= n <= g.players.len(),
    ensures
        adds_no_ids(g, all_cannons(g, contacts, n).0),
    decreases n,
{
    if n == 0 {
        lemma_adds_no_ids_refl(g);
    } else {
        lemma_all_cannons_ids(g, contacts, n - 1);
        lemma_all_cannons_frame(g, contacts, n - 1);
        let prev = all_cannons(g, contacts, n - 1).0;
        lemma_cannon_volley_ids(prev, n - 1, contacts);
        lemma_adds_no_ids_trans(g, prev, all_cannons(g, contacts, n).0);
    }
}

/// The fleet's bullets only let barrier blocks go as they strike.
pub proof fn lemma_enemy_fire_ids(g: GameView, bullets: Seq<u64>, contacts: Seq<crate::gameplay::Contact>)
    ensures
        adds_no_ids(g, enemy_fire(g, bullets, contacts).0),
    decreases bullets.len(),
{
    if bullets.len() == 0 {
        lemma_adds_no_ids_refl(g);
    } else {
        lemma_enemy_fire_ids(g, bullets.drop_last(), contacts);
        let prev = enemy_fire(g, bullets.drop_last(), contacts).0;
        let e = enemy_fire(g, bullets, contacts).0;
        let b = bullets.last();
        let j = first_touched(prev.barrier_blocks, b, contacts);
        lemma_first_touched(prev.barrier_blocks, b, contacts);
        if j < prev.barrier_blocks.len() {
            lemma_occ_filter(prev.barrier_blocks, other_than(prev.barrier_blocks[j]));
        }
        assert(adds_no_ids(prev, e));
        lemma_adds_no_ids_trans(g, prev, e);
    }
}

/// Clearing every bullet lets only bullets go.
pub proof fn lemma_disarm_ids(g: GameView)
    ensures
        adds_no_ids(g, disarm(g).0),
{
    let d = disarm(g).0;
    assert(disarm_roster(g.players).len() == g.players.len());
    lemma_occ_empty(d.invader_bullets);
    assert forall|j: int| 0 <= j < g.players.len() implies player_shrinks(g.players[j], #[trigger] d.players[j]) by {
        lemma_occ_empty(d.players[j].bullets);
    }
}

/// Winding a match down lets only bullets and the ship go.
pub proof fn lemma_wind_down_ids(g: GameView, state: GameState)
    ensures
        adds_no_ids(g, wind_down(g, state).0),
{
    lemma_disarm_ids(g);
    lemma_adds_no_ids_trans(g, disarm(g).0, wind_down(g, state).0);
}

/// A hit lets bullets, and at the last life the cannon's body, go.
pub proof fn lemma_take_hit_ids(g: GameView, index: usize)
    requires
        index < g.players.len(),
    ensures
        adds_no_ids(g, take_hit(g, index).0),
{
    let p = g.players[index as int];
    let a = disarm(g);
    lemma_disarm_ids(g);
    assert(disarm_roster(g.players).len() == g.players.len());
    let left = crate::gameplay::players::life_lost(p.lives);
    let hurt = PlayerView {
        shot_streak: 0,
        lives: left,
        entity: if left == 0 { None } else { p.entity },
        ..a.0.players[index as int]
    };
    let g2 = GameView { players: a.0.players.update(index as int, hurt), ..a.0 };
    assert(adds_no_ids(a.0, g2));
    lemma_adds_no_ids_trans(g, a.0, g2);
    lemma_wind_down_ids(g2, GameState::GameOver { won: false });
    lemma_adds_no_ids_trans(g, g2, wind_down(g2, GameState::GameOver { won: false }).0);
}

/// Hits, one after the other, only let ids go.
pub proof fn lemma_take_hits_ids(g: GameView, hit: Seq<usize>)
    requires
        forall|k: int| 0 <= k < hit.len() ==> #[trigger] hit[k] < g.players.len(),
    ensures
        adds_no_ids(g, take_hits(g, hit).0),
    decreases hit.len(),
{
    if hit.len() == 0 {
        lemma_adds_no_ids_refl(g);
    } else {
        assert(forall|k: int| 0 <= k < hit.drop_last().len() ==> #[trigger] hit.drop_last()[k] == hit[k]);
        lemma_take_hits_ids(g, hit.drop_last());
        lemma_take_hits_len(g, hit.drop_last());
        let prev = take_hits(g, hit.drop_last()).0;
        assert(hit[hit.len() - 1] == hit.last());
        lemma_take_hit_ids(prev, hit.last());
        lemma_adds_no_ids_trans(g, prev, take_hits(g, hit).0);
    }
}

/// Resolving this frame's hits only lets ids go: invaders killed, blocks
/// chipped, bullets spent, bodies of cannons out of lives, and, when the
/// match is lost, every bullet and the ship.
pub proof fn lemma_resolve_hits_adds_no_ids(g: GameView, contacts: Seq<crate::gameplay::Contact>)
    ensures
        adds_no_ids(g, resolve_hits(g, contacts).0),
{
    let a = all_cannons(g, contacts, g.players.len() as int).0;
    lemma_all_cannons_ids(g, contacts, g.players.len() as int);
    let e = enemy_fire(a, a.invader_bullets, contacts);
    lemma_enemy_fire_ids(a, a.invader_bullets, contacts);
    lemma_enemy_fire_frame(a, a.invader_bullets, contacts);
    let d = GameView { invader_bullets: crate::gameplay::combat::drop_each(a.invader_bullets, e.1), ..e.0 };
    lemma_drop_each(a.invader_bullets, e.1);
    lemma_occ_filter(a.invader_bullets, crate::gameplay::combat::not_in(e.1));
    assert(adds_no_ids(e.0, d));
    lemma_adds_no_ids_trans(a, e.0, d);
    lemma_take_hits_ids(d, e.2);
    lemma_adds_no_ids_trans(a, d, invader_volley(a, contacts).0);
    lemma_adds_no_ids_trans(g, a, resolve_hits(g, contacts).0);
}

/// Crossing bullets cancelling only lets bullets go.
pub proof fn lemma_cancel_adds_no_ids(g: GameView, overlaps: Seq<(u64, u64)>)
    requires
        g.players.len() <= usize::MAX,
    ensures
        adds_no_ids(g, cancel_crossings(g, overlaps).0),
{
    lemma_cancel_laws(g, overlaps);
    let cs = crossings(owned_bullets(g.players), g.invader_bullets, overlaps);
    lemma_occ_filter(g.invader_bullets, not_in(taken_theirs(cs)));
    assert forall|j: int| 0 <= j < g.players.len() implies player_shrinks(
        g.players[j],
        #[trigger] cancel_crossings(g, overlaps).0.players[j],
    ) by {
        lemma_occ_filter(g.players[j].bullets, unretired(mine_of(cs), j));
        assert(cancel_crossings(g, overlaps).0.players[j] == after_misses(g.players[j], mine_of(cs), j));
    }
}

/// Culling stray bullets only lets bullets go.
pub proof fn lemma_cull_adds_no_ids(g: GameView, stray: Seq<u64>)
    requires
        g.players.len() <= usize::MAX,
    ensures
        adds_no_ids(g, cull(g, stray).0),
{
    lemma_cull_laws(g, stray);
    lemma_occ_filter(g.invader_bullets, not_in(stray));
    assert forall|j: int| 0 <= j < g.players.len() implies player_shrinks(g.players[j], #[trigger] cull(g, stray).0.players[j]) by {
        lemma_occ_filter(g.players[j].bullets, not_in(stray));
    }
}

/// Shooting the mystery ship only lets the ship and the bullet go.
pub proof fn lemma_ufo_hit_adds_no_ids(g: GameView, contacts: Seq<crate::gameplay::Contact>, rand: u32)
    ensures
        adds_no_ids(g, ufo_hit(g, contacts, rand).0),
{
    lemma_adds_no_ids_refl(g);
    if let Some(ufo) = g.ufo {
        let owned = owned_bullets(g.players);
        let k = first_where(owned, hits_ship(ufo, contacts));
        lemma_first_where(owned, hits_ship(ufo, contacts));
        if k < owned.len() {
            lemma_owned_bullets(g.players);
            let idx = owned[k].0;
            let bonus = crate::gameplay::ufo::spec_ufo_bonus(rand);
            let p = g.players[idx as int];
            let paid = GameView {
                players: g.players.update(idx as int, PlayerView { score: (p.score + bonus) as u32, ..p }),
                ufo_flash_bonus: bonus,
                ufo: None,
                ..g
            };
            assert(adds_no_ids(g, paid));
            lemma_retire_shot_ids(paid, idx as int, owned[k].1, true);
            lemma_adds_no_ids_trans(g, paid, ufo_hit(g, contacts, rand).0);
        }
    }
}

/// Marching invaders chewing barriers only lets blocks go.
pub proof fn lemma_chomp_adds_no_ids(g: GameView, eaten: Seq<u64>, lost: Seq<u64>)
    ensures
        adds_no_ids(g, chomp(g, eaten, lost).0),
{
    lemma_occ_filter(g.barrier_blocks, standing(eaten, lost));
}

/// The screens and the end of a match only let bullets and the ship go:
/// the win check, the state input during play, winding down, and the menus.
pub proof fn lemma_screens_add_no_ids(g: GameView, state: GameState, action1: bool, menu: bool, selection: u8, back: bool, confirm: bool)
    ensures
        adds_no_ids(g, win_check(g).0),
        adds_no_ids(g, state_input(g, action1, menu).0),
        adds_no_ids(g, wind_down(g, state).0),
        adds_no_ids(g, title_input(g, selection, confirm).0),
        adds_no_ids(g, mode_select_input(g, selection, back, confirm).0),
        adds_no_ids(g, crate::gameplay::flow::ground_ship(g).0),
        adds_no_ids(g, GameView { ufo: None, ..g }),
{
    lemma_adds_no_ids_refl(g);
    lemma_wind_down_ids(g, state);
    lemma_wind_down_ids(g, GameState::GameOver { won: true });
    lemma_wind_down_ids(g, GameState::TitleScreen { selection: 0 });
}

/// Occurrences of `x` in `s` count as many entries equal to `x`; with no
/// repeats there is at most one.
pub proof fn lemma_occ_no_duplicates(s: Seq<u64>)
    requires
        s.no_duplicates(),
    ensures
        forall|x: u64| #[trigger] occ(s, x) <= 1,
    decreases s.len(),
{
    if s.len() > 0 {
        let r = s.drop_last();
        assert(r.no_duplicates());
        lemma_occ_no_duplicates(r);
        assert forall|x: u64| #[trigger] occ(s, x) <= 1 by {
            assert(occ(r, x) <= 1);
            if s.last() == x {
                assert forall|i: int| 0 <= i < r.len() implies r[i] != x by {
                    assert(r[i] == s[i]);
                    assert(s[s.len() - 1] == x);
                }
                lemma_occ_absent(r, x);
            }
        }
    }
}

/// An id that no entry equals does not occur.
pub proof fn lemma_occ_absent(s: Seq<u64>, x: u64)
    requires
        forall|i: int| 0 <= i < s.len() ==> s[i] != x,
    ensures
        occ(s, x) == 0,
    decreases s.len(),
{
    if s.len() > 0 {
        assert(forall|i: int| 0 <= i < s.drop_last().len() ==> #[trigger] s.drop_last()[i] == s[i]);
        lemma_occ_absent(s.drop_last(), x);
        assert(s[s.len() - 1] == s.last());
    }
}

/// One more entry `b` adds one occurrence of `b`.
pub proof fn lemma_occ_push(s: Seq<u64>, b: u64)
    ensures
        forall|x: u64| #[trigger] occ(s.push(b), x) == occ(s, x) + if x == b {
            1nat
        } else {
            0nat
        },
{
    assert(s.push(b).drop_last() =~= s);
}

/// A bullet joining cannon `i` adds one occurrence of it to the roster's
/// bullets, and leaves the bodies as they are.
pub proof fn lemma_roster_push(ps: Seq<PlayerView>, i: int, b: u64)
    requires
        0 <= i < ps.len(),
    ensures
        ({
            let qs = ps.update(i, PlayerView { bullets: ps[i].bullets.push(b), ..ps[i] });
            &&& forall|x: u64| #[trigger] occ(roster_bullets(qs), x) == occ(roster_bullets(ps), x) + if x == b {
                1nat
            } else {
                0nat
            }
            &&& roster_bodies(qs) == roster_bodies(ps)
        }),
    decreases ps.len(),
{
    let qs = ps.update(i, PlayerView { bullets: ps[i].bullets.push(b), ..ps[i] });
    lemma_occ_push(ps[i].bullets, b);
    if i == ps.len() - 1 {
        assert(qs.drop_last() =~= ps.drop_last());
        assert forall|x: u64| #[trigger] occ(roster_bullets(qs), x) == occ(roster_bullets(ps), x) + if x == b {
            1nat
        } else {
            0nat
        } by {
            lemma_occ_concat(roster_bullets(ps.drop_last()), ps.last().bullets, x);
            lemma_occ_concat(roster_bullets(qs.drop_last()), qs.last().bullets, x);
        }
    } else {
        let pd = ps.drop_last();
        lemma_roster_push(pd, i, b);
        assert(qs.drop_last() =~= pd.update(i, PlayerView { bullets: pd[i].bullets.push(b), ..pd[i] }));
        assert(qs.last() == ps.last());
        assert forall|x: u64| #[trigger] occ(roster_bullets(qs), x) == occ(roster_bullets(ps), x) + if x == b {
            1nat
        } else {
            0nat
        } by {
            lemma_occ_concat(roster_bullets(pd), ps.last().bullets, x);
            lemma_occ_concat(roster_bullets(qs.drop_last()), qs.last().bullets, x);
        }
    }
}

/// Spawning a cannon's bullet, a fleet bullet or the mystery ship under an
/// id the session does not hold keeps ids distinct (the ship that took off
/// replaces any the session still held).
pub proof fn lemma_spawn_keeps_distinct(g: GameView, index: int, id: u64)
    requires
        ids_distinct(g),
        id_count(g, id) == 0,
    ensures
        0 <= index < g.players.len() ==> ids_distinct(
            GameView {
                players: g.players.update(index, PlayerView { bullets: g.players[index].bullets.push(id), ..g.players[index] }),
                ..g
            },
        ),
        ids_distinct(GameView { invader_bullets: g.invader_bullets.push(id), ..g }),
        ids_distinct(GameView { ufo: Some(id), ..g }),
{
    if 0 <= index < g.players.len() {
        let h = GameView {
            players: g.players.update(index, PlayerView { bullets: g.players[index].bullets.push(id), ..g.players[index] }),
            ..g
        };
        lemma_roster_push(g.players, index, id);
        assert forall|x: u64| #[trigger] id_count(h, x) <= 1 by {
            assert(id_count(g, x) <= 1);
        }
    }
    let f = GameView { invader_bullets: g.invader_bullets.push(id), ..g };
    lemma_occ_push(g.invader_bullets, id);
    assert forall|x: u64| #[trigger] id_count(f, x) <= 1 by {
        assert(id_count(g, x) <= 1);
    }
    let u = GameView { ufo: Some(id), ..g };
    assert forall|x: u64| #[trigger] id_count(u, x) <= 1 by {
        assert(id_count(g, x) <= 1);
    }
}

/// The cannons of a fresh roster have exactly the bodies it was made from.
pub proof fn lemma_fresh_roster_bodies(bodies: Seq<u64>)
    ensures
        roster_bodies(fresh_roster(bodies)) == bodies,
    decreases bodies.len(),
{
    if bodies.len() > 0 {
        lemma_fresh_roster_bodies(bodies.drop_last());
        assert(fresh_roster(bodies).drop_last() =~= fresh_roster(bodies.drop_last()));
        assert(roster_bodies(fresh_roster(bodies)) =~= bodies);
    }
}

/// A new match built from bodies that are all different holds every id
/// once: the old cannons' bullets leave the books with the old roster.
pub proof fn lemma_start_ids_distinct(g: GameView, invader_bodies: Seq<u64>, block_bodies: Seq<u64>, cannon_bodies: Seq<u64>)
    requires
        (invader_bodies + block_bodies + cannon_bodies).no_duplicates(),
    ensures
        ids_distinct(start(g, invader_bodies, block_bodies, cannon_bodies).0),
{
    let s = start(g, invader_bodies, block_bodies, cannon_bodies).0;
    assert(entities(formation(invader_bodies)) =~= invader_bodies);
    lemma_fresh_roster_bodies(cannon_bodies);
    lemma_no_roster_bullets(fresh_roster(cannon_bodies));
    let all = invader_bodies + block_bodies + cannon_bodies;
    lemma_occ_no_duplicates(all);
    assert forall|x: u64| #[trigger] id_count(s, x) <= 1 by {
        lemma_occ_concat(invader_bodies, block_bodies, x);
        lemma_occ_concat(invader_bodies + block_bodies, cannon_bodies, x);
        lemma_occ_empty(s.invader_bullets);
        lemma_occ_empty(roster_bullets(s.players));
        assert(occ(all, x) <= 1);
    }
}

/// An entry occurs at least once.
pub proof fn lemma_occ_contains(s: Seq<u64>, i: int)
    requires
        0 <= i < s.len(),
    ensures
        occ(s, s[i]) >= 1,
    decreases s.len(),
{
    if i < s.len() - 1 {
        assert(s.drop_last()[i] == s[i]);
        lemma_occ_contains(s.drop_last(), i);
    }
}

/// With every id occurring at most once, no entry repeats.
pub proof fn lemma_occ_at_most_once(s: Seq<u64>)
    requires
        forall|x: u64| #[trigger] occ(s, x) <= 1,
    ensures
        s.no_duplicates(),
    decreases s.len(),
{
    if s.len() > 0 {
        let r = s.drop_last();
        assert forall|x: u64| #[trigger] occ(r, x) <= 1 by {
            assert(occ(s, x) <= 1);
        }
        lemma_occ_at_most_once(r);
        assert forall|i: int, j: int| 0 <= i < s.len() && 0 <= j < s.len() && i != j implies s[i] != s[j] by {
            if i < s.len() - 1 && j < s.len() - 1 {
                assert(r[i] == s[i] && r[j] == s[j]);
            } else if s[i] == s[j] {
                let k = if i < s.len() - 1 { i } else { j };
                assert(r[k] == s[k]);
                lemma_occ_contains(r, k);
                assert(occ(s, s.last()) <= 1);
                assert(s[s.len() - 1] == s.last());
            }
        }
    }
}

/// The bullet ids of the owned bullets are the roster's bullets.
pub proof fn lemma_owned_ids(players: Seq<PlayerView>)
    ensures
        owned_bullets(players).map_values(|c: (usize, u64)| c.1) == roster_bullets(players),
    decreases players.len(),
{
    if players.len() > 0 {
        lemma_owned_ids(players.drop_last());
        let n = (players.len() - 1) as usize;
        let prev = owned_bullets(players.drop_last());
        let tail = players.last().bullets.map_values(|b: u64| (n, b));
        assert((prev + tail).map_values(|c: (usize, u64)| c.1) =~= prev.map_values(|c: (usize, u64)| c.1)
            + players.last().bullets);
    }
}

/// With no bullet id repeated, the crossings use each player bullet once.
pub proof fn lemma_crossings_mine_distinct(owned: Seq<(usize, u64)>, enemy: Seq<u64>, overlaps: Seq<(u64, u64)>)
    requires
        owned.map_values(|c: (usize, u64)| c.1).no_duplicates(),
    ensures
        crossings(owned, enemy, overlaps).map_values(|c: (usize, u64, u64)| c.1).no_duplicates(),
    decreases owned.len(),
{
    if owned.len() > 0 {
        let rest = owned.drop_last();
        let ids = owned.map_values(|c: (usize, u64)| c.1);
        assert(rest.map_values(|c: (usize, u64)| c.1) =~= ids.drop_last());
        lemma_crossings_mine_distinct(rest, enemy, overlaps);
        lemma_crossings_pair(rest, enemy, overlaps);
        let prev = crossings(rest, enemy, overlaps);
        let cs = crossings(owned, enemy, overlaps);
        let pm = prev.map_values(|c: (usize, u64, u64)| c.1);
        let cm = cs.map_values(|c: (usize, u64, u64)| c.1);
        if cs.len() > prev.len() {
            assert(cm =~= pm.push(owned.last().1));
            assert forall|k: int| 0 <= k < pm.len() implies pm[k] != owned.last().1 by {
                assert(rest.contains((prev[k].0, prev[k].1)));
                let m = choose|m: int| 0 <= m < rest.len() && rest[m] == (prev[k].0, prev[k].1);
                assert(ids[m] == rest[m].1);
                assert(ids[owned.len() - 1] == owned.last().1);
            }
        } else {
            assert(cm =~= pm);
        }
    }
}

/// Crossing bullets cancel one for one: with ids distinct, no player bullet
/// and no invader bullet is paired twice.
pub proof fn lemma_cancel_one_for_one(g: GameView, overlaps: Seq<(u64, u64)>)
    requires
        ids_distinct(g),
    ensures
        ({
            let cs = crossings(owned_bullets(g.players), g.invader_bullets, overlaps);
            &&& cs.map_values(|c: (usize, u64, u64)| c.1).no_duplicates()
            &&& taken_theirs(cs).no_duplicates()
        }),
{
    lemma_owned_ids(g.players);
    assert forall|x: u64| #[trigger] occ(roster_bullets(g.players), x) <= 1 by {
        assert(id_count(g, x) <= 1);
    }
    lemma_occ_at_most_once(roster_bullets(g.players));
    lemma_crossings_mine_distinct(owned_bullets(g.players), g.invader_bullets, overlaps);
    lemma_crossings_pair(owned_bullets(g.players), g.invader_bullets, overlaps);
}

/// Every bullet a cannon has in flight is among the roster's bullets.
pub proof fn lemma_roster_bullets_member(players: Seq<PlayerView>, j: int, i: int)
    requires
        players.len() <= usize::MAX,
        0 <= j < players.len(),
        0 <= i < players[j].bullets.len(),
    ensures
        roster_bullets(players).contains(players[j].bullets[i]),
{
    lemma_owned_ids(players);
    crate::gameplay::players::lemma_owned_bullets_members(players);
    let owned = owned_bullets(players);
    assert(owned.contains((j as usize, players[j].bullets[i])));
    let m = choose|m: int| 0 <= m < owned.len() && owned[m] == (j as usize, players[j].bullets[i]);
    assert(roster_bullets(players)[m] == owned[m].1);
}

/// Every body of the roster is among the roster's bodies.
pub proof fn lemma_roster_bodies_member(players: Seq<PlayerView>, j: int)
    requires
        0 <= j < players.len(),
        players[j].entity is Some,
    ensures
        roster_bodies(players).contains(players[j].entity->0),
    decreases players.len(),
{
    let rest = players.drop_last();
    if j < players.len() - 1 {
        assert(rest[j] == players[j]);
        lemma_roster_bodies_member(rest, j);
        let m = choose|m: int| 0 <= m < roster_bodies(rest).len() && roster_bodies(rest)[m] == players[j].entity->0;
        let tail = match players.last().entity {
            Some(e) => seq![e],
            None => Seq::<u64>::empty(),
        };
        assert((roster_bodies(rest) + tail)[m] == roster_bodies(rest)[m]);
    } else {
        assert(players[j] == players.last());
        let rb = roster_bodies(players);
        assert(rb[rb.len() - 1] == players[j].entity->0);
    }
}

/// Winding a match down removes from the world every bullet in flight, the
/// fleet's and every cannon's, and the mystery ship, and removes nothing
/// else.
pub proof fn lemma_wind_down_despawns(g: GameView, state: GameState)
    requires
        g.players.len() <= usize::MAX,
    ensures
        ({
            let w = wind_down(g, state).1;
            &&& forall|b: u64| #[trigger] g.invader_bullets.contains(b) ==> w.contains(Effect::Despawn(b))
            &&& forall|j: int, i: int|
                0 <= j < g.players.len() && 0 <= i < g.players[j].bullets.len() ==> w.contains(
                    Effect::Despawn(#[trigger] g.players[j].bullets[i]),
                )
            &&& g.ufo is Some ==> w.contains(Effect::Despawn(g.ufo->0))
            &&& forall|q: int| 0 <= q < w.len() ==> (#[trigger] w[q]) is Despawn
        }),
{
    let ids = g.invader_bullets + roster_bullets(g.players);
    let d = crate::gameplay::flow::despawn_all(ids);
    let sd = crate::gameplay::flow::ship_despawn(g.ufo);
    let w = wind_down(g, state).1;
    assert(w == d + sd);
    assert forall|b: u64| #[trigger] g.invader_bullets.contains(b) implies w.contains(Effect::Despawn(b)) by {
        let k = choose|k: int| 0 <= k < g.invader_bullets.len() && g.invader_bullets[k] == b;
        assert(ids[k] == b);
        assert(w[k] == d[k]);
    }
    assert forall|j: int, i: int|
        0 <= j < g.players.len() && 0 <= i < g.players[j].bullets.len() implies w.contains(
            Effect::Despawn(#[trigger] g.players[j].bullets[i]),
        ) by {
        lemma_roster_bullets_member(g.players, j, i);
        let rb = roster_bullets(g.players);
        let m = choose|m: int| 0 <= m < rb.len() && rb[m] == g.players[j].bullets[i];
        let k = g.invader_bullets.len() + m;
        assert(ids[k] == rb[m]);
        assert(w[k] == d[k]);
    }
    if let Some(u) = g.ufo {
        assert(w[d.len() as int] == Effect::Despawn(u));
    }
    assert forall|q: int| 0 <= q < w.len() implies (#[trigger] w[q]) is Despawn by {
        if q < d.len() {
            assert(w[q] == d[q]);
        } else {
            assert(w[q] == sd[q - d.len()]);
        }
    }
}

/// Starting a match removes from the world the old cannons' bodies, the
/// fleet's bullets, the mystery ship, the old fleet and the old barriers,
/// and removes nothing else.
pub proof fn lemma_start_despawns(g: GameView, invader_bodies: Seq<u64>, block_bodies: Seq<u64>, cannon_bodies: Seq<u64>)
    ensures
        ({
            let w = start(g, invader_bodies, block_bodies, cannon_bodies).1;
            &&& forall|j: int| 0 <= j < g.players.len() && (#[trigger] g.players[j]).entity is Some ==> w.contains(
                Effect::Despawn(g.players[j].entity->0),
            )
            &&& forall|b: u64| #[trigger] g.invader_bullets.contains(b) ==> w.contains(Effect::Despawn(b))
            &&& g.ufo is Some ==> w.contains(Effect::Despawn(g.ufo->0))
            &&& forall|k: int| 0 <= k < g.invaders.len() ==> w.contains(Effect::Despawn(#[trigger] g.invaders[k].entity))
            &&& forall|b: u64| #[trigger] g.barrier_blocks.contains(b) ==> w.contains(Effect::Despawn(b))
            &&& forall|q: int| 0 <= q < w.len() ==> (#[trigger] w[q]) is Despawn
        }),
{
    let d1 = crate::gameplay::flow::despawn_all(roster_bodies(g.players));
    let d2 = crate::gameplay::flow::despawn_all(g.invader_bullets);
    let d3 = crate::gameplay::flow::ship_despawn(g.ufo);
    let d4 = crate::gameplay::flow::despawn_all(entities(g.invaders));
    let d5 = crate::gameplay::flow::despawn_all(g.barrier_blocks);
    let w = start(g, invader_bodies, block_bodies, cannon_bodies).1;
    assert(w == d1 + d2 + d3 + d4 + d5);
    let o2 = d1.len();
    let o3 = o2 + d2.len();
    let o4 = o3 + d3.len();
    let o5 = o4 + d4.len();
    assert forall|j: int| 0 <= j < g.players.len() && (#[trigger] g.players[j]).entity is Some implies w.contains(
        Effect::Despawn(g.players[j].entity->0),
    ) by {
        lemma_roster_bodies_member(g.players, j);
        let m = choose|m: int| 0 <= m < roster_bodies(g.players).len() && roster_bodies(g.players)[m] == g.players[j].entity->0;
        assert(w[m] == d1[m]);
    }
    assert forall|b: u64| #[trigger] g.invader_bullets.contains(b) implies w.contains(Effect::Despawn(b)) by {
        let k = choose|k: int| 0 <= k < g.invader_bullets.len() && g.invader_bullets[k] == b;
        assert(w[o2 + k] == d2[k]);
    }
    if let Some(u) = g.ufo {
        assert(w[o3 as int] == Effect::Despawn(u));
    }
    assert forall|k: int| 0 <= k < g.invaders.len() implies w.contains(Effect::Despawn(#[trigger] g.invaders[k].entity)) by {
        assert(entities(g.invaders)[k] == g.invaders[k].entity);
        assert(w[o4 + k] == d4[k]);
    }
    assert forall|b: u64| #[trigger] g.barrier_blocks.contains(b) implies w.contains(Effect::Despawn(b)) by {
        let k = choose|k: int| 0 <= k < g.barrier_blocks.len() && g.barrier_blocks[k] == b;
        assert(w[o5 + k] == d5[k]);
    }
    assert forall|q: int| 0 <= q < w.len() implies (#[trigger] w[q]) is Despawn by {
        if q < o2 {
            assert(w[q] == d1[q]);
        } else if q < o3 {
            assert(w[q] == d2[q - o2]);
        } else if q < o4 {
            assert(w[q] == d3[q - o3]);
        } else if q < o5 {
            assert(w[q] == d4[q - o4]);
        } else {
            assert(w[q] == d5[q - o5]);
        }
    }
}

} // verus!
