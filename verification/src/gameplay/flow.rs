//! Match lifecycle: state-machine input during play, starting and ending a
//! match, and clearing what a match leaves behind.

use vstd::prelude::*;

use crate::gameplay::Effect;
use crate::constants::{STARTING_LIVES, BARRIER_BLOCK_COLS, BARRIER_BLOCK_ROWS, BARRIER_COUNT, INVADER_COLS, INVADER_ROWS};
use crate::gameplay::entities;
use crate::spawning::{formation_slot, spawn_invaders};
use crate::types::{lemma_roster_view, roster_view, GameState, GameView, Invader, PlayerState, PlayerView, SpaceInvadersGame};

verus! {

/// Every bullet the cannons of `players` have in flight, cannon by cannon.
pub open spec fn roster_bullets(players: Seq<PlayerView>) -> Seq<u64>
    decreases players.len(),
{
    if players.len() == 0 {
        Seq::empty()
    } else {
        roster_bullets(players.drop_last()) + players.last().bullets
    }
}

/// A roster with no bullet in flight has no bullets to remove.
pub proof fn lemma_no_roster_bullets(players: Seq<PlayerView>)
    requires
        forall|j: int| 0 <= j < players.len() ==> (#[trigger] players[j]).bullets == Seq::<u64>::empty(),
    ensures
        roster_bullets(players) == Seq::<u64>::empty(),
    decreases players.len(),
{
    if players.len() > 0 {
        lemma_no_roster_bullets(players.drop_last());
        assert(roster_bullets(players) =~= Seq::<u64>::empty());
    }
}

/// The effects that remove `ids`, in order.
pub open spec fn despawn_all(ids: Seq<u64>) -> Seq<Effect> {
    ids.map_values(|e: u64| Effect::Despawn(e))
}

/// The roster `players` with every bullet gone: bodies, scores, lives and
/// streaks stay.
pub open spec fn disarm_roster(players: Seq<PlayerView>) -> Seq<PlayerView> {
    players.map_values(|p: PlayerView| PlayerView { bullets: Seq::empty(), ..p })
}

/// Remove every bullet in flight: the fleet's first, then each cannon's.
pub open spec fn disarm(g: GameView) -> (GameView, Seq<Effect>) {
    (
        GameView { invader_bullets: Seq::empty(), players: disarm_roster(g.players), ..g },
        despawn_all(g.invader_bullets + roster_bullets(g.players)),
    )
}

/// The effect that removes the mystery ship, if one is in flight.
pub open spec fn ship_despawn(ufo: Option<u64>) -> Seq<Effect> {
    match ufo {
        Some(u) => seq![Effect::Despawn(u)],
        None => Seq::empty(),
    }
}

/// Remove the mystery ship, if one is in flight.
pub open spec fn ground_ship(g: GameView) -> (GameView, Seq<Effect>) {
    (GameView { ufo: None, ..g }, ship_despawn(g.ufo))
}

/// Wind the match down (no bullet, no ship) and show screen `state`. The
/// fleet, barriers and cannons stay where they are.
pub open spec fn wind_down(g: GameView, state: GameState) -> (GameView, Seq<Effect>) {
    let a = disarm(g);
    let b = ground_ship(a.0);
    (GameView { state, ..b.0 }, a.1 + b.1)
}

/// Winding a match down leaves no bullet and no mystery ship in flight, and
/// keeps the fleet, the barriers and every cannon's body, score, lives and
/// streak.
pub proof fn lemma_wind_down_clears(g: GameView, state: GameState)
    ensures
        ({
            let w = wind_down(g, state).0;
            &&& w.state == state
            &&& w.invader_bullets.len() == 0
            &&& w.ufo is None
            &&& w.invaders == g.invaders
            &&& w.barrier_blocks == g.barrier_blocks
            &&& w.players.len() == g.players.len()
            &&& forall|j: int|
                0 <= j < g.players.len() ==> {
                    &&& (#[trigger] w.players[j]).bullets.len() == 0
                    &&& w.players[j].entity == g.players[j].entity
                    &&& w.players[j].score == g.players[j].score
                    &&& w.players[j].lives == g.players[j].lives
                    &&& w.players[j].shot_streak == g.players[j].shot_streak
                }
        }),
{
}

/// What `handle_state_input` and the menus ask of the caller.
#[derive(Debug, Clone, Copy, PartialEq, Eq, Structural)]
pub enum MenuCommand {
    /// Nothing more to do this frame.
    Stay,
    /// Spawn the bodies of a fresh match and call `start_game`.
    StartMatch,
    /// Leave the game.
    Exit,
}

/// The bodies of the cannons of `players`, cannon by cannon.
pub open spec fn roster_bodies(players: Seq<PlayerView>) -> Seq<u64>
    decreases players.len(),
{
    if players.len() == 0 {
        Seq::empty()
    } else {
        roster_bodies(players.drop_last()) + match players.last().entity {
            Some(e) => seq![e],
            None => Seq::empty(),
        }
    }
}

/// The full formation from its freshly spawned bodies, row-major.
pub open spec fn formation(bodies: Seq<u64>) -> Seq<Invader> {
    Seq::new(bodies.len(), |k: int| formation_slot(bodies[k], k))
}

/// A fresh roster, one cannon per body.
pub open spec fn fresh_roster(bodies: Seq<u64>) -> Seq<PlayerView> {
    Seq::new(bodies.len(), |i: int| PlayerView::fresh(Some(bodies[i])))
}

/// A new match with freshly spawned bodies for the fleet, the barrier
/// blocks and the cannons. The old cannons' bodies go first and the roster
/// is rebuilt with fresh scores and lives; then the fleet's bullets, the
/// mystery ship, the old fleet and the old barriers go; play starts. The
/// roster is rebuilt before the bullets are cleared, so the old cannons'
/// bullets leave the books without a despawn.
pub open spec fn start(
    g: GameView,
    invader_bodies: Seq<u64>,
    block_bodies: Seq<u64>,
    cannon_bodies: Seq<u64>,
) -> (GameView, Seq<Effect>) {
    (
        GameView {
            invaders: formation(invader_bodies),
            barrier_blocks: block_bodies,
            players: fresh_roster(cannon_bodies),
            invader_bullets: Seq::empty(),
            ufo: None,
            state: GameState::Playing,
            ..g
        },
        despawn_all(roster_bodies(g.players)) + despawn_all(g.invader_bullets) + ship_despawn(g.ufo) + despawn_all(
            entities(g.invaders),
        ) + despawn_all(g.barrier_blocks),
    )
}

/// What the state-machine input during play does: while playing, Menu goes
/// back to the title; after a match, Action1 asks for a new match and Menu
/// goes back to the title. Either player's buttons count.
pub open spec fn state_input(g: GameView, action1: bool, menu: bool) -> (GameView, Seq<Effect>, MenuCommand) {
    match g.state {
        GameState::Playing => if menu {
            let w = wind_down(g, GameState::TitleScreen { selection: 0 });
            (w.0, w.1, MenuCommand::Stay)
        } else {
            (g, Seq::empty(), MenuCommand::Stay)
        },
        GameState::GameOver { .. } => if action1 {
            (g, Seq::empty(), MenuCommand::StartMatch)
        } else if menu {
            let w = wind_down(g, GameState::TitleScreen { selection: 0 });
            (w.0, w.1, MenuCommand::Stay)
        } else {
            (g, Seq::empty(), MenuCommand::Stay)
        },
        _ => (g, Seq::empty(), MenuCommand::Stay),
    }
}

/// What the buttons do during and after a match: while playing, Menu
/// winds the match down to the title screen with nothing left in flight and
/// anything else does nothing; after a match, Action1 asks for a new match
/// (and changes nothing yet) and otherwise Menu returns to the title; on
/// the menu screens these buttons do nothing. Only Action1 after a match
/// asks for a new one, and scores, lives, the fleet and the barriers stay.
pub proof fn lemma_state_input_laws(g: GameView, action1: bool, menu: bool)
    ensures
        ({
            let r = state_input(g, action1, menu);
            let to_title = (g.state == GameState::Playing && menu) || (g.state is GameOver && !action1 && menu);
            &&& r.2 == MenuCommand::StartMatch <==> (g.state is GameOver && action1)
            &&& r.2 != MenuCommand::Exit
            &&& to_title ==> {
                &&& r.0.state == (GameState::TitleScreen { selection: 0 })
                &&& r.0.invader_bullets.len() == 0
                &&& r.0.ufo is None
                &&& forall|j: int| 0 <= j < r.0.players.len() ==> (#[trigger] r.0.players[j]).bullets.len() == 0
            }
            &&& !to_title ==> r.0 == g && r.1.len() == 0
            &&& r.0.invaders == g.invaders
            &&& r.0.barrier_blocks == g.barrier_blocks
            &&& r.0.players.len() == g.players.len()
            &&& forall|j: int|
                0 <= j < g.players.len() ==> (#[trigger] r.0.players[j]).score == g.players[j].score
                    && r.0.players[j].lives == g.players[j].lives
        }),
{
    lemma_wind_down_clears(g, GameState::TitleScreen { selection: 0 });
}

/// A new match starts on the playing screen with the full formation, the
/// given barrier blocks, one fresh cannon per body (no score, full lives, no
/// streak, no bullet) and nothing in flight.
pub proof fn lemma_start_fresh(g: GameView, invader_bodies: Seq<u64>, block_bodies: Seq<u64>, cannon_bodies: Seq<u64>)
    ensures
        ({
            let s = start(g, invader_bodies, block_bodies, cannon_bodies).0;
            &&& s.state == GameState::Playing
            &&& s.invaders.len() == invader_bodies.len()
            &&& s.barrier_blocks == block_bodies
            &&& s.invader_bullets.len() == 0
            &&& s.ufo is None
            &&& s.players.len() == cannon_bodies.len()
            &&& forall|i: int|
                0 <= i < cannon_bodies.len() ==> {
                    &&& (#[trigger] s.players[i]).entity == Some(cannon_bodies[i])
                    &&& s.players[i].score == 0
                    &&& s.players[i].lives == STARTING_LIVES
                    &&& s.players[i].shot_streak == 0
                    &&& s.players[i].bullets.len() == 0
                }
            &&& roster_bullets(s.players) == Seq::<u64>::empty()
        }),
{
    let s = start(g, invader_bodies, block_bodies, cannon_bodies).0;
    lemma_no_roster_bullets(s.players);
}

impl SpaceInvadersGame {
    /// Remove every bullet in flight: the fleet's first, then each cannon's.
    pub fn destroy_all_bullets(&mut self, effects: &mut Vec<Effect>)
        ensures
            final(self)@ == disarm(old(self)@).0,
            final(effects)@ == old(effects)@ + disarm(old(self)@).1,
    {
        let ghost start = effects@;
        let ghost g = self@;
        let mut k: usize = 0;
        while k < self.invader_bullets.len()
            invariant
                k <= self.invader_bullets@.len(),
                self.invader_bullets@ == old(self).invader_bullets@,
                effects@ == start + despawn_all(self.invader_bullets@.take(k as int)),
            decreases self.invader_bullets@.len() - k,
        {
            effects.push(Effect::Despawn(self.invader_bullets[k]));
            proof {
                assert(self.invader_bullets@.take(k + 1) =~= self.invader_bullets@.take(k as int).push(
                    self.invader_bullets@[k as int],
                ));
                assert(effects@ =~= start + despawn_all(self.invader_bullets@.take(k + 1)));
            }
            k = k + 1;
        }
        assert(self.invader_bullets@.take(self.invader_bullets@.len() as int) =~= self.invader_bullets@);
        self.invader_bullets = Vec::new();
        let ghost after_fleet = effects@;
        let ghost old_roster = roster_view(old(self).players@);

        let mut i: usize = 0;
        while i < self.players.len()
            invariant
                i <= self.players@.len(),
                self.players@.len() == old(self).players@.len(),
                old_roster == roster_view(old(self).players@),
                forall|j: int|
                    0 <= j < i ==> (#[trigger] self.players@[j])@ == (PlayerView {
                        bullets: Seq::empty(),
                        ..old(self).players@[j]@
                    }),
                forall|j: int| i <= j < self.players@.len() ==> #[trigger] self.players@[j] == old(self).players@[j],
                effects@ == after_fleet + despawn_all(roster_bullets(old_roster.take(i as int))),
                after_fleet == start + despawn_all(old(self).invader_bullets@),
                start == old(effects)@,
                g == old(self)@,
                self@ == (GameView { invader_bullets: Seq::empty(), players: roster_view(self.players@), ..g }),
            decreases self.players@.len() - i,
        {
            let ghost before = effects@;
            let mut m: usize = 0;
            while m < self.players[i].bullets.len()
                invariant
                    i < self.players@.len(),
                    self.players@.len() == old(self).players@.len(),
                    m <= self.players@[i as int].bullets@.len(),
                    self.players@[i as int] == old(self).players@[i as int],
                    effects@ == before + despawn_all(self.players@[i as int].bullets@.take(m as int)),
                decreases self.players@[i as int].bullets@.len() - m,
            {
                effects.push(Effect::Despawn(self.players[i].bullets[m]));
                proof {
                    let bs = self.players@[i as int].bullets@;
                    assert(bs.take(m + 1) =~= bs.take(m as int).push(bs[m as int]));
                    assert(effects@ =~= before + despawn_all(bs.take(m + 1)));
                }
                m = m + 1;
            }
            proof {
                let bs = old(self).players@[i as int].bullets@;
                assert(bs.take(bs.len() as int) =~= bs);
                assert(old_roster.take(i + 1).drop_last() =~= old_roster.take(i as int));
                assert(old_roster.take(i + 1).last() == old(self).players@[i as int]@);
                assert(despawn_all(roster_bullets(old_roster.take(i as int)) + bs) =~= despawn_all(
                    roster_bullets(old_roster.take(i as int)),
                ) + despawn_all(bs));
                assert(effects@ =~= after_fleet + despawn_all(roster_bullets(old_roster.take(i + 1))));
            }
            self.players[i].bullets = Vec::new();
            proof {
                assert(self.players@[i as int]@ =~= (PlayerView { bullets: Seq::empty(), ..old(self).players@[i as int]@ }));
            }
            i = i + 1;
        }
        proof {
            assert(old_roster.take(old_roster.len() as int) =~= old_roster);
            assert(despawn_all(old(self).invader_bullets@ + roster_bullets(old_roster)) =~= despawn_all(
                old(self).invader_bullets@,
            ) + despawn_all(roster_bullets(old_roster)));
            assert(roster_view(self.players@) =~= disarm_roster(old_roster));
            assert(self@ =~= disarm(g).0);
        }
    }

    /// Remove the mystery ship, if one is in flight.
    pub fn destroy_ufo(&mut self, effects: &mut Vec<Effect>)
        ensures
            final(self)@ == ground_ship(old(self)@).0,
            final(effects)@ == old(effects)@ + ground_ship(old(self)@).1,
    {
        if let Some(ufo) = self.ufo.take() {
            effects.push(Effect::Despawn(ufo));
        }
        assert(effects@ =~= old(effects)@ + ship_despawn(old(self).ufo));
        assert(self@ =~= ground_ship(old(self)@).0);
    }

    /// End the match, won or lost. The fleet, barriers and cannons stay on
    /// screen behind the game-over overlay; the next start rebuilds them.
    pub fn finish_game(&mut self, won: bool, effects: &mut Vec<Effect>)
        ensures
            final(self)@ == wind_down(old(self)@, GameState::GameOver { won }).0,
            final(effects)@ == old(effects)@ + wind_down(old(self)@, GameState::GameOver { won }).1,
    {
        self.destroy_all_bullets(effects);
        self.destroy_ufo(effects);
        self.state = GameState::GameOver { won };
        assert(self@ =~= wind_down(old(self)@, GameState::GameOver { won }).0);
        assert(effects@ =~= old(effects)@ + wind_down(old(self)@, GameState::GameOver { won }).1);
    }

    /// Back to the title screen, leaving no bullet or ship in flight.
    pub fn reset_to_title(&mut self, effects: &mut Vec<Effect>)
        ensures
            final(self)@ == wind_down(old(self)@, GameState::TitleScreen { selection: 0 }).0,
            final(effects)@ == old(effects)@ + wind_down(old(self)@, GameState::TitleScreen { selection: 0 }).1,
    {
        self.destroy_all_bullets(effects);
        self.destroy_ufo(effects);
        self.state = GameState::TitleScreen { selection: 0 };
        assert(self@ =~= wind_down(old(self)@, GameState::TitleScreen { selection: 0 }).0);
        assert(effects@ =~= old(effects)@ + wind_down(old(self)@, GameState::TitleScreen { selection: 0 }).1);
    }

    /// Actions that change the screen while a match is up or just ended.
    /// Either player's Menu or Action1 counts. Returns `StartMatch` when a
    /// new match is due: the caller spawns its bodies and calls `start_game`.
    pub fn handle_state_input(&mut self, action1: bool, menu: bool, effects: &mut Vec<Effect>) -> (cmd: MenuCommand)
        ensures
            final(self)@ == state_input(old(self)@, action1, menu).0,
            final(effects)@ == old(effects)@ + state_input(old(self)@, action1, menu).1,
            cmd == state_input(old(self)@, action1, menu).2,
    {
        match self.state {
            GameState::Playing => {
                if menu {
                    self.reset_to_title(effects);
                }
                MenuCommand::Stay
            },
            GameState::GameOver { .. } => {
                if action1 {
                    MenuCommand::StartMatch
                } else {
                    if menu {
                        self.reset_to_title(effects);
                    }
                    MenuCommand::Stay
                }
            },
            _ => MenuCommand::Stay,
        }
    }

    /// Build a fresh roster for the chosen mode, rebuild the fleet and the
    /// barriers, and start the march, from the bodies just spawned for them:
    /// `invader_bodies` row-major, `block_bodies` bunker by bunker, and one
    /// body per cannon of the mode (see `start`).
    pub fn start_game(
        &mut self,
        invader_bodies: &[u64],
        block_bodies: &[u64],
        cannon_bodies: &[u64],
        effects: &mut Vec<Effect>,
    )
        requires
            invader_bodies@.len() == INVADER_ROWS * INVADER_COLS,
            block_bodies@.len() == BARRIER_COUNT * BARRIER_BLOCK_ROWS * BARRIER_BLOCK_COLS,
            cannon_bodies@.len() == old(self).mode.spec_player_count(),
        ensures
            final(self)@ == start(old(self)@, invader_bodies@, block_bodies@, cannon_bodies@).0,
            final(effects)@ == old(effects)@ + start(old(self)@, invader_bodies@, block_bodies@, cannon_bodies@).1,
    {
        let ghost g = self@;
        let ghost e0 = effects@;
        proof {
            lemma_roster_view(self.players@);
        }

        let mut i: usize = 0;
        while i < self.players.len()
            invariant
                i <= self.players@.len(),
                roster_view(self.players@).len() == self.players@.len(),
                forall|j: int| 0 <= j < self.players@.len() ==> #[trigger] roster_view(self.players@)[j] == self.players@[j]@,
                self@ == g,
                effects@ == e0 + despawn_all(roster_bodies(g.players.take(i as int))),
            decreases self.players@.len() - i,
        {
            proof {
                assert(g.players.take(i + 1).drop_last() =~= g.players.take(i as int));
                assert(g.players.take(i + 1).last() == g.players[i as int]);
            }
            if let Some(e) = self.players[i].entity {
                effects.push(Effect::Despawn(e));
            }
            proof {
                assert(effects@ =~= e0 + despawn_all(roster_bodies(g.players.take(i + 1))));
            }
            i = i + 1;
        }
        proof {
            assert(g.players.take(g.players.len() as int) =~= g.players);
        }
        let ghost e1 = effects@;

        let mut players: Vec<PlayerState> = Vec::new();
        let mut c: usize = 0;
        while c < cannon_bodies.len()
            invariant
                c <= cannon_bodies@.len(),
                roster_view(players@) == fresh_roster(cannon_bodies@.take(c as int)),
            decreases cannon_bodies@.len() - c,
        {
            let mut p = PlayerState::fresh();
            p.entity = Some(cannon_bodies[c]);
            assert(p@ =~= PlayerView::fresh(Some(cannon_bodies@[c as int])));
            let ghost before = players@;
            players.push(p);
            proof {
                lemma_roster_view(before);
                lemma_roster_view(players@);
                assert(players@ == before.push(p));
                assert(cannon_bodies@.take(c + 1)[c as int] == cannon_bodies@[c as int]);
                assert forall|j: int| 0 <= j < c + 1 implies #[trigger] roster_view(players@)[j] == fresh_roster(
                    cannon_bodies@.take(c + 1),
                )[j] by {
                    if j < c {
                        assert(roster_view(before)[j] == fresh_roster(cannon_bodies@.take(c as int))[j]);
                        assert(cannon_bodies@.take(c as int)[j] == cannon_bodies@.take(c + 1)[j]);
                    }
                }
                assert(roster_view(players@) =~= fresh_roster(cannon_bodies@.take(c + 1)));
            }
            c = c + 1;
        }
        assert(cannon_bodies@.take(cannon_bodies@.len() as int) =~= cannon_bodies@);
        self.players = players;
        proof {
            lemma_roster_view(self.players@);
            lemma_no_roster_bullets(self@.players);
            assert(despawn_all(g.invader_bullets + roster_bullets(self@.players)) =~= despawn_all(g.invader_bullets));
        }
        self.destroy_all_bullets(effects);
        self.destroy_ufo(effects);
        let ghost e2 = effects@;

        let mut k: usize = 0;
        while k < self.invaders.len()
            invariant
                k <= self.invaders@.len(),
                self.invaders@ == g.invaders,
                effects@ == e2 + despawn_all(entities(g.invaders).take(k as int)),
            decreases self.invaders@.len() - k,
        {
            effects.push(Effect::Despawn(self.invaders[k].entity));
            proof {
                assert(entities(g.invaders).take(k + 1) =~= entities(g.invaders).take(k as int).push(g.invaders[k as int].entity));
                assert(effects@ =~= e2 + despawn_all(entities(g.invaders).take(k + 1)));
            }
            k = k + 1;
        }
        assert(entities(g.invaders).take(g.invaders.len() as int) =~= entities(g.invaders));
        let ghost e3 = effects@;

        let mut b: usize = 0;
        while b < self.barrier_blocks.len()
            invariant
                b <= self.barrier_blocks@.len(),
                self.barrier_blocks@ == g.barrier_blocks,
                effects@ == e3 + despawn_all(g.barrier_blocks.take(b as int)),
            decreases self.barrier_blocks@.len() - b,
        {
            effects.push(Effect::Despawn(self.barrier_blocks[b]));
            proof {
                assert(g.barrier_blocks.take(b + 1) =~= g.barrier_blocks.take(b as int).push(g.barrier_blocks[b as int]));
                assert(effects@ =~= e3 + despawn_all(g.barrier_blocks.take(b + 1)));
            }
            b = b + 1;
        }
        assert(g.barrier_blocks.take(g.barrier_blocks.len() as int) =~= g.barrier_blocks);

        self.invaders = spawn_invaders(invader_bodies);
        let mut blocks: Vec<u64> = Vec::new();
        let mut q: usize = 0;
        while q < block_bodies.len()
            invariant
                q <= block_bodies@.len(),
                blocks@ == block_bodies@.take(q as int),
            decreases block_bodies@.len() - q,
        {
            blocks.push(block_bodies[q]);
            proof {
                assert(block_bodies@.take(q + 1) =~= block_bodies@.take(q as int).push(block_bodies@[q as int]));
            }
            q = q + 1;
        }
        assert(block_bodies@.take(block_bodies@.len() as int) =~= block_bodies@);
        self.barrier_blocks = blocks;
        self.state = GameState::Playing;
        proof {
            assert(self.invaders@ =~= formation(invader_bodies@));
            assert(self@ =~= start(g, invader_bodies@, block_bodies@, cannon_bodies@).0);
            assert(effects@ =~= e0 + start(g, invader_bodies@, block_bodies@, cannon_bodies@).1);
        }
    }
}

} // verus!
