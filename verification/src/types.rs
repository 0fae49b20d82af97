//! The game's discrete state: screens, modes, the defending roster, and the
//! entities (by id) the match keeps track of.

use vstd::prelude::*;

use crate::constants::STARTING_LIVES;

verus! {

/// Which screen is up.
#[derive(Debug, Clone, Copy, PartialEq, Eq, Structural)]
pub enum GameState {
    TitleScreen { selection: u8 },
    ModeSelect { selection: u8 },
    Achievements,
    Playing,
    GameOver { won: bool },
}

/// How many cannons defend Earth: one merged cannon, or two co-op cannons
/// sharing the alien formation but keeping individual lives and scores.
#[derive(Debug, Clone, Copy, PartialEq, Eq, Structural)]
pub enum GameMode {
    SinglePlayer,
    TwoPlayerCoop,
}

impl GameMode {
    pub open spec fn spec_player_count(self) -> nat {
        match self {
            GameMode::SinglePlayer => 1,
            GameMode::TwoPlayerCoop => 2,
        }
    }

    /// Single player fields one cannon; co-op fields two.
    pub proof fn lemma_player_counts()
        ensures
            GameMode::SinglePlayer.spec_player_count() == 1,
            GameMode::TwoPlayerCoop.spec_player_count() == 2,
    {
    }

    /// Number of cannons this mode fields.
    pub fn player_count(self) -> (n: usize)
        ensures
            n == self.spec_player_count(),
    {
        match self {
            GameMode::SinglePlayer => 1,
            GameMode::TwoPlayerCoop => 2,
        }
    }
}

/// The difficulty twist of a match. Insane owns the fleet's march-speed
/// buff, Ridiculous owns its fire-rate buff, Insiculous gets both.
#[derive(Debug, Clone, Copy, PartialEq, Eq, Structural)]
pub enum ChaosMode {
    Normal,
    Insane,
    Ridiculous,
    Insiculous,
}

impl ChaosMode {
    /// Every chaos mode, in menu order.
    pub const ALL: [ChaosMode; 4] = [
        ChaosMode::Normal,
        ChaosMode::Insane,
        ChaosMode::Ridiculous,
        ChaosMode::Insiculous,
    ];

    /// The modes in menu order, each once.
    pub proof fn lemma_all_modes()
        ensures
            Self::ALL@ == seq![ChaosMode::Normal, ChaosMode::Insane, ChaosMode::Ridiculous, ChaosMode::Insiculous],
            Self::ALL@.no_duplicates(),
            forall|m: ChaosMode| Self::ALL@.contains(m),
    {
        assert(Self::ALL@ =~= seq![ChaosMode::Normal, ChaosMode::Insane, ChaosMode::Ridiculous, ChaosMode::Insiculous]);
        assert forall|m: ChaosMode| Self::ALL@.contains(m) by {
            match m {
                ChaosMode::Normal => assert(Self::ALL@[0] == m),
                ChaosMode::Insane => assert(Self::ALL@[1] == m),
                ChaosMode::Ridiculous => assert(Self::ALL@[2] == m),
                ChaosMode::Insiculous => assert(Self::ALL@[3] == m),
            }
        }
    }

    /// The fleet's buffs split across the modes: Insane owns the march-speed
    /// buff, Ridiculous owns the fire-rate buff, Insiculous gets both,
    /// Normal gets neither.
    pub proof fn lemma_fleet_buffs_split(self)
        ensures
            self == ChaosMode::Normal ==> !self.spec_is_insane() && !self.spec_is_ridiculous(),
            self == ChaosMode::Insane ==> self.spec_is_insane() && !self.spec_is_ridiculous(),
            self == ChaosMode::Ridiculous ==> !self.spec_is_insane() && self.spec_is_ridiculous(),
            self == ChaosMode::Insiculous ==> self.spec_is_insane() && self.spec_is_ridiculous(),
    {
    }

    pub open spec fn spec_is_insane(self) -> bool {
        self == ChaosMode::Insane || self == ChaosMode::Insiculous
    }

    pub open spec fn spec_is_ridiculous(self) -> bool {
        self == ChaosMode::Ridiculous || self == ChaosMode::Insiculous
    }

    /// Does the fleet march faster in this mode?
    pub fn is_insane(self) -> (b: bool)
        ensures
            b == self.spec_is_insane(),
    {
        match self {
            ChaosMode::Insane | ChaosMode::Insiculous => true,
            _ => false,
        }
    }

    /// Does the fleet fire relentlessly in this mode?
    pub fn is_ridiculous(self) -> (b: bool)
        ensures
            b == self.spec_is_ridiculous(),
    {
        match self {
            ChaosMode::Ridiculous | ChaosMode::Insiculous => true,
            _ => false,
        }
    }
}

/// One cannon's per-match state: its body (None once it runs out of lives),
/// its own bullets, score, lives, and sharpshooter streak. Entities are
/// named by their ids.
#[derive(Debug)]
pub struct PlayerState {
    pub entity: Option<u64>,
    pub bullets: Vec<u64>,
    pub score: u32,
    pub lives: u32,
    pub shot_streak: u32,
}

/// A cannon's state as a mathematical value.
#[verifier::ext_equal]
pub struct PlayerView {
    pub entity: Option<u64>,
    pub bullets: Seq<u64>,
    pub score: u32,
    pub lives: u32,
    pub shot_streak: u32,
}

impl PlayerView {
    /// A cannon at the start of a match with body `entity`.
    pub open spec fn fresh(entity: Option<u64>) -> PlayerView {
        PlayerView { entity, bullets: Seq::empty(), score: 0, lives: STARTING_LIVES, shot_streak: 0 }
    }
}

impl View for PlayerState {
    type V = PlayerView;

    open spec fn view(&self) -> PlayerView {
        PlayerView {
            entity: self.entity,
            bullets: self.bullets@,
            score: self.score,
            lives: self.lives,
            shot_streak: self.shot_streak,
        }
    }
}

impl PlayerState {
    pub open spec fn is_fresh(self) -> bool {
        self@ == PlayerView::fresh(None)
    }

    /// A cannon at the start of a match: no body yet, full lives.
    pub fn fresh() -> (p: Self)
        ensures
            p.is_fresh(),
    {
        PlayerState { entity: None, bullets: Vec::new(), score: 0, lives: STARTING_LIVES, shot_streak: 0 }
    }
}

/// A live invader: its entity plus the formation slot it marches in.
/// The slot never changes; the whole formation moves as one offset.
#[derive(Debug, Clone, Copy, PartialEq, Eq, Structural)]
pub struct Invader {
    pub entity: u64,
    pub row: usize,
    pub col: usize,
}

/// The bookkeeping of a game session: which entities are alive, who owns
/// which bullet, scores and lives, and which screen is up.
#[derive(Debug)]
pub struct SpaceInvadersGame {
    pub invaders: Vec<Invader>,
    /// The mystery ship crossing the top lane, if one is in flight.
    pub ufo: Option<u64>,
    /// Bonus paid by the last mystery-ship kill.
    pub ufo_flash_bonus: u32,
    pub barrier_blocks: Vec<u64>,
    /// Invader return fire: shared by the whole fleet, tests every cannon.
    pub invader_bullets: Vec<u64>,
    /// The defending cannons: one in single player, two in co-op.
    pub players: Vec<PlayerState>,
    /// How many cannons are in play (picked from the title menu).
    pub mode: GameMode,
    pub state: GameState,
    pub chaos_mode: ChaosMode,
    pub frame_count: u32,
}

/// A session's bookkeeping as a mathematical value.
#[verifier::ext_equal]
pub struct GameView {
    pub invaders: Seq<Invader>,
    pub ufo: Option<u64>,
    pub ufo_flash_bonus: u32,
    pub barrier_blocks: Seq<u64>,
    pub invader_bullets: Seq<u64>,
    pub players: Seq<PlayerView>,
    pub mode: GameMode,
    pub state: GameState,
    pub chaos_mode: ChaosMode,
    pub frame_count: u32,
}

/// The views of a roster's cannons.
pub open spec fn roster_view(players: Seq<PlayerState>) -> Seq<PlayerView> {
    players.map_values(|p: PlayerState| p@)
}

/// A roster's view has one entry per cannon, each the cannon's view.
pub proof fn lemma_roster_view(players: Seq<PlayerState>)
    ensures
        roster_view(players).len() == players.len(),
        forall|j: int| 0 <= j < players.len() ==> #[trigger] roster_view(players)[j] == players[j]@,
{
}

/// Replacing one cannon replaces its view.
pub proof fn lemma_roster_view_update(players: Seq<PlayerState>, index: int, p: PlayerState)
    requires
        0 <= index < players.len(),
    ensures
        roster_view(players.update(index, p)) == roster_view(players).update(index, p@),
        roster_view(players).len() == players.len(),
        roster_view(players)[index] == players[index]@,
{
    assert(roster_view(players.update(index, p)) =~= roster_view(players).update(index, p@));
}

impl View for SpaceInvadersGame {
    type V = GameView;

    open spec fn view(&self) -> GameView {
        GameView {
            invaders: self.invaders@,
            ufo: self.ufo,
            ufo_flash_bonus: self.ufo_flash_bonus,
            barrier_blocks: self.barrier_blocks@,
            invader_bullets: self.invader_bullets@,
            players: roster_view(self.players@),
            mode: self.mode,
            state: self.state,
            chaos_mode: self.chaos_mode,
            frame_count: self.frame_count,
        }
    }
}

impl SpaceInvadersGame {
    /// The session before the first match: title screen, one fresh cannon
    /// in single player, Normal mode, nothing spawned.
    pub open spec fn is_initial(self) -> bool {
        &&& self.invaders@ == Seq::<Invader>::empty()
        &&& self.ufo is None
        &&& self.ufo_flash_bonus == 0
        &&& self.barrier_blocks@ == Seq::<u64>::empty()
        &&& self.invader_bullets@ == Seq::<u64>::empty()
        &&& self.players@.len() == 1
        &&& self.players@[0].is_fresh()
        &&& self.mode == GameMode::SinglePlayer
        &&& self.state == GameState::TitleScreen { selection: 0 }
        &&& self.chaos_mode == ChaosMode::Normal
        &&& self.frame_count == 0
    }

    /// One frame has passed.
    pub fn tick(&mut self)
        ensures
            final(self)@ == (GameView {
                frame_count: if old(self).frame_count == u32::MAX { 0 } else { (old(self).frame_count + 1) as u32 },
                ..old(self)@
            }),
    {
        self.frame_count = self.frame_count.wrapping_add(1);
    }
}

impl Default for SpaceInvadersGame {
    fn default() -> (g: Self)
        ensures
            g.is_initial(),
    {
        let mut players: Vec<PlayerState> = Vec::new();
        players.push(PlayerState::fresh());
        SpaceInvadersGame {
            invaders: Vec::new(),
            ufo: None,
            ufo_flash_bonus: 0,
            barrier_blocks: Vec::new(),
            invader_bullets: Vec::new(),
            players,
            mode: GameMode::SinglePlayer,
            state: GameState::TitleScreen { selection: 0 },
            chaos_mode: ChaosMode::Normal,
            frame_count: 0,
        }
    }
}

} // verus!
