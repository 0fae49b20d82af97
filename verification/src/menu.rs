//! Menu screens: what each selection leads to. The caller reads the input
//! and moves the highlighted entry; match lifecycle lives in
//! `gameplay::flow`.

use vstd::prelude::*;

use crate::gameplay::flow::MenuCommand;
use crate::types::{ChaosMode, GameMode, GameState, GameView, SpaceInvadersGame};

verus! {

/// Entries of the title menu: 1 Player, 2 Player Co-op, Achievements, Exit.
pub const TITLE_ITEMS: u8 = 4;
/// The title menu entry that opens the achievements page.
pub const ACHIEVEMENTS_ITEM: u8 = 2;

pub const HINT_NORMAL: &'static str = "The classic invasion.";
pub const HINT_INSANE: &'static str = "The fleet marches faster - keep more shots on screen.";
pub const HINT_RIDICULOUS: &'static str = "The fleet fires relentlessly - twin cannons, one volley in flight.";
pub const HINT_INSICULOUS: &'static str = "A relentless fleet against your twin cannons.";

/// One-line description of what each chaos mode means in this game.
pub open spec fn spec_mode_hint(mode: ChaosMode) -> Seq<char> {
    match mode {
        ChaosMode::Normal => HINT_NORMAL@,
        ChaosMode::Insane => HINT_INSANE@,
        ChaosMode::Ridiculous => HINT_RIDICULOUS@,
        ChaosMode::Insiculous => HINT_INSICULOUS@,
    }
}

/// One-line description of what each chaos mode means in this game. Every
/// mode has one.
pub fn mode_hint(mode: ChaosMode) -> (hint: &'static str)
    ensures
        hint@ == spec_mode_hint(mode),
        hint@.len() > 0,
{
    proof {
        reveal_strlit("The classic invasion.");
        reveal_strlit("The fleet marches faster - keep more shots on screen.");
        reveal_strlit("The fleet fires relentlessly - twin cannons, one volley in flight.");
        reveal_strlit("A relentless fleet against your twin cannons.");
    }
    match mode {
        ChaosMode::Normal => HINT_NORMAL,
        ChaosMode::Insane => HINT_INSANE,
        ChaosMode::Ridiculous => HINT_RIDICULOUS,
        ChaosMode::Insiculous => HINT_INSICULOUS,
    }
}

/// The title menu with entry `selection` highlighted: confirming 1 Player
/// or 2 Player Co-op picks the roster and opens the chaos-mode select;
/// Achievements opens that page; Exit asks to leave.
pub open spec fn title_input(g: GameView, selection: u8, confirm: bool) -> (GameView, MenuCommand) {
    let shown = GameView { state: GameState::TitleScreen { selection }, ..g };
    if !confirm {
        (shown, MenuCommand::Stay)
    } else if selection == 0 {
        (GameView { mode: GameMode::SinglePlayer, state: GameState::ModeSelect { selection: 0 }, ..g }, MenuCommand::Stay)
    } else if selection == 1 {
        (GameView { mode: GameMode::TwoPlayerCoop, state: GameState::ModeSelect { selection: 0 }, ..g }, MenuCommand::Stay)
    } else if selection == ACHIEVEMENTS_ITEM {
        (GameView { state: GameState::Achievements, ..g }, MenuCommand::Stay)
    } else if selection == 3 {
        (shown, MenuCommand::Exit)
    } else {
        (shown, MenuCommand::Stay)
    }
}

/// The chaos-mode select with entry `selection` highlighted: Back returns
/// to the title; confirming picks that chaos mode and asks for a new match.
pub open spec fn mode_select_input(g: GameView, selection: u8, back: bool, confirm: bool) -> (GameView, MenuCommand) {
    if back {
        (GameView { state: GameState::TitleScreen { selection: 0 }, ..g }, MenuCommand::Stay)
    } else if confirm {
        (
            GameView { chaos_mode: ChaosMode::ALL@[selection as int], state: GameState::ModeSelect { selection }, ..g },
            MenuCommand::StartMatch,
        )
    } else {
        (GameView { state: GameState::ModeSelect { selection }, ..g }, MenuCommand::Stay)
    }
}

/// What the title menu does, entry by entry: confirming the first entry
/// picks a roster of one cannon, the second a roster of two, both opening
/// the chaos-mode select on its first entry; the third opens the
/// achievements page; the fourth asks to leave. Nothing else changes, and
/// without a confirm the menu only shows the highlighted entry.
pub proof fn lemma_title_laws(g: GameView, selection: u8, confirm: bool)
    ensures
        ({
            let r = title_input(g, selection, confirm);
            &&& r.0 == (GameView { mode: r.0.mode, state: r.0.state, ..g })
            &&& !confirm ==> r.0.state == (GameState::TitleScreen { selection }) && r.0.mode == g.mode && r.1
                == MenuCommand::Stay
            &&& confirm && selection == 0 ==> r.0.mode.spec_player_count() == 1 && r.0.state == (
            GameState::ModeSelect { selection: 0 }) && r.1 == MenuCommand::Stay
            &&& confirm && selection == 1 ==> r.0.mode.spec_player_count() == 2 && r.0.state == (
            GameState::ModeSelect { selection: 0 }) && r.1 == MenuCommand::Stay
            &&& confirm && selection == 2 ==> r.0.state == GameState::Achievements && r.0.mode == g.mode && r.1
                == MenuCommand::Stay
            &&& confirm && selection == 3 ==> r.1 == MenuCommand::Exit && r.0.mode == g.mode && r.0.state == (
            GameState::TitleScreen { selection })
            &&& confirm && selection >= 4 ==> r.1 == MenuCommand::Stay && r.0.mode == g.mode && r.0.state == (
            GameState::TitleScreen { selection })
            &&& r.1 == MenuCommand::Exit <==> (confirm && selection == 3)
            &&& r.1 != MenuCommand::StartMatch
        }),
{
}

/// What the chaos-mode select does: confirming entry `selection` picks the
/// chaos mode listed there (Normal, Insane, Ridiculous, Insiculous, in that
/// order) and asks for a new match; different entries pick different
/// modes; Back returns to the title without picking; otherwise nothing is
/// picked.
pub proof fn lemma_mode_select_laws(g: GameView, selection: u8, back: bool, confirm: bool)
    requires
        selection < 4,
    ensures
        ({
            let r = mode_select_input(g, selection, back, confirm);
            &&& r.0 == (GameView { chaos_mode: r.0.chaos_mode, state: r.0.state, ..g })
            &&& !back && confirm ==> r.1 == MenuCommand::StartMatch && r.0.chaos_mode == (if selection == 0 {
                ChaosMode::Normal
            } else if selection == 1 {
                ChaosMode::Insane
            } else if selection == 2 {
                ChaosMode::Ridiculous
            } else {
                ChaosMode::Insiculous
            })
            &&& back ==> r.1 == MenuCommand::Stay && r.0.chaos_mode == g.chaos_mode && r.0.state == (
            GameState::TitleScreen { selection: 0 })
            &&& !back && !confirm ==> r.1 == MenuCommand::Stay && r.0.chaos_mode == g.chaos_mode && r.0.state == (
            GameState::ModeSelect { selection })
            &&& r.1 == MenuCommand::StartMatch <==> (!back && confirm)
        }),
        forall|s1: u8, s2: u8|
            s1 < 4 && s2 < 4 && s1 != s2 ==> #[trigger] mode_select_input(g, s1, false, true).0.chaos_mode
                != #[trigger] mode_select_input(g, s2, false, true).0.chaos_mode,
{
    ChaosMode::lemma_all_modes();
}

impl SpaceInvadersGame {
    /// The title screen, its entry `selection` highlighted this frame.
    pub fn update_title_input(&mut self, selection: u8, confirm: bool) -> (cmd: MenuCommand)
        ensures
            final(self)@ == title_input(old(self)@, selection, confirm).0,
            cmd == title_input(old(self)@, selection, confirm).1,
    {
        self.state = GameState::TitleScreen { selection };
        if !confirm {
            return MenuCommand::Stay;
        }
        if selection == 0 {
            self.mode = GameMode::SinglePlayer;
            self.state = GameState::ModeSelect { selection: 0 };
            MenuCommand::Stay
        } else if selection == 1 {
            self.mode = GameMode::TwoPlayerCoop;
            self.state = GameState::ModeSelect { selection: 0 };
            MenuCommand::Stay
        } else if selection == ACHIEVEMENTS_ITEM {
            self.state = GameState::Achievements;
            MenuCommand::Stay
        } else if selection == 3 {
            MenuCommand::Exit
        } else {
            MenuCommand::Stay
        }
    }

    /// The achievements page: Back or Confirm returns to the title with the
    /// Achievements entry highlighted.
    pub fn update_achievements_input(&mut self, back: bool, confirm: bool)
        ensures
            final(self)@ == (if back || confirm {
                GameView { state: GameState::TitleScreen { selection: ACHIEVEMENTS_ITEM }, ..old(self)@ }
            } else {
                old(self)@
            }),
    {
        if back || confirm {
            self.state = GameState::TitleScreen { selection: ACHIEVEMENTS_ITEM };
        }
    }

    /// The chaos-mode select, its entry `selection` highlighted this frame.
    /// Returns `StartMatch` when a mode was picked: the caller spawns the
    /// match's bodies and calls `start_game`.
    pub fn update_mode_select_input(&mut self, selection: u8, back: bool, confirm: bool) -> (cmd: MenuCommand)
        requires
            selection < 4,
        ensures
            final(self)@ == mode_select_input(old(self)@, selection, back, confirm).0,
            cmd == mode_select_input(old(self)@, selection, back, confirm).1,
    {
        self.state = GameState::ModeSelect { selection };
        if back {
            self.state = GameState::TitleScreen { selection: 0 };
            MenuCommand::Stay
        } else if confirm {
            self.chaos_mode = ChaosMode::ALL[selection as usize];
            MenuCommand::StartMatch
        } else {
            MenuCommand::Stay
        }
    }
}

} // verus!
