use lib::gameplay::flow::MenuCommand;
use lib::menu::{mode_hint, ACHIEVEMENTS_ITEM, TITLE_ITEMS};
use lib::types::{ChaosMode, GameMode, GameState, SpaceInvadersGame};

#[test]
fn every_mode_has_a_hint() {
    for mode in ChaosMode::ALL {
        assert!(!mode_hint(mode).is_empty(), "{mode:?} needs a mode-select hint");
    }
    assert_eq!(mode_hint(ChaosMode::Normal), "The classic invasion.");
}

#[test]
fn title_menu_picks_roster_and_screens() {
    assert_eq!(TITLE_ITEMS, 4);
    let mut game = SpaceInvadersGame::default();
    assert_eq!(game.update_title_input(1, false), MenuCommand::Stay);
    assert_eq!(game.state, GameState::TitleScreen { selection: 1 });

    assert_eq!(game.update_title_input(1, true), MenuCommand::Stay);
    assert_eq!(game.mode, GameMode::TwoPlayerCoop);
    assert_eq!(game.state, GameState::ModeSelect { selection: 0 });

    let mut game = SpaceInvadersGame::default();
    game.mode = GameMode::TwoPlayerCoop;
    game.update_title_input(0, true);
    assert_eq!(game.mode, GameMode::SinglePlayer);

    game.update_title_input(ACHIEVEMENTS_ITEM, true);
    assert_eq!(game.state, GameState::Achievements);
    game.update_achievements_input(false, false);
    assert_eq!(game.state, GameState::Achievements);
    game.update_achievements_input(true, false);
    assert_eq!(game.state, GameState::TitleScreen { selection: ACHIEVEMENTS_ITEM });

    assert_eq!(game.update_title_input(3, true), MenuCommand::Exit);
}

#[test]
fn mode_select_picks_chaos_mode_and_starts() {
    let mut game = SpaceInvadersGame::default();
    assert_eq!(game.update_mode_select_input(2, false, false), MenuCommand::Stay);
    assert_eq!(game.state, GameState::ModeSelect { selection: 2 });
    assert_eq!(game.chaos_mode, ChaosMode::Normal);
    assert_eq!(game.update_mode_select_input(2, false, true), MenuCommand::StartMatch);
    assert_eq!(game.chaos_mode, ChaosMode::Ridiculous);
    assert_eq!(game.update_mode_select_input(3, true, true), MenuCommand::Stay);
    assert_eq!(game.state, GameState::TitleScreen { selection: 0 });
    assert_eq!(game.chaos_mode, ChaosMode::Ridiculous);
}

#[test]
fn fleet_buffs_split_across_chaos_modes_predicates() {
    assert!(!ChaosMode::Normal.is_insane() && !ChaosMode::Normal.is_ridiculous());
    assert!(ChaosMode::Insane.is_insane() && !ChaosMode::Insane.is_ridiculous());
    assert!(!ChaosMode::Ridiculous.is_insane() && ChaosMode::Ridiculous.is_ridiculous());
    assert!(ChaosMode::Insiculous.is_insane() && ChaosMode::Insiculous.is_ridiculous());
    assert_eq!(GameMode::SinglePlayer.player_count(), 1);
    assert_eq!(GameMode::TwoPlayerCoop.player_count(), 2);
}

#[test]
fn hints_follow_the_mode_rules() {
    // Insane's buff is march speed, not fire rate; Ridiculous keeps one volley in flight.
    assert!(mode_hint(ChaosMode::Insane).contains("marches faster"));
    assert!(!mode_hint(ChaosMode::Insane).contains("fires"));
    assert!(mode_hint(ChaosMode::Ridiculous).contains("fires relentlessly"));
    assert!(mode_hint(ChaosMode::Ridiculous).contains("one volley"));
    assert_eq!(mode_hint(ChaosMode::Insiculous), "A relentless fleet against your twin cannons.");
}
