use lib::gameplay::Effect;
use lib::hud::{achievement_marker, game_over_title, lives_text, STREAK_BANNER_FROM};
use lib::types::{GameMode, SpaceInvadersGame};

fn coop_match() -> SpaceInvadersGame {
    let mut game = SpaceInvadersGame::default();
    game.mode = GameMode::TwoPlayerCoop;
    let invaders: Vec<u64> = (100..150).collect();
    let blocks: Vec<u64> = (200..272).collect();
    let cannons: Vec<u64> = vec![1, 2];
    let mut effects: Vec<Effect> = Vec::new();
    game.start_game(&invaders, &blocks, &cannons, &mut effects);
    game
}

#[test]
fn lives_row_draws_one_star_per_life() {
    assert_eq!(lives_text(0), "LIVES ");
    assert_eq!(lives_text(1), "LIVES *");
    assert_eq!(lives_text(3), "LIVES * * *");
}

#[test]
fn best_streak_is_zero_without_a_roster() {
    let game = SpaceInvadersGame::default();
    assert_eq!(game.best_streak(), 0);
}

#[test]
fn best_streak_takes_the_longest_over_the_roster() {
    let mut game = coop_match();
    assert_eq!(game.best_streak(), 0);
    game.players[0].shot_streak = 2;
    game.players[1].shot_streak = 5;
    assert_eq!(game.best_streak(), 5);
    assert!(game.best_streak() >= STREAK_BANNER_FROM);
    game.players[1].shot_streak = 0;
    assert_eq!(game.best_streak(), 2);
    assert!(game.best_streak() < STREAK_BANNER_FROM);
}

#[test]
fn achievement_boxes_and_game_over_titles() {
    assert_eq!(achievement_marker(true), "[X]");
    assert_eq!(achievement_marker(false), "[ ]");
    assert_eq!(game_over_title(true), "INVASION REPELLED!");
    assert_eq!(game_over_title(false), "EARTH HAS FALLEN");
}

#[test]
fn mystery_ship_takes_off_and_is_lost_without_effects() {
    let mut game = coop_match();
    assert_eq!(game.ufo, None);
    game.spawn_ufo(700);
    assert_eq!(game.ufo, Some(700));
    assert_eq!(game.invaders.len(), 50);
    game.lose_ufo();
    assert_eq!(game.ufo, None);
    assert_eq!(game.players.len(), 2);
}
