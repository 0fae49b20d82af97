use lib::achievements::AchievementId;
use lib::constants::{
    INSANE_MAX_PLAYER_BULLETS, INSICULOUS_MAX_PLAYER_BULLETS, MAX_PLAYER_BULLETS, RIDICULOUS_MAX_PLAYER_BULLETS,
    STARTING_LIVES,
};
use lib::gameplay::combat::{live_columns, pick_shooter_column, player_fire_caps};
use lib::gameplay::flow::MenuCommand;
use lib::gameplay::players::{coop_defeated, volley_fits};
use lib::gameplay::ufo::ufo_bonus;
use lib::gameplay::{Contact, Effect};
use lib::types::{ChaosMode, GameMode, GameState, Invader, SpaceInvadersGame};

/// A match in progress: invaders 100..150 (row-major), barrier blocks
/// 200..272, cannons 1 (and 2 in co-op).
fn new_match(mode: GameMode) -> SpaceInvadersGame {
    let mut game = SpaceInvadersGame::default();
    game.mode = mode;
    let invaders: Vec<u64> = (100..150).collect();
    let blocks: Vec<u64> = (200..272).collect();
    let cannons: Vec<u64> = (1..=mode.player_count() as u64).collect();
    let mut effects = Vec::new();
    game.start_game(&invaders, &blocks, &cannons, &mut effects);
    game
}

fn hit(a: u64, b: u64) -> Contact {
    Contact { started: true, first: a, second: b }
}

#[test]
fn pick_shooter_column_wraps_over_live_columns() {
    let live = [2usize, 5, 7];
    assert_eq!(pick_shooter_column(&live, 0), 2);
    assert_eq!(pick_shooter_column(&live, 1), 5);
    assert_eq!(pick_shooter_column(&live, 2), 7);
    assert_eq!(pick_shooter_column(&live, 3), 2);
}

#[test]
fn player_fire_caps_per_chaos_mode() {
    assert_eq!(player_fire_caps(ChaosMode::Normal), (1, MAX_PLAYER_BULLETS));
    assert_eq!(player_fire_caps(ChaosMode::Insane), (1, INSANE_MAX_PLAYER_BULLETS));
    assert_eq!(player_fire_caps(ChaosMode::Ridiculous), (2, RIDICULOUS_MAX_PLAYER_BULLETS));
    assert_eq!(player_fire_caps(ChaosMode::Insiculous), (2, INSICULOUS_MAX_PLAYER_BULLETS));
    for &mode in &ChaosMode::ALL {
        let (shots, max_live) = player_fire_caps(mode);
        assert!(shots <= max_live, "{mode:?} volley larger than its cap");
    }
    assert_eq!(player_fire_caps(ChaosMode::Insane), (1, 4));
    assert_eq!(player_fire_caps(ChaosMode::Ridiculous), (2, 2));
    assert_eq!(player_fire_caps(ChaosMode::Insiculous), (2, 6));
}

#[test]
fn start_game_builds_a_fresh_match() {
    let mut game = new_match(GameMode::TwoPlayerCoop);
    assert_eq!(game.state, GameState::Playing);
    assert_eq!(game.invaders.len(), 50);
    assert_eq!(game.barrier_blocks.len(), 72);
    assert_eq!(game.players.len(), 2);
    assert_eq!(game.players[1].entity, Some(2));
    assert_eq!(game.players[1].lives, STARTING_LIVES);

    // Restarting despawns the old cannons, then the fleet's bullets, the
    // ship, the fleet and the barriers. The roster is rebuilt before the
    // bullets are cleared, so the old cannons' bullets get no despawn.
    game.spawn_player_bullet(0, 500);
    game.spawn_invader_bullet(600);
    game.ufo = Some(700);
    let invaders: Vec<u64> = (1000..1050).collect();
    let blocks: Vec<u64> = (2000..2072).collect();
    let mut effects = Vec::new();
    game.start_game(&invaders, &blocks, &[3, 4], &mut effects);
    assert_eq!(effects[0], Effect::Despawn(1));
    assert_eq!(effects[1], Effect::Despawn(2));
    assert_eq!(effects[2], Effect::Despawn(600));
    assert_eq!(effects[3], Effect::Despawn(700));
    assert_eq!(effects[4], Effect::Despawn(100));
    assert!(!effects.contains(&Effect::Despawn(500)));
    assert_eq!(effects.len(), 4 + 50 + 72);
    assert!(game.invader_bullets.is_empty());
    assert_eq!(game.ufo, None);
    assert_eq!(game.players[0].entity, Some(3));
    assert!(game.players[0].bullets.is_empty());
    assert_eq!(game.invaders[0].entity, 1000);
}

#[test]
fn player_bullet_kills_the_invader_it_touched_and_scores() {
    let mut game = new_match(GameMode::SinglePlayer);
    game.spawn_player_bullet(0, 500);
    let mut effects = Vec::new();
    // Touches invader 115 (row 1) and a barrier block: the invader wins.
    game.resolve_bullet_hits(&[hit(203, 500), hit(500, 115)], &mut effects);
    assert_eq!(
        effects,
        vec![Effect::InvaderKilled(Invader { entity: 115, row: 1, col: 5 }), Effect::Despawn(500)]
    );
    assert_eq!(game.players[0].score, 20);
    assert_eq!(game.players[0].shot_streak, 1);
    assert!(game.players[0].bullets.is_empty());
    assert_eq!(game.invaders.len(), 49);
    assert!(game.invaders.iter().all(|i| i.entity != 115));
    assert_eq!(game.barrier_blocks.len(), 72);
}

#[test]
fn contacts_that_did_not_start_this_frame_do_nothing() {
    let mut game = new_match(GameMode::SinglePlayer);
    game.spawn_player_bullet(0, 500);
    let mut effects = Vec::new();
    game.resolve_bullet_hits(&[Contact { started: false, first: 500, second: 100 }], &mut effects);
    assert!(effects.is_empty());
    assert_eq!(game.players[0].bullets, vec![500]);
    assert_eq!(game.invaders.len(), 50);
}

#[test]
fn player_bullet_chips_a_barrier_block_and_resets_the_streak() {
    let mut game = new_match(GameMode::SinglePlayer);
    game.players[0].shot_streak = 4;
    game.spawn_player_bullet(0, 500);
    let mut effects = Vec::new();
    game.resolve_bullet_hits(&[hit(500, 210)], &mut effects);
    assert_eq!(effects, vec![Effect::BlockChipped(210), Effect::Despawn(500)]);
    assert_eq!(game.barrier_blocks.len(), 71);
    assert!(!game.barrier_blocks.contains(&210));
    assert_eq!(game.players[0].shot_streak, 0);
    assert_eq!(game.players[0].score, 0);
}

#[test]
fn two_bullets_on_one_invader_kill_it_once() {
    let mut game = new_match(GameMode::SinglePlayer);
    game.spawn_player_bullet(0, 500);
    game.spawn_player_bullet(0, 501);
    let mut effects = Vec::new();
    game.resolve_bullet_hits(&[hit(500, 100), hit(501, 100)], &mut effects);
    assert_eq!(game.players[0].score, 30);
    assert_eq!(game.players[0].bullets, vec![501]);
    assert_eq!(game.invaders.len(), 49);
}

#[test]
fn tenth_kill_in_a_row_unlocks_sharpshooter() {
    let mut game = new_match(GameMode::SinglePlayer);
    game.players[0].shot_streak = 9;
    game.spawn_player_bullet(0, 500);
    let mut effects = Vec::new();
    game.resolve_bullet_hits(&[hit(500, 149)], &mut effects);
    assert_eq!(
        effects,
        vec![
            Effect::InvaderKilled(Invader { entity: 149, row: 4, col: 9 }),
            Effect::Despawn(500),
            Effect::Unlock(AchievementId::Sharpshooter),
        ]
    );
    assert_eq!(game.players[0].score, 10);
    assert_eq!(game.players[0].shot_streak, 10);
}

#[test]
fn invader_bullet_hits_a_cannon_which_respawns() {
    let mut game = new_match(GameMode::SinglePlayer);
    game.spawn_player_bullet(0, 500);
    game.spawn_invader_bullet(600);
    game.spawn_invader_bullet(601);
    game.players[0].shot_streak = 3;
    let mut effects = Vec::new();
    game.resolve_bullet_hits(&[hit(1, 600)], &mut effects);
    assert_eq!(
        effects,
        vec![
            Effect::Despawn(600),
            Effect::CannonHit { index: 0, body: Some(1) },
            Effect::Despawn(601),
            Effect::Despawn(500),
            Effect::CannonRespawn { index: 0, entity: 1 },
        ]
    );
    assert_eq!(game.players[0].lives, STARTING_LIVES - 1);
    assert_eq!(game.players[0].shot_streak, 0);
    assert!(game.players[0].bullets.is_empty());
    assert!(game.invader_bullets.is_empty());
    assert_eq!(game.state, GameState::Playing);
}

#[test]
fn invader_bullet_chips_a_barrier_block() {
    let mut game = new_match(GameMode::SinglePlayer);
    game.spawn_invader_bullet(600);
    let mut effects = Vec::new();
    game.resolve_bullet_hits(&[hit(600, 250)], &mut effects);
    assert_eq!(effects, vec![Effect::BlockChipped(250), Effect::Despawn(600)]);
    assert!(game.invader_bullets.is_empty());
    assert_eq!(game.barrier_blocks.len(), 71);
}

#[test]
fn last_life_of_the_last_cannon_loses_the_match() {
    let mut game = new_match(GameMode::TwoPlayerCoop);
    game.players[1].lives = 0;
    game.players[1].entity = None;
    game.players[0].lives = 1;
    game.ufo = Some(700);
    let mut effects = Vec::new();
    game.player_hit(0, &mut effects);
    assert_eq!(
        effects,
        vec![Effect::CannonHit { index: 0, body: Some(1) }, Effect::Despawn(1), Effect::Despawn(700)]
    );
    assert_eq!(game.players[0].lives, 0);
    assert_eq!(game.players[0].entity, None);
    assert_eq!(game.state, GameState::GameOver { won: false });
    assert_eq!(game.ufo, None);
}

#[test]
fn coop_survivor_plays_on() {
    let mut game = new_match(GameMode::TwoPlayerCoop);
    game.players[0].lives = 1;
    let mut effects = Vec::new();
    game.player_hit(0, &mut effects);
    assert_eq!(effects, vec![Effect::CannonHit { index: 0, body: Some(1) }, Effect::Despawn(1)]);
    assert_eq!(game.players[0].entity, None);
    assert_eq!(game.state, GameState::Playing);
    assert_eq!(game.players[1].lives, STARTING_LIVES);
}

#[test]
fn volley_fits_and_coop_defeat() {
    assert!(volley_fits(0, 1, 1));
    assert!(!volley_fits(1, 1, 1));
    assert!(volley_fits(4, 2, 6));
    assert!(!volley_fits(5, 2, 6));
    assert!(!volley_fits(usize::MAX, 2, 6));
    assert!(!coop_defeated(&[]));
    assert!(coop_defeated(&[0, 0]));
    assert!(!coop_defeated(&[0, 2]));
}

#[test]
fn ready_volley_follows_the_caps() {
    let mut game = new_match(GameMode::TwoPlayerCoop);
    game.chaos_mode = ChaosMode::Ridiculous;
    assert_eq!(game.ready_volley(0), 2);
    game.spawn_player_bullet(0, 500);
    game.spawn_player_bullet(0, 501);
    assert_eq!(game.ready_volley(0), 0);
    // The other cannon is not blocked by the first one's bullets.
    assert_eq!(game.ready_volley(1), 2);
    game.players[1].entity = None;
    assert_eq!(game.ready_volley(1), 0);
}

#[test]
fn crossing_bullets_cancel_pairwise() {
    let mut game = new_match(GameMode::TwoPlayerCoop);
    game.players[0].shot_streak = 2;
    game.spawn_player_bullet(0, 500);
    game.spawn_player_bullet(1, 510);
    game.spawn_invader_bullet(600);
    game.spawn_invader_bullet(601);
    let mut effects = Vec::new();
    // Both player bullets overlap invader bullet 600; only the first gets it,
    // the second pairs with 601.
    game.cancel_crossing_bullets(&[(500, 600), (510, 600), (510, 601)], &mut effects);
    assert_eq!(
        effects,
        vec![
            Effect::BulletsCancelled(500),
            Effect::BulletsCancelled(510),
            Effect::Despawn(500),
            Effect::Despawn(600),
            Effect::Despawn(510),
            Effect::Despawn(601),
        ]
    );
    assert!(game.players[0].bullets.is_empty());
    assert!(game.players[1].bullets.is_empty());
    assert!(game.invader_bullets.is_empty());
    assert_eq!(game.players[0].shot_streak, 0);
}

#[test]
fn stray_bullets_are_culled_as_misses() {
    let mut game = new_match(GameMode::SinglePlayer);
    game.players[0].shot_streak = 5;
    game.spawn_player_bullet(0, 500);
    game.spawn_player_bullet(0, 501);
    game.spawn_invader_bullet(600);
    game.spawn_invader_bullet(601);
    let mut effects = Vec::new();
    game.cull_stray_bullets(&[501, 600], &mut effects);
    assert_eq!(effects, vec![Effect::Despawn(501), Effect::Despawn(600)]);
    assert_eq!(game.players[0].bullets, vec![500]);
    assert_eq!(game.invader_bullets, vec![601]);
    assert_eq!(game.players[0].shot_streak, 0);
}

#[test]
fn shooting_the_mystery_ship_pays_a_bonus() {
    assert_eq!(ufo_bonus(0), 50);
    assert_eq!(ufo_bonus(1), 100);
    assert_eq!(ufo_bonus(2), 150);
    assert_eq!(ufo_bonus(3), 300);
    assert_eq!(ufo_bonus(7), 300);

    let mut game = new_match(GameMode::TwoPlayerCoop);
    game.ufo = Some(700);
    game.spawn_player_bullet(0, 500);
    game.spawn_player_bullet(1, 510);
    let mut effects = Vec::new();
    assert!(game.check_ufo_hit(&[hit(700, 510)], 2, &mut effects));
    assert_eq!(
        effects,
        vec![
            Effect::ShipDown(700),
            Effect::Despawn(700),
            Effect::Unlock(AchievementId::UfoHunter),
            Effect::Despawn(510),
        ]
    );
    assert_eq!(game.players[1].score, 150);
    assert_eq!(game.players[1].shot_streak, 1);
    assert_eq!(game.players[0].score, 0);
    assert_eq!(game.ufo_flash_bonus, 150);
    assert_eq!(game.ufo, None);

    let mut effects = Vec::new();
    assert!(!game.check_ufo_hit(&[hit(700, 500)], 2, &mut effects));
    assert!(effects.is_empty());
}

#[test]
fn last_invader_down_wins_the_match() {
    let mut game = new_match(GameMode::SinglePlayer);
    game.chaos_mode = ChaosMode::Insiculous;
    let mut effects = Vec::new();
    game.check_win_condition(&mut effects);
    assert!(effects.is_empty());
    assert_eq!(game.state, GameState::Playing);

    game.invaders.clear();
    game.spawn_invader_bullet(600);
    game.check_win_condition(&mut effects);
    assert_eq!(
        effects,
        vec![
            Effect::Unlock(AchievementId::ClearInsiculous),
            Effect::Unlock(AchievementId::PerfectInsiculous),
            Effect::Despawn(600),
        ]
    );
    assert_eq!(game.state, GameState::GameOver { won: true });
}

#[test]
fn state_input_restarts_or_leaves() {
    let mut game = new_match(GameMode::SinglePlayer);
    let mut effects = Vec::new();
    assert_eq!(game.handle_state_input(true, false, &mut effects), MenuCommand::Stay);
    assert_eq!(game.state, GameState::Playing);

    game.finish_game(false, &mut effects);
    assert_eq!(game.handle_state_input(true, true, &mut effects), MenuCommand::StartMatch);
    assert_eq!(game.handle_state_input(false, true, &mut effects), MenuCommand::Stay);
    assert_eq!(game.state, GameState::TitleScreen { selection: 0 });

    let mut game = new_match(GameMode::SinglePlayer);
    game.spawn_invader_bullet(600);
    let mut effects = Vec::new();
    game.handle_state_input(false, true, &mut effects);
    assert_eq!(effects, vec![Effect::Despawn(600)]);
    assert_eq!(game.state, GameState::TitleScreen { selection: 0 });
}

#[test]
fn return_fire_comes_from_the_bottom_of_a_live_column() {
    let mut game = new_match(GameMode::SinglePlayer);
    assert_eq!(live_columns(&game.invaders), (0..10).collect::<Vec<usize>>());
    // Column 3 of rand 3: its bottom invader is row 4, entity 143.
    assert_eq!(game.invader_shooter(3), Some(143));
    // Thin the fleet to columns 2 and 7.
    game.invaders.retain(|i| (i.col == 2 && i.row <= 1) || i.col == 7);
    assert_eq!(live_columns(&game.invaders), vec![2, 7]);
    assert_eq!(game.invader_shooter(0), Some(112));
    assert_eq!(game.invader_shooter(1), Some(147));
    assert_eq!(game.invader_shooter(2), Some(112));
    assert_eq!(game.live_column_span(), Some((2, 7)));
    game.invaders.clear();
    assert_eq!(game.invader_shooter(5), None);
    assert_eq!(game.live_column_span(), None);
}

#[test]
fn frame_counter_wraps() {
    let mut game = SpaceInvadersGame::default();
    game.tick();
    assert_eq!(game.frame_count, 1);
    game.frame_count = u32::MAX;
    game.tick();
    assert_eq!(game.frame_count, 0);
}

#[test]
fn payouts_are_checked_against_what_is_actually_paid() {
    let mut game = new_match(GameMode::TwoPlayerCoop);
    // Cannon 0 sits 20 points below the top; cannon 1 has no room at all.
    game.players[0].score = u32::MAX - 20;
    game.players[1].score = u32::MAX;
    game.spawn_player_bullet(0, 500);
    game.spawn_player_bullet(1, 501);
    // A row-1 kill (20 points) fits; cannon 1's bullet misses, so it pays nothing.
    assert!(game.can_pay_bullet_hits(&[hit(500, 115)]));
    // A top-row kill (30 points) does not fit.
    assert!(!game.can_pay_bullet_hits(&[hit(500, 100)]));
    // Cannon 1 killing anything does not fit.
    assert!(!game.can_pay_bullet_hits(&[hit(501, 145)]));
    // A chip pays no points.
    assert!(game.can_pay_bullet_hits(&[hit(501, 210)]));

    let mut effects = Vec::new();
    game.resolve_bullet_hits(&[hit(500, 115), hit(501, 210)], &mut effects);
    assert_eq!(game.players[0].score, u32::MAX);
    assert_eq!(game.players[1].score, u32::MAX);
}

#[test]
fn streak_counter_room_is_checked_per_kill() {
    let mut game = new_match(GameMode::SinglePlayer);
    game.players[0].shot_streak = u32::MAX;
    game.spawn_player_bullet(0, 500);
    assert!(!game.can_pay_bullet_hits(&[hit(500, 100)]));
    // A chip resets the streak instead of extending it.
    assert!(game.can_pay_bullet_hits(&[hit(500, 210)]));
    assert!(game.can_pay_bullet_hits(&[]));
}

#[test]
fn mystery_ship_payout_checks_only_the_paid_cannon() {
    let mut game = new_match(GameMode::TwoPlayerCoop);
    game.ufo = Some(700);
    game.players[0].score = u32::MAX;
    game.players[1].score = u32::MAX - 50;
    game.spawn_player_bullet(1, 501);
    // Cannon 1 is paid; draw 0 is 50 points and fits, draw 1 is 100 and does not.
    assert!(game.can_pay_ufo_hit(&[hit(501, 700)], 0));
    assert!(!game.can_pay_ufo_hit(&[hit(501, 700)], 1));
    // Nothing hits the ship: nothing is paid.
    assert!(game.can_pay_ufo_hit(&[], 1));
    let mut effects = Vec::new();
    assert!(game.check_ufo_hit(&[hit(501, 700)], 0, &mut effects));
    assert_eq!(game.players[1].score, u32::MAX);
    assert_eq!(game.players[0].score, u32::MAX);
}

/// Every id the session holds, wherever it stands.
fn all_ids(game: &SpaceInvadersGame) -> Vec<u64> {
    let mut ids: Vec<u64> = game.invaders.iter().map(|i| i.entity).collect();
    ids.extend(game.barrier_blocks.iter().copied());
    ids.extend(game.invader_bullets.iter().copied());
    for p in &game.players {
        ids.extend(p.bullets.iter().copied());
        ids.extend(p.entity);
    }
    ids.extend(game.ufo);
    ids
}

fn distinct(ids: &[u64]) -> bool {
    let mut sorted = ids.to_vec();
    sorted.sort();
    sorted.windows(2).all(|w| w[0] != w[1])
}

#[test]
fn ids_stay_distinct_through_a_frame() {
    let mut game = new_match(GameMode::TwoPlayerCoop);
    assert!(distinct(&all_ids(&game)));
    game.spawn_player_bullet(0, 500);
    game.spawn_player_bullet(1, 501);
    game.spawn_invader_bullet(600);
    game.spawn_invader_bullet(601);
    game.spawn_ufo(700);
    assert!(distinct(&all_ids(&game)));
    let before = all_ids(&game).len();
    let mut effects = Vec::new();
    game.resolve_bullet_hits(&[hit(500, 100), hit(600, 2), hit(601, 210)], &mut effects);
    game.cancel_crossing_bullets(&[(501, 601)], &mut effects);
    game.cull_stray_bullets(&[501], &mut effects);
    let after = all_ids(&game);
    assert!(distinct(&after));
    assert!(after.len() < before);
    assert!(after.iter().all(|id| *id < 1000));
}
