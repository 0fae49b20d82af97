use lib::constants::{INVADER_COLS, INVADER_ROWS};
use lib::spawning::{invader_value, spawn_invaders};
use lib::types::SpaceInvadersGame;

#[test]
fn formation_spawns_full_grid() {
    let bodies: Vec<u64> = (100..150).collect();
    let invaders = spawn_invaders(&bodies);
    assert_eq!(invaders.len(), INVADER_ROWS * INVADER_COLS);
    assert_eq!((invaders[0].entity, invaders[0].row, invaders[0].col), (100, 0, 0));
    assert_eq!((invaders[13].entity, invaders[13].row, invaders[13].col), (113, 1, 3));
    assert_eq!((invaders[49].entity, invaders[49].row, invaders[49].col), (149, 4, 9));
}

#[test]
fn top_row_invaders_pay_the_most() {
    assert_eq!(invader_value(0), 30);
    assert_eq!(invader_value(INVADER_ROWS - 1), 10);
    for row in 1..INVADER_ROWS {
        assert!(invader_value(row - 1) >= invader_value(row));
    }
    // Out-of-range rows degrade to the minimum payout, never panic.
    assert_eq!(invader_value(99), invader_value(INVADER_ROWS - 1));
    assert_eq!(invader_value(1), 20);
    assert_eq!(invader_value(2), 20);
    assert_eq!(invader_value(3), 10);
}

#[test]
fn spawned_bullets_join_their_owner() {
    let mut game = SpaceInvadersGame::default();
    game.spawn_player_bullet(0, 7);
    game.spawn_player_bullet(0, 8);
    game.spawn_invader_bullet(9);
    assert_eq!(game.players[0].bullets, vec![7, 8]);
    assert_eq!(game.invader_bullets, vec![9]);
}
