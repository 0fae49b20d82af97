use lib::achievements::{
    chaos_clear_id, chaos_perfect_id, display_sections, register_all, Achievement, AchievementId, CLEAR_INSANE,
    CLEAR_INSICULOUS, CLEAR_NORMAL, CLEAR_RIDICULOUS, LAST_STAND, PERFECT_INSANE, PERFECT_INSICULOUS, PERFECT_NORMAL,
    PERFECT_RIDICULOUS, SHARPSHOOTER, UFO_HUNTER,
};
use lib::gameplay::Effect;
use lib::types::{ChaosMode, SpaceInvadersGame};
use std::collections::HashSet;

fn registered() -> Vec<Achievement> {
    let mut mgr: Vec<Achievement> = Vec::new();
    register_all(&mut mgr);
    mgr
}

#[test]
fn register_all_adds_eleven() {
    let mgr = registered();
    assert_eq!(mgr.len(), 11);
}

#[test]
fn chaos_clear_id_maps_each_mode() {
    assert_eq!(chaos_clear_id(ChaosMode::Normal), CLEAR_NORMAL);
    assert_eq!(chaos_clear_id(ChaosMode::Insane), CLEAR_INSANE);
    assert_eq!(chaos_clear_id(ChaosMode::Ridiculous), CLEAR_RIDICULOUS);
    assert_eq!(chaos_clear_id(ChaosMode::Insiculous), CLEAR_INSICULOUS);
}

#[test]
fn chaos_perfect_id_maps_each_mode() {
    assert_eq!(chaos_perfect_id(ChaosMode::Normal), PERFECT_NORMAL);
    assert_eq!(chaos_perfect_id(ChaosMode::Insane), PERFECT_INSANE);
    assert_eq!(chaos_perfect_id(ChaosMode::Ridiculous), PERFECT_RIDICULOUS);
    assert_eq!(chaos_perfect_id(ChaosMode::Insiculous), PERFECT_INSICULOUS);
}

#[test]
fn display_sections_cover_every_registered_achievement() {
    let mgr = registered();
    let sections = display_sections();
    let shown: HashSet<&str> = sections.iter().flat_map(|(_, ids)| ids.iter().map(|a| a.id())).collect();
    for ach in &mgr {
        assert!(shown.contains(ach.id.id()), "{} registered but not in DISPLAY_SECTIONS", ach.id.id());
    }
    assert_eq!(shown.len(), mgr.len(), "DISPLAY_SECTIONS has duplicates or extras");
}

#[test]
fn every_id_is_registered() {
    let mgr = registered();
    for id in [
        CLEAR_NORMAL, CLEAR_INSANE, CLEAR_RIDICULOUS, CLEAR_INSICULOUS,
        PERFECT_NORMAL, PERFECT_INSANE, PERFECT_RIDICULOUS, PERFECT_INSICULOUS,
        SHARPSHOOTER, LAST_STAND, UFO_HUNTER,
    ] {
        assert!(mgr.iter().any(|a| a.id.id() == id), "{} not registered", id);
    }
}

#[test]
fn registered_names_and_sections() {
    let mgr = registered();
    assert_eq!(mgr[0].name, "Earth Defender");
    assert_eq!(mgr[8].description, "Land 10 kill shots in a row without wasting a bullet.");
    assert_eq!(mgr[10].id, AchievementId::UfoHunter);
    let sections = display_sections();
    assert_eq!(sections.len(), 3);
    assert_eq!(sections[0].0, "Repelled Invasions");
    assert_eq!(sections[1].0, "Perfect Defenses");
    assert_eq!(sections[2].0, "Skill");
    assert_eq!(sections[2].1, vec![AchievementId::Sharpshooter, AchievementId::LastStand, AchievementId::UfoHunter]);
}

#[test]
fn win_unlocks_clear_perfect_and_last_stand() {
    let mut game = SpaceInvadersGame::default();
    game.chaos_mode = ChaosMode::Insane;
    let mut effects = Vec::new();
    game.unlock_win_achievements(&mut effects);
    assert_eq!(
        effects,
        vec![Effect::Unlock(AchievementId::ClearInsane), Effect::Unlock(AchievementId::PerfectInsane)]
    );

    game.players[0].lives = 1;
    let mut effects = Vec::new();
    game.unlock_win_achievements(&mut effects);
    assert_eq!(
        effects,
        vec![Effect::Unlock(AchievementId::ClearInsane), Effect::Unlock(AchievementId::LastStand)]
    );

    game.players[0].lives = 2;
    let mut effects = Vec::new();
    game.unlock_win_achievements(&mut effects);
    assert_eq!(effects, vec![Effect::Unlock(AchievementId::ClearInsane)]);
}
