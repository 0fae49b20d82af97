//! Achievement definitions and the win-path unlock decision.
//!
//! Clear/perfect/last-stand achievements unlock from the win path; the
//! sharpshooter streak unlocks the moment a cannon's streak reaches
//! `SHARPSHOOTER_TARGET`; the UFO hunter unlocks when a mystery ship is
//! shot down.

use vstd::prelude::*;

use crate::constants::STARTING_LIVES;
use crate::gameplay::Effect;
use crate::types::{ChaosMode, PlayerView, SpaceInvadersGame};

verus! {

pub const CLEAR_NORMAL: &'static str = "clear_normal";
pub const CLEAR_INSANE: &'static str = "clear_insane";
pub const CLEAR_RIDICULOUS: &'static str = "clear_ridiculous";
pub const CLEAR_INSICULOUS: &'static str = "clear_insiculous";

pub const PERFECT_NORMAL: &'static str = "perfect_normal";
pub const PERFECT_INSANE: &'static str = "perfect_insane";
pub const PERFECT_RIDICULOUS: &'static str = "perfect_ridiculous";
pub const PERFECT_INSICULOUS: &'static str = "perfect_insiculous";

pub const SHARPSHOOTER: &'static str = "sharpshooter";
pub const LAST_STAND: &'static str = "last_stand";
pub const UFO_HUNTER: &'static str = "ufo_hunter";

/// Every achievement of the game.
#[derive(Debug, Clone, Copy, PartialEq, Eq, Structural)]
pub enum AchievementId {
    ClearNormal,
    ClearInsane,
    ClearRidiculous,
    ClearInsiculous,
    PerfectNormal,
    PerfectInsane,
    PerfectRidiculous,
    PerfectInsiculous,
    Sharpshooter,
    LastStand,
    UfoHunter,
}

impl AchievementId {
    /// The stable string id the achievement is saved under.
    pub open spec fn spec_id(self) -> Seq<char> {
        match self {
            AchievementId::ClearNormal => CLEAR_NORMAL@,
            AchievementId::ClearInsane => CLEAR_INSANE@,
            AchievementId::ClearRidiculous => CLEAR_RIDICULOUS@,
            AchievementId::ClearInsiculous => CLEAR_INSICULOUS@,
            AchievementId::PerfectNormal => PERFECT_NORMAL@,
            AchievementId::PerfectInsane => PERFECT_INSANE@,
            AchievementId::PerfectRidiculous => PERFECT_RIDICULOUS@,
            AchievementId::PerfectInsiculous => PERFECT_INSICULOUS@,
            AchievementId::Sharpshooter => SHARPSHOOTER@,
            AchievementId::LastStand => LAST_STAND@,
            AchievementId::UfoHunter => UFO_HUNTER@,
        }
    }

    /// The stable string id the achievement is saved under.
    pub fn id(self) -> (s: &'static str)
        ensures
            s@ == self.spec_id(),
    {
        match self {
            AchievementId::ClearNormal => CLEAR_NORMAL,
            AchievementId::ClearInsane => CLEAR_INSANE,
            AchievementId::ClearRidiculous => CLEAR_RIDICULOUS,
            AchievementId::ClearInsiculous => CLEAR_INSICULOUS,
            AchievementId::PerfectNormal => PERFECT_NORMAL,
            AchievementId::PerfectInsane => PERFECT_INSANE,
            AchievementId::PerfectRidiculous => PERFECT_RIDICULOUS,
            AchievementId::PerfectInsiculous => PERFECT_INSICULOUS,
            AchievementId::Sharpshooter => SHARPSHOOTER,
            AchievementId::LastStand => LAST_STAND,
            AchievementId::UfoHunter => UFO_HUNTER,
        }
    }
}

/// Different achievements are saved under different string ids.
pub proof fn lemma_ids_distinct(a: AchievementId, b: AchievementId)
    requires
        a != b,
    ensures
        a.spec_id() != b.spec_id(),
{
    reveal_strlit("clear_normal");
    reveal_strlit("clear_insane");
    reveal_strlit("clear_ridiculous");
    reveal_strlit("clear_insiculous");
    reveal_strlit("perfect_normal");
    reveal_strlit("perfect_insane");
    reveal_strlit("perfect_ridiculous");
    reveal_strlit("perfect_insiculous");
    reveal_strlit("sharpshooter");
    reveal_strlit("last_stand");
    reveal_strlit("ufo_hunter");
    if a.spec_id().len() == b.spec_id().len() {
        assert(a.spec_id()[0] != b.spec_id()[0] || a.spec_id()[6] != b.spec_id()[6]
            || a.spec_id()[8] != b.spec_id()[8] || a.spec_id()[9] != b.spec_id()[9]);
    }
}

/// An achievement as the registry shows it: id, display name, and how to
/// earn it.
#[derive(Debug, Clone, Copy)]
pub struct Achievement {
    pub id: AchievementId,
    pub name: &'static str,
    pub description: &'static str,
}

/// Every achievement, in registration order.
pub open spec fn registered_achievements() -> Seq<Achievement> {
    seq![
        Achievement { id: AchievementId::ClearNormal, name: "Earth Defender", description: "Repel the invasion in Normal mode." },
        Achievement { id: AchievementId::ClearInsane, name: "Blitz Breaker", description: "Repel the invasion in Insane mode." },
        Achievement { id: AchievementId::ClearRidiculous, name: "Twin Cannon Commander", description: "Repel the invasion in Ridiculous mode." },
        Achievement { id: AchievementId::ClearInsiculous, name: "Insiculous Overkill", description: "Repel the invasion in Insiculous mode." },
        Achievement { id: AchievementId::PerfectNormal, name: "Untouchable", description: "Clear Normal mode without losing a life." },
        Achievement { id: AchievementId::PerfectInsane, name: "Untouchable Under Fire", description: "Clear Insane mode without losing a life." },
        Achievement { id: AchievementId::PerfectRidiculous, name: "Untouchable Overdrive", description: "Clear Ridiculous mode without losing a life." },
        Achievement { id: AchievementId::PerfectInsiculous, name: "Insiculously Untouchable", description: "Clear Insiculous mode without losing a life." },
        Achievement { id: AchievementId::Sharpshooter, name: "Sharpshooter", description: "Land 10 kill shots in a row without wasting a bullet." },
        Achievement { id: AchievementId::LastStand, name: "Last Stand", description: "Repel the invasion on your very last life." },
        Achievement { id: AchievementId::UfoHunter, name: "UFO Hunter", description: "Shoot down a mystery ship." },
    ]
}

/// Register every achievement. Call once when the game starts.
pub fn register_all(registry: &mut Vec<Achievement>)
    ensures
        final(registry)@ == old(registry)@ + registered_achievements(),
{
    registry.push(Achievement { id: AchievementId::ClearNormal, name: "Earth Defender", description: "Repel the invasion in Normal mode." });
    registry.push(Achievement { id: AchievementId::ClearInsane, name: "Blitz Breaker", description: "Repel the invasion in Insane mode." });
    registry.push(Achievement { id: AchievementId::ClearRidiculous, name: "Twin Cannon Commander", description: "Repel the invasion in Ridiculous mode." });
    registry.push(Achievement { id: AchievementId::ClearInsiculous, name: "Insiculous Overkill", description: "Repel the invasion in Insiculous mode." });
    registry.push(Achievement { id: AchievementId::PerfectNormal, name: "Untouchable", description: "Clear Normal mode without losing a life." });
    registry.push(Achievement { id: AchievementId::PerfectInsane, name: "Untouchable Under Fire", description: "Clear Insane mode without losing a life." });
    registry.push(Achievement { id: AchievementId::PerfectRidiculous, name: "Untouchable Overdrive", description: "Clear Ridiculous mode without losing a life." });
    registry.push(Achievement { id: AchievementId::PerfectInsiculous, name: "Insiculously Untouchable", description: "Clear Insiculous mode without losing a life." });
    registry.push(Achievement { id: AchievementId::Sharpshooter, name: "Sharpshooter", description: "Land 10 kill shots in a row without wasting a bullet." });
    registry.push(Achievement { id: AchievementId::LastStand, name: "Last Stand", description: "Repel the invasion on your very last life." });
    registry.push(Achievement { id: AchievementId::UfoHunter, name: "UFO Hunter", description: "Shoot down a mystery ship." });
    assert(final(registry)@ =~= old(registry)@ + registered_achievements());
}

pub const REPELLED_HEADER: &'static str = "Repelled Invasions";
pub const PERFECT_HEADER: &'static str = "Perfect Defenses";
pub const SKILL_HEADER: &'static str = "Skill";

/// Grouped display order for the achievements page: a section header and
/// the achievements listed under it.
pub open spec fn display_sections_spec() -> Seq<(Seq<char>, Seq<AchievementId>)> {
    seq![
        (REPELLED_HEADER@, seq![
            AchievementId::ClearNormal,
            AchievementId::ClearInsane,
            AchievementId::ClearRidiculous,
            AchievementId::ClearInsiculous,
        ]),
        (PERFECT_HEADER@, seq![
            AchievementId::PerfectNormal,
            AchievementId::PerfectInsane,
            AchievementId::PerfectRidiculous,
            AchievementId::PerfectInsiculous,
        ]),
        (SKILL_HEADER@, seq![
            AchievementId::Sharpshooter,
            AchievementId::LastStand,
            AchievementId::UfoHunter,
        ]),
    ]
}

/// Grouped display order for the achievements page: a section header and
/// the achievements listed under it.
pub fn display_sections() -> (r: Vec<(&'static str, Vec<AchievementId>)>)
    ensures
        r@.len() == display_sections_spec().len(),
        forall|i: int|
            0 <= i < r@.len() ==> (#[trigger] r@[i]).0@ == display_sections_spec()[i].0
                && r@[i].1@ == display_sections_spec()[i].1,
{
    let mut sections: Vec<(&'static str, Vec<AchievementId>)> = Vec::new();
    sections.push((REPELLED_HEADER, vec![
        AchievementId::ClearNormal,
        AchievementId::ClearInsane,
        AchievementId::ClearRidiculous,
        AchievementId::ClearInsiculous,
    ]));
    sections.push((PERFECT_HEADER, vec![
        AchievementId::PerfectNormal,
        AchievementId::PerfectInsane,
        AchievementId::PerfectRidiculous,
        AchievementId::PerfectInsiculous,
    ]));
    sections.push((SKILL_HEADER, vec![
        AchievementId::Sharpshooter,
        AchievementId::LastStand,
        AchievementId::UfoHunter,
    ]));
    assert(sections@[0].1@ =~= display_sections_spec()[0].1);
    assert(sections@[1].1@ =~= display_sections_spec()[1].1);
    assert(sections@[2].1@ =~= display_sections_spec()[2].1);
    sections
}

/// Every achievement listed on the achievements page, section by section.
pub open spec fn displayed_ids() -> Seq<AchievementId> {
    display_sections_spec()[0].1 + display_sections_spec()[1].1 + display_sections_spec()[2].1
}

/// The achievements page shows every registered achievement exactly once,
/// and nothing else: no duplicates, no extras.
pub proof fn lemma_display_covers_registered()
    ensures
        displayed_ids().no_duplicates(),
        displayed_ids().len() == registered_achievements().len(),
        forall|i: int|
            0 <= i < registered_achievements().len() ==> displayed_ids().contains(
                #[trigger] registered_achievements()[i].id,
            ),
        forall|i: int|
            0 <= i < displayed_ids().len() ==> exists|j: int|
                0 <= j < registered_achievements().len() && registered_achievements()[j].id
                    == #[trigger] displayed_ids()[i],
        registered_achievements().map_values(|a: Achievement| a.id).no_duplicates(),
{
    let d = displayed_ids();
    let r = registered_achievements();
    assert(d =~= r.map_values(|a: Achievement| a.id));
    assert forall|i: int| 0 <= i < r.len() implies d.contains(#[trigger] r[i].id) by {
        assert(d[i] == r[i].id);
    }
    assert forall|i: int| 0 <= i < d.len() implies exists|j: int|
        0 <= j < r.len() && r[j].id == #[trigger] d[i] by {
        assert(r[i].id == d[i]);
    }
}

/// The achievement for repelling the invasion in `mode`.
pub open spec fn clear_achievement(mode: ChaosMode) -> AchievementId {
    match mode {
        ChaosMode::Normal => AchievementId::ClearNormal,
        ChaosMode::Insane => AchievementId::ClearInsane,
        ChaosMode::Ridiculous => AchievementId::ClearRidiculous,
        ChaosMode::Insiculous => AchievementId::ClearInsiculous,
    }
}

/// The achievement for clearing `mode` without losing a life.
pub open spec fn perfect_achievement(mode: ChaosMode) -> AchievementId {
    match mode {
        ChaosMode::Normal => AchievementId::PerfectNormal,
        ChaosMode::Insane => AchievementId::PerfectInsane,
        ChaosMode::Ridiculous => AchievementId::PerfectRidiculous,
        ChaosMode::Insiculous => AchievementId::PerfectInsiculous,
    }
}

/// The id of the achievement for repelling the invasion in `mode`.
pub fn chaos_clear_id(mode: ChaosMode) -> (s: &'static str)
    ensures
        s@ == clear_achievement(mode).spec_id(),
{
    match mode {
        ChaosMode::Normal => CLEAR_NORMAL,
        ChaosMode::Insane => CLEAR_INSANE,
        ChaosMode::Ridiculous => CLEAR_RIDICULOUS,
        ChaosMode::Insiculous => CLEAR_INSICULOUS,
    }
}

/// The id of the achievement for clearing `mode` without losing a life.
pub fn chaos_perfect_id(mode: ChaosMode) -> (s: &'static str)
    ensures
        s@ == perfect_achievement(mode).spec_id(),
{
    match mode {
        ChaosMode::Normal => PERFECT_NORMAL,
        ChaosMode::Insane => PERFECT_INSANE,
        ChaosMode::Ridiculous => PERFECT_RIDICULOUS,
        ChaosMode::Insiculous => PERFECT_INSICULOUS,
    }
}

/// The saved ids of each chaos mode's clear and perfect achievements name
/// that mode: `clear_normal`, `perfect_normal`, and so on.
pub proof fn lemma_chaos_id_table()
    ensures
        clear_achievement(ChaosMode::Normal).spec_id() == "clear_normal"@,
        clear_achievement(ChaosMode::Insane).spec_id() == "clear_insane"@,
        clear_achievement(ChaosMode::Ridiculous).spec_id() == "clear_ridiculous"@,
        clear_achievement(ChaosMode::Insiculous).spec_id() == "clear_insiculous"@,
        perfect_achievement(ChaosMode::Normal).spec_id() == "perfect_normal"@,
        perfect_achievement(ChaosMode::Insane).spec_id() == "perfect_insane"@,
        perfect_achievement(ChaosMode::Ridiculous).spec_id() == "perfect_ridiculous"@,
        perfect_achievement(ChaosMode::Insiculous).spec_id() == "perfect_insiculous"@,
{
}

/// Each chaos mode has its own clear and its own perfect achievement, and no
/// clear id is also a perfect id.
pub proof fn lemma_chaos_ids_distinct(m1: ChaosMode, m2: ChaosMode)
    ensures
        m1 != m2 ==> clear_achievement(m1).spec_id() != clear_achievement(m2).spec_id(),
        m1 != m2 ==> perfect_achievement(m1).spec_id() != perfect_achievement(m2).spec_id(),
        clear_achievement(m1).spec_id() != perfect_achievement(m2).spec_id(),
{
    if m1 != m2 {
        lemma_ids_distinct(clear_achievement(m1), clear_achievement(m2));
        lemma_ids_distinct(perfect_achievement(m1), perfect_achievement(m2));
    }
    lemma_ids_distinct(clear_achievement(m1), perfect_achievement(m2));
}

/// The lives each cannon of the roster has left.
pub open spec fn roster_lives(players: Seq<PlayerView>) -> Seq<u32> {
    players.map_values(|p: PlayerView| p.lives)
}

/// Nobody lost a life.
pub open spec fn untouched(lives: Seq<u32>) -> bool {
    forall|i: int| 0 <= i < lives.len() ==> lives[i] == STARTING_LIVES
}

/// Some cannon is down to its very last life.
pub open spec fn on_last_life(lives: Seq<u32>) -> bool {
    exists|i: int| 0 <= i < lives.len() && lives[i] == 1
}

/// What repelling the invasion in `mode` unlocks, given the lives the
/// cannons have left: the mode's clear achievement; its perfect achievement
/// when nobody lost a life; Last Stand when a cannon is on its last life.
pub open spec fn win_unlocks(mode: ChaosMode, lives: Seq<u32>) -> Seq<AchievementId> {
    seq![clear_achievement(mode)]
        + (if untouched(lives) { seq![perfect_achievement(mode)] } else { Seq::empty() })
        + (if on_last_life(lives) { seq![AchievementId::LastStand] } else { Seq::empty() })
}

/// What a win unlocks, achievement by achievement: first, and always, the
/// clear achievement of the match's chaos mode and of no other mode; the
/// perfect achievement of that mode exactly when every cannon still has
/// all its lives, and of no other mode; Last Stand exactly when some
/// cannon is on its last life; nothing else, and nothing twice.
pub proof fn lemma_win_unlocks_laws(mode: ChaosMode, lives: Seq<u32>)
    ensures
        ({
            let u = win_unlocks(mode, lives);
            let full = forall|i: int| 0 <= i < lives.len() ==> lives[i] == STARTING_LIVES;
            let last = exists|i: int| 0 <= i < lives.len() && lives[i] == 1;
            &&& 1 <= u.len() <= 3
            &&& mode == ChaosMode::Normal ==> u[0] == AchievementId::ClearNormal
            &&& mode == ChaosMode::Insane ==> u[0] == AchievementId::ClearInsane
            &&& mode == ChaosMode::Ridiculous ==> u[0] == AchievementId::ClearRidiculous
            &&& mode == ChaosMode::Insiculous ==> u[0] == AchievementId::ClearInsiculous
            &&& u.contains(AchievementId::ClearNormal) <==> mode == ChaosMode::Normal
            &&& u.contains(AchievementId::ClearInsane) <==> mode == ChaosMode::Insane
            &&& u.contains(AchievementId::ClearRidiculous) <==> mode == ChaosMode::Ridiculous
            &&& u.contains(AchievementId::ClearInsiculous) <==> mode == ChaosMode::Insiculous
            &&& u.contains(AchievementId::PerfectNormal) <==> (mode == ChaosMode::Normal && full)
            &&& u.contains(AchievementId::PerfectInsane) <==> (mode == ChaosMode::Insane && full)
            &&& u.contains(AchievementId::PerfectRidiculous) <==> (mode == ChaosMode::Ridiculous && full)
            &&& u.contains(AchievementId::PerfectInsiculous) <==> (mode == ChaosMode::Insiculous && full)
            &&& u.contains(AchievementId::LastStand) <==> last
            &&& !u.contains(AchievementId::Sharpshooter)
            &&& !u.contains(AchievementId::UfoHunter)
            &&& u.no_duplicates()
            &&& unlock_effects(u).len() == u.len()
            &&& forall|k: int| 0 <= k < u.len() ==> #[trigger] unlock_effects(u)[k] == Effect::Unlock(u[k])
        }),
{
    let u = win_unlocks(mode, lives);
    let c = clear_achievement(mode);
    let p = perfect_achievement(mode);
    let t = if untouched(lives) { seq![p] } else { Seq::empty() };
    let l = if on_last_life(lives) { seq![AchievementId::LastStand] } else { Seq::<AchievementId>::empty() };
    assert(u =~= seq![c] + t + l);
    assert(u[0] == c);
    assert forall|a: AchievementId| #[trigger] u.contains(a) <==> (a == c || (untouched(lives) && a == p) || (on_last_life(
        lives,
    ) && a == AchievementId::LastStand)) by {
        if u.contains(a) {
            let k = choose|k: int| 0 <= k < u.len() && u[k] == a;
            if k >= 1 && k < 1 + t.len() {
                assert(u[k] == t[k - 1]);
            } else if k >= 1 + t.len() {
                assert(u[k] == l[k - 1 - t.len()]);
            }
        }
        if a == c {
            assert(u[0] == a);
        }
        if untouched(lives) && a == p {
            assert(u[1] == a);
        }
        if on_last_life(lives) && a == AchievementId::LastStand {
            assert(u[1 + t.len() as int] == a);
        }
    }
    assert forall|i: int, j: int| 0 <= i < u.len() && 0 <= j < u.len() && i != j implies u[i] != u[j] by {
        let ui = u[i];
        let uj = u[j];
        if i >= 1 && i < 1 + t.len() {
            assert(ui == t[i - 1]);
        } else if i >= 1 + t.len() {
            assert(ui == l[i - 1 - t.len()]);
        }
        if j >= 1 && j < 1 + t.len() {
            assert(uj == t[j - 1]);
        } else if j >= 1 + t.len() {
            assert(uj == l[j - 1 - t.len()]);
        }
    }
}

/// The effects that unlock `ids`, in order.
pub open spec fn unlock_effects(ids: Seq<AchievementId>) -> Seq<Effect> {
    ids.map_values(|a: AchievementId| Effect::Unlock(a))
}

impl SpaceInvadersGame {
    /// Called from the win path when the last invader falls. The sharpshooter
    /// and UFO hunter achievements unlock live, not here.
    pub fn unlock_win_achievements(&self, effects: &mut Vec<Effect>)
        ensures
            final(effects)@ == old(effects)@ + unlock_effects(
                win_unlocks(self.chaos_mode, roster_lives(self@.players)),
            ),
    {
        let ghost lives = roster_lives(self@.players);
        let ghost start = effects@;
        let clear = match self.chaos_mode {
            ChaosMode::Normal => AchievementId::ClearNormal,
            ChaosMode::Insane => AchievementId::ClearInsane,
            ChaosMode::Ridiculous => AchievementId::ClearRidiculous,
            ChaosMode::Insiculous => AchievementId::ClearInsiculous,
        };
        effects.push(Effect::Unlock(clear));

        let mut all_full = true;
        let mut last_life = false;
        let mut i: usize = 0;
        while i < self.players.len()
            invariant
                i <= self.players@.len(),
                lives == roster_lives(self@.players),
                all_full == (forall|j: int| 0 <= j < i ==> lives[j] == STARTING_LIVES),
                last_life == (exists|j: int| 0 <= j < i && lives[j] == 1),
            decreases self.players.len() - i,
        {
            assert(lives[i as int] == self.players@[i as int].lives);
            if self.players[i].lives != STARTING_LIVES {
                all_full = false;
            }
            if self.players[i].lives == 1 {
                last_life = true;
            }
            i = i + 1;
        }
        if all_full {
            let perfect = match self.chaos_mode {
                ChaosMode::Normal => AchievementId::PerfectNormal,
                ChaosMode::Insane => AchievementId::PerfectInsane,
                ChaosMode::Ridiculous => AchievementId::PerfectRidiculous,
                ChaosMode::Insiculous => AchievementId::PerfectInsiculous,
            };
            effects.push(Effect::Unlock(perfect));
        }
        if last_life {
            effects.push(Effect::Unlock(AchievementId::LastStand));
        }
        assert(effects@ =~= start + unlock_effects(win_unlocks(self.chaos_mode, lives)));
    }
}

} // verus!
