# Insiculous Invaders: the verified rules

A Space-Invaders-style arcade game whose discrete rules are proved with
Verus. Rendering, physics, input and all floating-point geometry run on the
game engine; everything the game decides about entities, scores, lives,
achievements and screens is in the verified library.

- `src/types.rs`: the session state (`SpaceInvadersGame`), its mathematical
  view (`GameView`), game and chaos modes, the roster of cannons.
- `src/gameplay/`: hit resolution (`combat`), the cannons (`players`), the
  mystery ship (`ufo`), barrier chewing (`formation`) and the match
  lifecycle (`flow`). Each step is stated as a spec function from the old
  view to the new view plus the list of effects for the engine to apply.
- `src/gameplay/ids.rs`: entity ids stay distinct: every step only lets
  ids go, spawning brings in only fresh ones, and a new match starts from
  distinct bodies.
- `src/achievements.rs`, `src/menu.rs`, `src/spawning.rs`, `src/hud.rs`:
  achievement ids and unlock rules, menu screens, the formation and its
  point values, HUD texts.
- `tests/`: executable checks of the library on concrete matches.
- `app/`: the engine side: spawning bodies, moving them, collision events,
  drawing, and the per-frame loop that feeds the library.
