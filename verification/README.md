# rust_2048

A 2048 game's rules, move heuristic features, achievement tracker and input
handling, written in Verus with their contracts and proved.

- `src/ai.rs`: the 4x4 `Grid`, the four moves, whether the game can go on,
  the empty cells, the integer features of the heuristic (monotonicity,
  smoothness, corner bonus, largest tile), and laws of the moves (tile sum
  kept, no tile added, a stuck board stays as it is, lines end up packed,
  Up and Down act on columns as Left and Right act on rows).
- `src/achievements.rs`: the twelve achievements, the tracker of unlocked
  and pending ones, and its saved text (one achievement number per line),
  with the law that the saved text reads back to the same set. The unlocked
  achievements are kept as twelve flags indexed by the achievement's number
  rather than in a `HashSet` of achievements: a hash set keyed by an enum of
  the crate gives Verus nothing it can reason about, so that form was not
  tried.
- `src/game.rs`: the screens and dialogs of the game as a state machine from
  key and mouse presses to the command for the board, and the achievement
  check of a frame update.
- `app/`: what stays outside the verified library:
  - `app/ai.rs`: the move heuristic and the expectimax search, which work in
    floating point;
  - `app/storage.rs`: the file `achievements.txt` that keeps the unlocked
    achievements;
  - `app/game.rs`: where a mouse press lands, the background colour for a
    score, and what a frame update decides (achievement check, AI timer).

The window, the board (its animation, undo history and the AI move that
drives it), the number rendering and the settings of the game are not part
of this crate, so nothing here runs the event loop or performs the AI move
on a board.
