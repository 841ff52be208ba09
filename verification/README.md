# ember_games

The rules of a small collection of arcade and puzzle games, written in Verus
and proved against their specifications.

- `src/freecell` — cards, the 52-card deck and its Fisher-Yates deal, move
  legality (columns, free cells, foundations, super-moves), undo/redo,
  hints and the drag state machine. Proved: hints are legal moves, undo and
  redo invert each other, legal moves and the deal keep exactly the 52 cards.
- `src/minesweeper` — the board, mine placement around a safe first click,
  adjacency counts, flagging, the flood-fill reveal, chording and the win
  check, and the session's click handling. Proved: the first click's block
  never gets a mine, counts match the mines, a flood never uncovers a mine,
  the flood uncovers exactly the cells some flood path reaches.
- `src/memory` — the paired deck, the selection phases (first pick,
  mismatch, match), and the win. Proved: every deck holds each symbol twice,
  the selection always agrees with the face-up cards, and matched cards are
  twice the pairs found.
- `src/ember_wars` — teams, unit ids, shot kinds, spawn limits, scenery
  hashing, star progress and level unlocking, the upgrade tree (its check,
  the bought nodes, what they unlock), the enemy's spawn order, the end of
  a battle, the skyline heights, and the upgrade screen's keyboard moves
  and captions.
  Proved: validation accepts a tree exactly when ids are unique, every
  requirement names a node, one node is the root and every node can be
  unlocked; buying never locks a node; the enemy only tries kinds its wave
  lists.
- `src/pong`, `src/bullet_hell` — scoring, lives and wave progression.
- `src/shuffle.rs`, `src/rng.rs` — the shared Fisher-Yates shuffle driven by
  drawn indices, and the xorshift32 step.

Random draws enter the library as plain values (indices or cell positions),
so every function is deterministic and specified for every draw sequence.

`app/` holds what the library leaves to its host, all of it on floating
point: clocks, layout and pointer hit tests, mana, the Bullet Hell and Pong
physics, Ember Wars combat, turret and camera, random values in `[0, 1)`,
records as stored on disk, and messages. It calls the library for every
rule: lives and waves, scores, spawn limits and order, the upgrade tree,
moves and drags.
