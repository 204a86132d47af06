# spire

Players for a deck-building climb, and what is needed to measure and tune them.

The combat engine is not part of this library. An engine shows a game as plain values
(`game::Game`, with the steps on offer), and carries out the step that a player picks. What the
players do is verified:

- `greedy`: the player that looks at the current turn only.
- `lookahead`, `search`, `tree`: the players that look ahead, by trials of every step or by a
  search over one shared tree. They say what to try on a fork of the game and take in what came
  of it.
- `full_run`, `route`, `weights`: the player for a whole climb, with the choices outside a fight.
- `playout`, `climb`, `value`: when a fight or a climb is over, and what it was worth.
- `stats`, `tune`, `scenarios`, `trace`: measuring, ranking and following players.
- `fuzz`: random play, and the promises that an engine must keep.
- `blessings`, `state`, `step`: the opening blessings, the stack of states and the steps.
- `cards`, `game`, `map`, `moves`, `fork`, `pick`, `score`, `text`, `rng`: what the rest is made of.

Scores are generic (`score::Score`), so that the same rules serve fixed-point numbers and
floating-point numbers.

`app/` holds the loops that run the players on an engine, the floating-point arithmetic, and the
reports. `tests/` runs the library, with a toy engine where one is needed.
