# oil_dig

A board game for programs: players walk a square field, gather oil from wells,
pick up bombs and drop them armed; an armed bomb goes off when another player
comes near, and its blast spreads for a few turns, burning wells and players.
Each player is an outside program that reads the state as text and answers
with an action.

- `src/` is the game, verified with Verus: the field (`gamemap`), the rules
  (`game_info`), the text the players read (`text`), the decoding of their
  answers (`player`), a seeded xorshift generator (`xor128`), and the random
  draws of the `rand` crate behind small trusted wrappers (`random`).
- `app/` is the window and the player processes: it draws the field with
  piston and runs the turns.
- `tests/` runs the library on concrete games.
