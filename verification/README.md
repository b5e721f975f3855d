# nertsio

The rules of Nerts (a multiplayer solitaire race) and the decisions that the
game server, the matchmaking coordinator and the game client make around
them, written in Verus with their contracts proved.

- `src/` is the verified library: cards and stacks, player areas and the
  shared lake, the hand and how actions apply to it, scoring, practice
  deals, the bot's and the practice feeder's choices, the server's and the
  client's bookkeeping, and the laws that hold across them (`laws.rs` and
  the `lemma_*` proof functions of the other modules).
- `tests/` runs the library on concrete games.
- `app/` is the command-line program around it: wire encoding, files,
  network status reports and screen layout, which use floating point.
