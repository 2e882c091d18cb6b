# Huginn

Huginn is a rules engine for 11x11 Copenhagen hnefatafl and its optional
multiverse extension, in which moves travel backward in time and branch new
timelines. The library is written in Verus: every function carries a
contract, and the verifier proves each one, except two trusted wrappers
around the standard library whose contracts are assumed: `push_char`
(`String::push`) in `src/model.rs` and `is_white_space`
(`char::is_whitespace`) in `src/accounts.rs`.

## Layout

- `src/model.rs`: sides, pieces, squares, coordinates, boards, timelines.
- `src/rules.rs`: the mathematical model of a position (active timelines,
  the Present, playable boards) and move validation.
- `src/state.rs`, `src/moves.rs`: the executable position and its checks.
- `src/branch.rs`, `src/apply.rs`, `src/capture.rs`: successor boards,
  branching timelines and captures on every axis.
- `src/outcome.rs`: corner escape, exit forts, encirclement and blocked
  defenders; `src/history.rs`: the defender's repetition rule.
- `src/legal.rs`, `src/turn.rs`, `src/game.rs`: legal moves, whole moves,
  staging, undo and turn submission.
- `src/balance.rs`, `src/guarantees.rs`: properties that span operations.
- `src/player.rs`, `src/raven.rs`: the AI boundary and a baseline bot.
- `src/session.rs`: the interactive session behind the terminal interface.
- `src/accounts.rs`, `src/training.rs`, `src/network.rs`, `src/flat.rs`:
  request validation, training schedules, the replay window, the most
  visited search action, and network shapes.
- `app/`: the command-line program (a text interface and a JSON engine
  mode); `tests/`: the test suite.
