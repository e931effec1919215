# dominion

A rules engine and heuristic players for Dominion (Base set, 2nd edition),
with the game logic written in Verus and proved against its contracts.

## Layout

| Path | What it is |
|---|---|
| `src/card.rs`, `src/state.rs` | Cards, moves, decisions, player and game state |
| `src/engine.rs`, `src/effects.rs`, `src/census.rs` | The engine: setup, the continuation stack, card effects, and card conservation |
| `src/rng.rs`, `src/determinize.rs` | The seeded generator, shuffles, and sampling hidden order |
| `src/log.rs`, `src/roundtrip.rs`, `src/text.rs` | Game logs in text form, and the law that they read back |
| `src/policy.rs`, `src/buy.rs`, `src/agent.rs` | The shared heuristic, buy menus, and the agent interface |
| `src/match_runner.rs`, `src/prior.rs`, `src/mcts.rs`, `src/selfplay.rs` | Kingdom choice for matches, move restriction, and search-side rules |
| `src/compact.rs` | The compact self-play file: layout, reader, replay check |
| `src/advise.rs`, `src/describe.rs` | Advice on a logged position; error texts |
| `src/play.rs`, `src/web.rs`, `src/session.rs` | What the terminal and the browser show, and a browser game with undo |
| `tests/` | Scenarios on concrete values |
| `app/` | The command-line program: ladder, a game against the search, advice, compact files |

The search (`app/search.rs`), the prior's weights and everything reported as a
win rate work in floating point and live in `app/`.

## Commands

```sh
dominion ladder [pairs]
dominion play [--seed n] [--first] [--worlds n] [--iterations n] [--log path]
dominion advise <log> [--ply n]
dominion compact <file>
```
