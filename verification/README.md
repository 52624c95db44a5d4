# othello

Othello (Reversi) on bitboards, with game-playing agents, verified with Verus.

- `src/bits.rs` — bitboards as sets of squares (`has_sq`, `set_mask`, `popcount`) and the bit lemmas.
- `src/othello/` — the rules: `play.rs` (moves and their notation), `rules.rs` (captures, legal
  placements), `mod.rs` (`Game`: new game, moves, making a move, outcome), `laws.rs` (properties
  across operations: valid moves, piece counts, termination, the opening position).
- `src/agents/` — the `Agent` trait and matches (`mod.rs`), minimax with alpha-beta pruning
  (`minimax.rs`), a random agent (`random.rs`) and the Monte Carlo search tree (`mcts.rs`).
- `src/rng.rs` — the calls into `rand`.
- `app/main.rs` — the command-line program: MCTS against MCTS. The UCT selection step, which
  computes in floating point, both search loops (by time budget and by iteration budget, each
  built on `iterate_from` and on the stop rules `search_continues` / `iterations_continue`),
  and `MctsAgent` live there.
