# inundiato

A Battlesnake engine whose logic is verified with Verus.

- `src/types.rs`: coordinates, directions, the search state, turn play
  (`make_move`, `unmake_move`, the position hash) and the alpha-beta search
  with iterative deepening.
- `src/rules.rs`: the rules of a turn as spec functions.
- `src/search.rs`: the minimax value, joint move generation and move ordering
  as spec functions, with their lemmas.
- `src/small.rs`: snakes and boards, legal moves.
- `src/engine.rs`: the static evaluation and the flood fill.
- `src/cartprod.rs`, `src/move_lists.rs`: cartesian products of move lists
  held in `tinyvec` arrays.
- `src/move_table.rs`: the move-ordering table.
- `src/safety.rs`: a condition on positions under which every evaluation the
  search makes can run, kept by every turn (checked by `types::is_sane`).
- `src/train.rs`: self-play training of the evaluation weights.
- `app/main.rs`: a small demo program.
