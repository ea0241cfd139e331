# push_swap, verified

Sorting a stack of distinct integers with a second stack and eleven
operations (`sa sb ss pa pb ra rb rr rra rrb rrr`), with the operation
sequence proved to sort its input.

## Layout

- `src/machine.rs` — the two-stack machine: operations, `step`, `run`,
  `sorts`, and laws (swaps and rotations undo each other, operations keep
  the contents, renaming commutes with running).
- `src/ranking.rs`, `src/radix.rs` — ranks of distinct values and the bit
  arithmetic of radix sorting.
- `src/tokens.rs`, `src/text.rs` — integer tokens, splitting text into words,
  and the two standard-library calls used on command-line text
  (`str::split_whitespace`, `str::parse::<i32>`), each behind a small trusted
  wrapper whose contract states what its documentation promises.
- Six sorting strategies, each with its own reading of the arguments.
  For `logged_chunks`, `cheapest_chunks`, `rank_radix`, `indexed_radix` and
  `sorted_chunks` the top-level function's contract is that the operations
  it returns sort any distinct input and are empty for sorted input; the
  small sorts also bound their operations (at most 12 for five values), and
  the radix sorts use only `pb`, `ra`, `pa`, at most `2·k·n` of them for any
  `k` with `n <= 2^k`. For `range_chunks`, `push_swap` sorts distinct input
  of up to five values, and more when every value but the largest lies in
  one of the ranges it is given.
- `tests/` — the operations replayed on concrete inputs, argument reading,
  and helper functions.
- `app/main.rs` — the program: reads argv, picks a strategy
  (`PUSH_SWAP_STRATEGY`), prints the operations or `Error`. The value ranges
  of `range_chunks`, computed with floating point, are made here.
