# robodoan

A verified library for the 3x3x3x3 (4D Rubik's cube): its rotation group,
twists, piece states, the algorithm table, and the last-cell solver that
strings its algorithms together once blockbuilding has finished F2L.

Everything under `src/` is checked by Verus.

- `elements`, `algebra`, `group`, `grips`, `space`: the 192 rotations of the
  hypercube as numbered elements, with the group laws (associativity,
  identity, inverses) and their action on grips and vectors proved.
- `locations`, `puzzle_state`, `twist`, `symmetry`: the 72 movable pieces, the
  state as one attitude per location, twisting, reorienting the whole puzzle,
  and the laws that tie them together (a twist and its inverse cancel,
  reorienting keeps solvedness, homes stay distinct, the F2L key is the solved
  key exactly when F2L is intact).
- `lastcell`, `replay`: the last cell as 26 attitudes, the effect of an
  algorithm as a lookup table, and the proof that applying a recorded effect
  agrees with replaying the algorithm's twists.
- `algs`: the meet-in-the-middle search for F2L-preserving algorithms. The
  halves of a pass are grouped exactly by the hash of their F2L keys; the
  table covers every pairing of two of the `max_bucket` shortest halves of
  each group, holds only rotations of such pairings, keeps the cheapest
  algorithm for each effect, and is closed under the rotations that fix the
  last cell; two halves with the same F2L key are proved to restore F2L
  when paired.
- `search`: the last-cell solver. A backward table of finishes, keyed by
  which grip each piece shows its last-cell sticker on, is proved to orient
  every cell stored under a key; iterative deepening and a beam search over
  whole algorithms build on it, and the solution is proved to be what its
  steps make of the last cell, carried back into the puzzle's frame.
- `tables`: the same piece operations computed directly or looked up in
  tables built once, behind one trait, so that long searches stay fast.
- `stackvec`, `blockbuilding`, `heuristic`: a fixed-capacity vector, the
  packed layer masks and their hashes, and the combinatoric pruning limit.

The tests under `tests/` run the compiled library on concrete cases.
