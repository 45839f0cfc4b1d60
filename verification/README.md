# chess

A small chess engine whose logic is verified with Verus.

- `src/lib.rs`: colours, files, ranks, squares, units, the board and the game state,
  with the starting position.
- `src/moves.rs`: rays, pseudo-legal move generation, playing and taking back moves,
  the legality check and the list of legal moves; the laws that tie them together
  (taking back a move restores the board; checking the legal moves leaves the board as it was).
- `src/moves/commands.rs`: reading typed move commands such as `Nbd2`, `exd6`, `e8=Q`, `o-o`.
- `src/analysis.rs`: scoring a board and choosing a move, at random or among the best-scoring ones.
- `src/utilities.rs`: a fixed-capacity vector.
- `app/`: the terminal game (input, output, the game loop).
- `tests/`: tests of the library on concrete positions.
