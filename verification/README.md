# Athene-noctua, verified

A bitboard chess engine whose library is written in Verus: every function in
`src/` carries a contract that Verus proves.

## Layout

- `src/board/` — squares and pieces (`types`), bitboards and shifts
  (`bitboard`), the 16-bit move encoding (`moves`), Zobrist keys (`zobrist`),
  attack sets computed by rays and leaps (`attacks`), the position with
  make/unmake and null moves (`position`), FEN reading and writing (`fen`),
  the proof that writing a position and reading it back gives it again
  (`fen_roundtrip`), and the consistency check of the redundant board data
  (`validate`).
- `src/movegen.rs` — legal move generation (pins, check mask, en passant,
  castling), specified as a sequence of moves over the abstract position;
  `movegen/distinct.rs` proves that no move is listed twice, and
  `movegen/sound.rs` that every listed move can be made and taken back
  on a position whose castling rights, en-passant square and clocks agree
  with the board.
- `src/eval.rs` — tapered evaluation (material, piece-square tables, pawn
  structure, mobility, threats, outposts, rooks, king safety, bishops),
  specified by `eval_spec`.
- `src/tt.rs` — the transposition table, with the law that a probe after a
  store finds the stored entry.
- `src/search.rs` (`search/see.rs`, `search/order.rs`) — static exchange
  evaluation, move ordering, principal variation search with quiescence,
  null-move pruning, probcut, multi-cut, singular extensions, late-move
  reductions and aspiration windows, and the bookkeeping of iterative
  deepening.
- `src/uci.rs` — perft, move-type counts, and the reading of UCI moves and
  of the arguments of `go` and `position`.
- `src/crosscheck.rs` — self-checks of the move generator: a brute-force
  legal move count, a perft that compares both counts at every node,
  perft split by first move, a scan for impossible moves, and the shape
  of the pawn generator's moves.
- `app/` — the program: the UCI loop, the iterative-deepening driver that
  prints `info` lines, the command-line tools (`perft`, `divide`, `bench`,
  `verify`, `movetype`, `crosscheck`, `validate_perft`, `tune`), and the
  floating-point parts (the reduction table, the tuning error).
- `tests/` — perft counts of the standard positions, FEN, moves, search,
  transposition table, time management and the UCI text.
