# chess

Chess move generation on a geometric board (file 0-7 = a-h, rank 0-7 = 1-8), with
castling, en passant, promotion, check, checkmate and stalemate, written in Verus.

- `src/types.rs`: colors, pieces, squares, moves, and their algebraic / UCI names.
- `src/rules.rs`: the mathematical model of a position (`Position`) and the rules over it:
  making a move, attacks, check, move generation, legal moves, checkmate and stalemate.
- `src/board.rs`: the `Board` type, its starting position, square access and `apply_move`.
- `src/attack.rs`: attacked squares, finding the king, check.
- `src/movegen.rs`: the moves of each piece and the legal moves.
- `src/fen.rs`: reading a position in FEN.
- `src/generated.rs`, `src/distinct.rs`: what every generated move looks like, and that
  no move is generated twice.
- `src/consistency.rs`: what a move does to each square; why legal moves keep a
  consistent position consistent.
- `src/laws.rs`: properties of the library as a whole.
- `app/main.rs`: the `chess-moves` program: reads FEN strings, prints the legal moves in
  UCI, in alphabetical order (`sort_moves`).
