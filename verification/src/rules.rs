//! The rules of the game, stated over a mathematical model of a position.
//!
//! `Position` is what a `Board` holds; the functions here say what every
//! executable function of the library computes.
use vstd::prelude::*;
use crate::types::{Color, Piece, Sq, Move, offset};

verus! {

/// What a square holds: nothing, or a piece of some color.
pub type Cell = Option<(Color, Piece)>;

/// A position: the 64 cells in rank-major order (a1 = 0, ..., h8 = 63), the side
/// to move, the castling rights `[white kingside, white queenside, black kingside,
/// black queenside]`, and the en passant target square.
#[verifier::ext_equal]
pub struct Position {
    pub cells: Seq<Cell>,
    pub turn: Color,
    pub castling: Seq<bool>,
    pub en_passant: Option<Sq>,
}

impl Position {
    pub open spec fn wf(self) -> bool {
        self.cells.len() == 64 && self.castling.len() == 4
    }

    /// What the square `s` holds.
    pub open spec fn at(self, s: Sq) -> Cell {
        self.cells[s.index()]
    }

    /// The position with square `s` set to `v`.
    pub open spec fn put(self, s: Sq, v: Cell) -> Position {
        Position { cells: self.cells.update(s.index(), v), ..self }
    }

    /// The position with castling right `i` removed.
    pub open spec fn revoke(self, i: int) -> Position {
        Position { castling: self.castling.update(i, false), ..self }
    }
}

/// The square with index `k` in rank-major order.
pub open spec fn sq_at(k: int) -> Sq {
    Sq { file: (k % 8) as u8, rank: (k / 8) as u8 }
}

/// Direction in which pawns of color `c` advance.
pub open spec fn pawn_dir(c: Color) -> int {
    match c {
        Color::White => 1,
        Color::Black => -1,
    }
}

/// Rank on which the pieces of `c` start.
pub open spec fn home_rank(c: Color) -> u8 {
    match c {
        Color::White => 0,
        Color::Black => 7,
    }
}

/// Rank on which the pawns of `c` start.
pub open spec fn pawn_rank(c: Color) -> u8 {
    match c {
        Color::White => 1,
        Color::Black => 6,
    }
}

/// Rank on which the pawns of `c` promote.
pub open spec fn promotion_rank(c: Color) -> u8 {
    match c {
        Color::White => 7,
        Color::Black => 0,
    }
}

/// Index of the kingside castling right of `c`.
pub open spec fn kingside(c: Color) -> int {
    match c {
        Color::White => 0,
        Color::Black => 2,
    }
}

/// Index of the queenside castling right of `c`.
pub open spec fn queenside(c: Color) -> int {
    match c {
        Color::White => 1,
        Color::Black => 3,
    }
}

// ---------------------------------------------------------------------------
// Making a move

/// `apply` is defined on `mv` without leaving the board: both squares are on it,
/// and so is the square of a pawn taken en passant.
pub open spec fn apply_ok(p: Position, mv: Move) -> bool {
    &&& mv.from.on_board()
    &&& mv.to.on_board()
    &&& match p.at(mv.from) {
        Some((c, Piece::Pawn)) => (mv.from.file != mv.to.file && p.at(mv.to) is None) ==> 0
            <= mv.to.rank - pawn_dir(c) < 8,
        _ => true,
    }
}

/// The piece that lands on the target square: the promotion piece, if any, else the mover.
pub open spec fn landing(mover: Cell, color: Color, promotion: Option<Piece>) -> Cell {
    match promotion {
        Some(pc) => Some((color, pc)),
        None => mover,
    }
}

/// The pieces of the board after `mv`, before castling rights for captured rooks
/// and the turn are updated.
pub open spec fn moved(p: Position, mv: Move) -> Position {
    let mover = p.at(mv.from);
    let q = Position { en_passant: None, ..p };
    match mover {
        Some((color, Piece::Pawn)) => {
            let dir = pawn_dir(color);
            // a diagonal move onto an empty square takes en passant
            let q1 = if mv.from.file != mv.to.file && p.at(mv.to) is None {
                q.put(Sq { file: mv.to.file, rank: (mv.to.rank - dir) as u8 }, None)
            } else {
                q
            };
            // a double push records the square passed over
            let q2 = if mv.to.rank - mv.from.rank == 2 || mv.from.rank - mv.to.rank == 2 {
                Position {
                    en_passant: Some(Sq { file: mv.from.file, rank: (mv.from.rank + dir) as u8 }),
                    ..q1
                }
            } else {
                q1
            };
            q2.put(mv.from, None).put(mv.to, landing(mover, color, mv.promotion))
        },
        Some((color, Piece::King)) => {
            let r = home_rank(color);
            let q1 = if mv.from == (Sq { file: 4, rank: r }) {
                if mv.to == (Sq { file: 6, rank: r }) {
                    q.put(Sq { file: 7, rank: r }, None).put(
                        Sq { file: 5, rank: r },
                        Some((color, Piece::Rook)),
                    )
                } else if mv.to == (Sq { file: 2, rank: r }) {
                    q.put(Sq { file: 0, rank: r }, None).put(
                        Sq { file: 3, rank: r },
                        Some((color, Piece::Rook)),
                    )
                } else {
                    q
                }
            } else {
                q
            };
            let q2 = q1.revoke(kingside(color)).revoke(queenside(color));
            q2.put(mv.from, None).put(mv.to, mover)
        },
        Some((color, Piece::Rook)) => {
            let r = home_rank(color);
            let q1 = if mv.from == (Sq { file: 7, rank: r }) {
                q.revoke(kingside(color))
            } else {
                q
            };
            let q2 = if mv.from == (Sq { file: 0, rank: r }) {
                q1.revoke(queenside(color))
            } else {
                q1
            };
            q2.put(mv.from, None).put(mv.to, mover)
        },
        _ => q.put(mv.from, None).put(mv.to, mover),
    }
}

/// A move onto a rook's starting square removes the castling right of that rook.
pub open spec fn revoke_captured(q: Position, to: Sq) -> Position {
    let q0 = if to == (Sq { file: 7, rank: 0 }) { q.revoke(0) } else { q };
    let q1 = if to == (Sq { file: 0, rank: 0 }) { q0.revoke(1) } else { q0 };
    let q2 = if to == (Sq { file: 7, rank: 7 }) { q1.revoke(2) } else { q1 };
    if to == (Sq { file: 0, rank: 7 }) { q2.revoke(3) } else { q2 }
}

/// The position after `mv`.
pub open spec fn apply(p: Position, mv: Move) -> Position {
    let q = revoke_captured(moved(p, mv), mv.to);
    Position { turn: q.turn.flip(), ..q }
}

// ---------------------------------------------------------------------------
// Attacks and check

pub open spec fn knight_deltas() -> Seq<(int, int)> {
    seq![(-2, -1), (-2, 1), (-1, -2), (-1, 2), (1, -2), (1, 2), (2, -1), (2, 1)]
}

pub open spec fn king_deltas() -> Seq<(int, int)> {
    seq![(-1, -1), (-1, 0), (-1, 1), (0, -1), (0, 1), (1, -1), (1, 0), (1, 1)]
}

pub open spec fn straight_dirs() -> Seq<(int, int)> {
    seq![(1, 0), (-1, 0), (0, 1), (0, -1)]
}

pub open spec fn diagonal_dirs() -> Seq<(int, int)> {
    seq![(1, 1), (1, -1), (-1, 1), (-1, -1)]
}

/// A step of one square in one of the eight directions.
pub open spec fn is_dir(df: int, dr: int) -> bool {
    -1 <= df <= 1 && -1 <= dr <= 1 && !(df == 0 && dr == 0)
}

/// A step that moves: each coordinate changes by at most 120, and not both by 0.
pub open spec fn is_step(df: int, dr: int) -> bool {
    -120 <= df <= 120 && -120 <= dr <= 120 && !(df == 0 && dr == 0)
}

/// How many steps of `d` the coordinate `v` can still take on the board.
pub open spec fn room(v: int, d: int) -> int {
    if d > 0 {
        7 - v
    } else if d < 0 {
        v
    } else {
        7
    }
}

/// How many steps of `(df, dr)` remain on the board from `s`.
pub open spec fn steps_left(s: Sq, df: int, dr: int) -> int {
    let a = room(s.file as int, df);
    let b = room(s.rank as int, dr);
    if a < b {
        a
    } else {
        b
    }
}

/// The square `s`, if it exists, holds the piece `(c, pc)`.
pub open spec fn holds(p: Position, s: Option<Sq>, c: Color, pc: Piece) -> bool {
    match s {
        Some(t) => p.at(t) == Some((c, pc)),
        None => false,
    }
}

/// Some step of `deltas` from `sq` reaches a piece `(by, pc)`.
pub open spec fn leaper_hit(p: Position, sq: Sq, by: Color, pc: Piece, deltas: Seq<(int, int)>) -> bool {
    exists|i: int|
        0 <= i < deltas.len() && #[trigger] holds(p, offset(sq, deltas[i].0, deltas[i].1), by, pc)
}

/// Walking from `cur` in direction `(df, dr)`, the first piece met belongs to `by`
/// and moves along that line (queen, or bishop on a diagonal, rook on a straight).
pub open spec fn slider_hit(p: Position, cur: Sq, df: int, dr: int, by: Color, diagonal: bool) -> bool
    decreases steps_left(cur, df, dr),
    when is_step(df, dr) && cur.on_board()
{
    match offset(cur, df, dr) {
        None => false,
        Some(ns) => match p.at(ns) {
            None => slider_hit(p, ns, df, dr, by, diagonal),
            Some((c, pc)) => c == by && (pc == Piece::Queen || pc == (if diagonal {
                Piece::Bishop
            } else {
                Piece::Rook
            })),
        },
    }
}

/// Some line of `dirs` from `sq` is hit by a slider of `by`.
pub open spec fn slider_attack(p: Position, sq: Sq, by: Color, dirs: Seq<(int, int)>, diagonal: bool) -> bool {
    exists|i: int| 0 <= i < dirs.len() && #[trigger] slider_hit(p, sq, dirs[i].0, dirs[i].1, by, diagonal)
}

/// A pawn of `by` stands diagonally behind `sq`, as seen from `by`'s direction of travel.
pub open spec fn pawn_attack(p: Position, sq: Sq, by: Color) -> bool {
    holds(p, offset(sq, -1, -pawn_dir(by)), by, Piece::Pawn)
        || holds(p, offset(sq, 1, -pawn_dir(by)), by, Piece::Pawn)
}

/// The square `sq` is attacked by a piece of `by`.
pub open spec fn attacked(p: Position, sq: Sq, by: Color) -> bool {
    ||| leaper_hit(p, sq, by, Piece::Knight, knight_deltas())
    ||| leaper_hit(p, sq, by, Piece::King, king_deltas())
    ||| slider_attack(p, sq, by, straight_dirs(), false)
    ||| slider_attack(p, sq, by, diagonal_dirs(), true)
    ||| pawn_attack(p, sq, by)
}

/// The first square from index `k` on that holds the king of `c`.
pub open spec fn king_search(p: Position, c: Color, k: int) -> Option<Sq>
    decreases 64 - k,
{
    if k < 0 || k >= 64 {
        None
    } else if p.cells[k] == Some((c, Piece::King)) {
        Some(sq_at(k))
    } else {
        king_search(p, c, k + 1)
    }
}

/// The king of `c`: the first one in rank-major order, if there is one.
pub open spec fn find_king(p: Position, c: Color) -> Option<Sq> {
    king_search(p, c, 0)
}

/// The king of `c` is attacked; a side without a king is never in check.
pub open spec fn in_check(p: Position, c: Color) -> bool {
    match find_king(p, c) {
        Some(s) => attacked(p, s, c.flip()),
        None => false,
    }
}


// ---------------------------------------------------------------------------
// Move generation

/// A move without promotion.
pub open spec fn quiet(from: Sq, to: Sq) -> Move {
    Move { from, to, promotion: None }
}

/// A piece of `color` may move onto `to`: it is empty or holds an enemy piece.
pub open spec fn enterable(p: Position, to: Sq, color: Color) -> bool {
    match p.at(to) {
        None => true,
        Some((c, _)) => c != color,
    }
}

/// The moves of a piece of `color` on `sq` that jumps by one of `deltas`, in their order.
pub open spec fn leaper_moves(p: Position, sq: Sq, color: Color, deltas: Seq<(int, int)>) -> Seq<Move>
    decreases deltas.len(),
{
    if deltas.len() == 0 {
        Seq::empty()
    } else {
        let prev = leaper_moves(p, sq, color, deltas.drop_last());
        let d = deltas.last();
        match offset(sq, d.0, d.1) {
            Some(to) => if enterable(p, to, color) {
                prev.push(quiet(sq, to))
            } else {
                prev
            },
            None => prev,
        }
    }
}

/// The moves of a slider of `color` from `from` along `(df, dr)`, continuing past `cur`:
/// each empty square, then the first occupied one if it holds an enemy.
pub open spec fn ray_moves(p: Position, from: Sq, color: Color, cur: Sq, df: int, dr: int) -> Seq<Move>
    decreases steps_left(cur, df, dr),
    when is_step(df, dr) && cur.on_board()
{
    match offset(cur, df, dr) {
        None => Seq::empty(),
        Some(ns) => match p.at(ns) {
            None => seq![quiet(from, ns)] + ray_moves(p, from, color, ns, df, dr),
            Some((c, _)) => if c != color {
                seq![quiet(from, ns)]
            } else {
                Seq::empty()
            },
        },
    }
}

/// The moves of a slider of `color` on `sq` along each of `dirs` in turn.
pub open spec fn slider_moves(p: Position, sq: Sq, color: Color, dirs: Seq<(int, int)>) -> Seq<Move>
    decreases dirs.len(),
{
    if dirs.len() == 0 {
        Seq::empty()
    } else {
        let d = dirs.last();
        slider_moves(p, sq, color, dirs.drop_last()) + ray_moves(p, sq, color, sq, d.0, d.1)
    }
}

/// A pawn move onto the last rank, once for each promotion piece.
pub open spec fn promotions(from: Sq, to: Sq) -> Seq<Move> {
    seq![
        Move { from, to, promotion: Some(Piece::Queen) },
        Move { from, to, promotion: Some(Piece::Rook) },
        Move { from, to, promotion: Some(Piece::Bishop) },
        Move { from, to, promotion: Some(Piece::Knight) },
    ]
}

/// A pawn move onto `to`, promoting on the last rank.
pub open spec fn pawn_move(from: Sq, to: Sq, color: Color) -> Seq<Move> {
    if to.rank == promotion_rank(color) {
        promotions(from, to)
    } else {
        seq![quiet(from, to)]
    }
}

/// The pushes of a pawn of `color` on `sq`: one square forward onto an empty square,
/// and two from its starting rank when both squares are empty.
pub open spec fn pawn_pushes(p: Position, sq: Sq, color: Color) -> Seq<Move> {
    let dir = pawn_dir(color);
    match offset(sq, 0, dir) {
        Some(to) => if p.at(to) is None {
            if to.rank == promotion_rank(color) {
                promotions(sq, to)
            } else {
                let double = if sq.rank == pawn_rank(color) {
                    match offset(sq, 0, 2 * dir) {
                        Some(to2) => if p.at(to2) is None {
                            seq![quiet(sq, to2)]
                        } else {
                            Seq::empty()
                        },
                        None => Seq::empty(),
                    }
                } else {
                    Seq::empty()
                };
                seq![quiet(sq, to)] + double
            }
        } else {
            Seq::empty()
        },
        None => Seq::empty(),
    }
}

/// The capture of a pawn of `color` on `sq` toward file offset `df`: onto an enemy
/// piece, or onto the empty en passant square when an enemy pawn stands beside `sq` on
/// that file.
pub open spec fn pawn_capture(p: Position, sq: Sq, color: Color, df: int) -> Seq<Move> {
    match offset(sq, df, pawn_dir(color)) {
        Some(to) => {
            let occupied_by_enemy = match p.at(to) {
                Some((c, _)) => c != color,
                None => false,
            };
            // en passant: onto the empty en passant square, past an enemy pawn beside `sq`
            let is_ep = p.en_passant == Some(to) && p.at(to) is None && p.at(
                Sq { file: to.file, rank: sq.rank },
            ) == Some((color.flip(), Piece::Pawn));
            if occupied_by_enemy || is_ep {
                pawn_move(sq, to, color)
            } else {
                Seq::empty()
            }
        },
        None => Seq::empty(),
    }
}

/// The moves of a pawn of `color` on `sq`.
pub open spec fn pawn_moves(p: Position, sq: Sq, color: Color) -> Seq<Move> {
    pawn_pushes(p, sq, color) + pawn_capture(p, sq, color, -1) + pawn_capture(p, sq, color, 1)
}

/// The square on the home rank of `c` at file `f`.
pub open spec fn home_sq(c: Color, f: u8) -> Sq {
    Sq { file: f, rank: home_rank(c) }
}

/// Castling moves of a king of `color` on `sq`: the king stands on its starting square
/// and is not in check; the right has not been lost; the rook of that side stands on its
/// corner; the squares between king and rook are empty; and the squares the king passes
/// and lands on are not attacked.
pub open spec fn castle_moves(p: Position, sq: Sq, color: Color) -> Seq<Move> {
    let enemy = color.flip();
    if sq != home_sq(color, 4) || in_check(p, color) {
        Seq::empty()
    } else {
        let ks = if p.castling[kingside(color)] && p.at(home_sq(color, 7)) == Some(
            (color, Piece::Rook),
        ) && p.at(home_sq(color, 5)) is None && p.at(
            home_sq(color, 6),
        ) is None && !attacked(p, home_sq(color, 5), enemy) && !attacked(
            p,
            home_sq(color, 6),
            enemy,
        ) {
            seq![quiet(sq, home_sq(color, 6))]
        } else {
            Seq::empty()
        };
        let qs = if p.castling[queenside(color)] && p.at(home_sq(color, 0)) == Some(
            (color, Piece::Rook),
        ) && p.at(home_sq(color, 3)) is None && p.at(
            home_sq(color, 2),
        ) is None && p.at(home_sq(color, 1)) is None && !attacked(p, home_sq(color, 3), enemy)
            && !attacked(p, home_sq(color, 2), enemy) {
            seq![quiet(sq, home_sq(color, 2))]
        } else {
            Seq::empty()
        };
        ks + qs
    }
}

/// The moves of a king of `color` on `sq`: one step in each direction, then castling.
pub open spec fn king_moves(p: Position, sq: Sq, color: Color) -> Seq<Move> {
    leaper_moves(p, sq, color, king_deltas()) + castle_moves(p, sq, color)
}

/// The moves of a piece `(color, piece)` on `sq`, ignoring whether they leave its king in check.
pub open spec fn piece_moves(p: Position, sq: Sq, color: Color, piece: Piece) -> Seq<Move> {
    match piece {
        Piece::Pawn => pawn_moves(p, sq, color),
        Piece::Knight => leaper_moves(p, sq, color, knight_deltas()),
        Piece::Bishop => slider_moves(p, sq, color, diagonal_dirs()),
        Piece::Rook => slider_moves(p, sq, color, straight_dirs()),
        Piece::Queen => slider_moves(p, sq, color, straight_dirs()) + slider_moves(
            p,
            sq,
            color,
            diagonal_dirs(),
        ),
        Piece::King => king_moves(p, sq, color),
    }
}

/// The moves of what stands on square index `k`, if it belongs to the side to move.
pub open spec fn square_moves(p: Position, k: int) -> Seq<Move> {
    match p.cells[k] {
        Some((c, pc)) => if c == p.turn {
            piece_moves(p, sq_at(k), c, pc)
        } else {
            Seq::empty()
        },
        None => Seq::empty(),
    }
}

/// The moves of the side to move from the squares with index below `n`.
pub open spec fn pseudo_prefix(p: Position, n: int) -> Seq<Move>
    decreases n,
{
    if n <= 0 {
        Seq::empty()
    } else {
        pseudo_prefix(p, n - 1) + square_moves(p, n - 1)
    }
}

/// All moves of the side to move, square by square in rank-major order, ignoring
/// whether they leave its king in check.
pub open spec fn pseudo_moves(p: Position) -> Seq<Move> {
    pseudo_prefix(p, 64)
}

/// Making `mv` leaves the king of the side to move in check.
pub open spec fn leaves_in_check(p: Position, mv: Move) -> bool {
    in_check(apply(p, mv), p.turn)
}

/// The test that keeps a move among the legal ones.
pub open spec fn keeps_king_safe(p: Position) -> spec_fn(Move) -> bool {
    |m: Move| !leaves_in_check(p, m)
}

/// The legal moves: the generated moves, in order, that do not leave the king in check.
pub open spec fn legal_moves(p: Position) -> Seq<Move> {
    pseudo_moves(p).filter(keeps_king_safe(p))
}

/// The side to move is in check and has no legal move.
pub open spec fn is_checkmate(p: Position) -> bool {
    in_check(p, p.turn) && legal_moves(p).len() == 0
}

/// The side to move is not in check and has no legal move.
pub open spec fn is_stalemate(p: Position) -> bool {
    !in_check(p, p.turn) && legal_moves(p).len() == 0
}

} // verus!
