//! The board: construction, square access, and making a move.
use vstd::prelude::*;
use crate::types::{Color, Piece, Sq, Move};
use crate::rules::{Cell, Position, apply, apply_ok, moved, revoke_captured, pawn_dir, home_rank,
    kingside, queenside, landing};

verus! {

/// The 64 cells of a board: the cell of square `s` at index `s.rank * 8 + s.file`.
#[derive(Clone, Copy, Debug)]
pub struct Squares([Option<(Color, Piece)>; 64]);

impl View for Squares {
    type V = Seq<Cell>;

    closed spec fn view(&self) -> Seq<Cell> {
        self.0@
    }
}

/// A board has 64 cells.
pub broadcast proof fn lemma_squares_len(s: Squares)
    ensures
        #[trigger] s@.len() == 64,
{
}

/// Board position.
#[derive(Clone, Debug)]
pub struct Board {
    pub squares: Squares,
    pub turn: Color,
    /// [white kingside, white queenside, black kingside, black queenside]
    pub castling: [bool; 4],
    pub en_passant: Option<Sq>,
}

impl View for Board {
    type V = Position;

    open spec fn view(&self) -> Position {
        Position {
            cells: self.squares@,
            turn: self.turn,
            castling: self.castling@,
            en_passant: self.en_passant,
        }
    }
}

/// The position of a board is well formed.
pub broadcast proof fn lemma_board_wf(b: Board)
    ensures
        #[trigger] b@.wf(),
{
    lemma_squares_len(b.squares);
}

/// The first rank of each side, from file a to file h.
pub open spec fn back_rank(f: int) -> Piece {
    if f == 0 || f == 7 {
        Piece::Rook
    } else if f == 1 || f == 6 {
        Piece::Knight
    } else if f == 2 || f == 5 {
        Piece::Bishop
    } else if f == 3 {
        Piece::Queen
    } else {
        Piece::King
    }
}

/// What cell `k` holds in the starting position.
pub open spec fn start_cell(k: int) -> Cell {
    if 0 <= k < 8 {
        Some((Color::White, back_rank(k)))
    } else if 8 <= k < 16 {
        Some((Color::White, Piece::Pawn))
    } else if 48 <= k < 56 {
        Some((Color::Black, Piece::Pawn))
    } else if 56 <= k < 64 {
        Some((Color::Black, back_rank(k - 56)))
    } else {
        None
    }
}

/// The starting position: White to move, all castling rights, no en passant square.
pub open spec fn start_position() -> Position {
    Position {
        cells: Seq::new(64, |k: int| start_cell(k)),
        turn: Color::White,
        castling: seq![true, true, true, true],
        en_passant: None,
    }
}

impl Board {
    pub fn starting_position() -> (res: Board)
        ensures
            res@ == start_position(),
    {
        let mut b = Board {
            squares: Squares([None; 64]),
            turn: Color::White,
            castling: [true; 4],
            en_passant: None,
        };
        let back = [
            Piece::Rook,
            Piece::Knight,
            Piece::Bishop,
            Piece::Queen,
            Piece::King,
            Piece::Bishop,
            Piece::Knight,
            Piece::Rook,
        ];
        for f in 0..8usize
            invariant
                forall|j: int| 0 <= j < 8 ==> back@[j] == back_rank(j),
                forall|k: int|
                    0 <= k < 64 ==> #[trigger] b.squares.0@[k] == if (0 <= k < f) || (56 <= k < 56 + f) {
                        start_cell(k)
                    } else {
                        None
                    },
                b.turn == Color::White,
                b.castling@ == seq![true, true, true, true],
                b.en_passant == None::<Sq>,
        {
            let p = back[f];
            b.squares.0[f] = Some((Color::White, p));
            b.squares.0[56 + f] = Some((Color::Black, p));
        }
        for f in 0..8usize
            invariant
                forall|k: int|
                    0 <= k < 64 ==> #[trigger] b.squares.0@[k] == if (0 <= k < 8 + f) || (48 <= k < 48 + f) || (56 <= k < 64) {
                        start_cell(k)
                    } else {
                        None
                    },
                b.turn == Color::White,
                b.castling@ == seq![true, true, true, true],
                b.en_passant == None::<Sq>,
        {
            b.squares.0[8 + f] = Some((Color::White, Piece::Pawn));
            b.squares.0[48 + f] = Some((Color::Black, Piece::Pawn));
        }
        proof {
            assert(b@.cells =~= start_position().cells);
            assert(b@ =~= start_position());
        }
        b
    }

    /// What the square `sq` holds.
    pub fn get(&self, sq: Sq) -> (res: Option<(Color, Piece)>)
        requires
            sq.on_board(),
        ensures
            res == self@.at(sq),
    {
        self.squares.0[sq.rank as usize * 8 + sq.file as usize]
    }

    fn set(&mut self, sq: Sq, val: Option<(Color, Piece)>)
        requires
            sq.on_board(),
        ensures
            final(self)@ == old(self)@.put(sq, val),
    {
        self.squares.0[sq.rank as usize * 8 + sq.file as usize] = val;
        proof {
            assert(final(self)@ =~= old(self)@.put(sq, val));
        }
    }

    /// The board with the given cells, side to move, castling rights and en passant square.
    pub(crate) fn from_parts(
        squares: [Option<(Color, Piece)>; 64],
        turn: Color,
        castling: [bool; 4],
        en_passant: Option<Sq>,
    ) -> (res: Board)
        ensures
            res@ == (Position { cells: squares@, turn, castling: castling@, en_passant }),
    {
        Board { squares: Squares(squares), turn, castling, en_passant }
    }

    /// Applies a move, returning the new board; `self` is left unchanged.
    pub fn apply_move(&self, mv: Move) -> (res: Board)
        requires
            apply_ok(self@, mv),
        ensures
            res@ == apply(self@, mv),
    {
        let mut b = Board {
            squares: self.squares,
            turn: self.turn,
            castling: self.castling,
            en_passant: self.en_passant,
        };
        let mover = b.get(mv.from);
        b.en_passant = None;
        match mover {
            Some((color, Piece::Pawn)) => {
                let dir: i8 = if color == Color::White { 1 } else { -1 };
                assert(dir == pawn_dir(color));
                // En passant capture: diagonal move onto empty square
                if mv.from.file != mv.to.file && b.get(mv.to).is_none() {
                    b.set(Sq::new(mv.to.file, (mv.to.rank as i8 - dir) as u8), None);
                }
                // Double push: record en passant target square
                let d = mv.to.rank as i8 - mv.from.rank as i8;
                if d == 2 || d == -2 {
                    b.en_passant = Some(Sq::new(mv.from.file, (mv.from.rank as i8 + dir) as u8));
                }
                let placed = match mv.promotion {
                    Some(p) => Some((color, p)),
                    None => mover,
                };
                assert(placed == landing(mover, color, mv.promotion));
                b.set(mv.from, None);
                b.set(mv.to, placed);
            },
            Some((color, Piece::King)) => {
                let r = if color == Color::White { 0u8 } else { 7u8 };
                assert(r == home_rank(color));
                if mv.from == Sq::new(4, r) {
                    if mv.to == Sq::new(6, r) {
                        b.set(Sq::new(7, r), None);
                        b.set(Sq::new(5, r), Some((color, Piece::Rook)));
                    } else if mv.to == Sq::new(2, r) {
                        b.set(Sq::new(0, r), None);
                        b.set(Sq::new(3, r), Some((color, Piece::Rook)));
                    }
                }
                if color == Color::White {
                    b.castling[0] = false;
                    b.castling[1] = false;
                } else {
                    b.castling[2] = false;
                    b.castling[3] = false;
                }
                b.set(mv.from, None);
                b.set(mv.to, mover);
            },
            Some((color, Piece::Rook)) => {
                let r = if color == Color::White { 0u8 } else { 7u8 };
                let (ks, qs) = if color == Color::White { (0usize, 1usize) } else { (2usize, 3usize) };
                assert(r == home_rank(color) && ks == kingside(color) && qs == queenside(color));
                if mv.from == Sq::new(7, r) {
                    b.castling[ks] = false;
                }
                if mv.from == Sq::new(0, r) {
                    b.castling[qs] = false;
                }
                b.set(mv.from, None);
                b.set(mv.to, mover);
            },
            _ => {
                b.set(mv.from, None);
                b.set(mv.to, mover);
            },
        }
        proof {
            assert(b@ =~= moved(self@, mv));
        }
        let ghost m = b@;
        // Revoke castling if a rook is captured on its origin square
        if mv.to == Sq::new(7, 0) {
            b.castling[0] = false;
        }
        if mv.to == Sq::new(0, 0) {
            b.castling[1] = false;
        }
        if mv.to == Sq::new(7, 7) {
            b.castling[2] = false;
        }
        if mv.to == Sq::new(0, 7) {
            b.castling[3] = false;
        }
        proof {
            assert(b@ =~= revoke_captured(m, mv.to));
        }
        b.turn = b.turn.flip();
        proof {
            assert(b@ =~= apply(self@, mv));
        }
        b
    }
}

} // verus!
