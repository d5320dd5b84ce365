//! Move generation: the moves of each piece, and the legal moves of a position.
use vstd::prelude::*;
use crate::types::{Color, Piece, Sq, Move, offset};
use crate::board::{Board, lemma_board_wf};
use crate::generated::{generated_ok, lemma_pseudo_ok, lemma_generated_apply_ok};
use crate::attack::{same_deltas, steps_of, lemma_steps_of, lemma_sq_at, knight_steps, king_steps, straight_steps, diagonal_steps};
use crate::rules::{diagonal_dirs, enterable, is_step, keeps_king_safe, king_deltas, king_moves, knight_deltas, leaper_moves, legal_moves, pawn_capture, pawn_dir, pawn_move, pawn_moves, pawn_pushes, pawn_rank, piece_moves, promotion_rank, pseudo_moves, pseudo_prefix, quiet, ray_moves, slider_moves, steps_left, straight_dirs, kingside, queenside, home_rank, is_checkmate, is_stalemate};

verus! {

broadcast use lemma_board_wf;

/// Appends the move from `sq` to `to`: a quiet move, or one per promotion piece on the last rank.
fn push_pawn_move(sq: Sq, to: Sq, color: Color, promo_rank: u8, out: &mut Vec<Move>)
    requires
        promo_rank == promotion_rank(color),
    ensures
        final(out)@ == old(out)@ + pawn_move(sq, to, color),
{
    if to.rank == promo_rank {
        out.push(Move { from: sq, to, promotion: Some(Piece::Queen) });
        out.push(Move { from: sq, to, promotion: Some(Piece::Rook) });
        out.push(Move { from: sq, to, promotion: Some(Piece::Bishop) });
        out.push(Move { from: sq, to, promotion: Some(Piece::Knight) });
    } else {
        out.push(Move { from: sq, to, promotion: None });
    }
    proof {
        assert(final(out)@ =~= old(out)@ + pawn_move(sq, to, color));
    }
}

impl Board {
    /// A piece of `color` may move onto `to`.
    fn can_enter(&self, to: Sq, color: Color) -> (res: bool)
        requires
            to.on_board(),
        ensures
            res == enterable(self@, to, color),
    {
        match self.get(to) {
            None => true,
            Some((c, _)) => c != color,
        }
    }

    /// Appends the moves of a piece of `color` on `sq` that jumps by one of `steps`.
    fn leaper_pseudo(
        &self,
        sq: Sq,
        color: Color,
        steps: &[(i8, i8); 8],
        Ghost(d): Ghost<Seq<(int, int)>>,
        out: &mut Vec<Move>,
    )
        requires
            sq.on_board(),
            same_deltas(steps@, d),
            forall|j: int| 0 <= j < 8 ==> -2 <= #[trigger] d[j].0 <= 2 && -2 <= d[j].1 <= 2,
        ensures
            final(out)@ == old(out)@ + leaper_moves(self@, sq, color, d),
    {
        let ghost start = out@;
        let mut i: usize = 0;
        while i < 8
            invariant
                i <= 8,
                sq.on_board(),
                same_deltas(steps@, d),
                forall|j: int| 0 <= j < 8 ==> -2 <= #[trigger] d[j].0 <= 2 && -2 <= d[j].1 <= 2,
                out@ == start + leaper_moves(self@, sq, color, d.take(i as int)),
            decreases 8 - i,
        {
            let (df, dr) = steps[i];
            assert(steps@[i as int] == steps[i as int]);
            assert(d.take(i + 1).drop_last() =~= d.take(i as int));
            assert(d.take(i + 1).last() == d[i as int]);
            if let Some(to) = sq.offset(df, dr) {
                if self.can_enter(to, color) {
                    out.push(Move { from: sq, to, promotion: None });
                }
            }
            i = i + 1;
        }
        assert(d.take(8) =~= d);
    }

    /// Appends the moves of a slider of `color` on `sq` along `(df, dr)`.
    fn ray_pseudo(&self, sq: Sq, color: Color, df: i8, dr: i8, out: &mut Vec<Move>)
        requires
            sq.on_board(),
            is_step(df as int, dr as int),
        ensures
            final(out)@ == old(out)@ + ray_moves(self@, sq, color, sq, df as int, dr as int),
    {
        let ghost start = out@;
        let mut s = sq;
        loop
            invariant_except_break
                out@ + ray_moves(self@, sq, color, s, df as int, dr as int) == start + ray_moves(
                    self@,
                    sq,
                    color,
                    sq,
                    df as int,
                    dr as int,
                ),
            invariant
                s.on_board(),
                sq.on_board(),
                is_step(df as int, dr as int),
            ensures
                out@ == start + ray_moves(self@, sq, color, sq, df as int, dr as int),
            decreases steps_left(s, df as int, dr as int),
        {
            let ghost prev = out@;
            match s.offset(df, dr) {
                None => {
                    assert(out@ =~= out@ + ray_moves(self@, sq, color, s, df as int, dr as int));
                    break ;
                },
                Some(ns) => {
                    let ghost old_s = s;
                    s = ns;
                    match self.get(s) {
                        None => {
                            out.push(Move { from: sq, to: s, promotion: None });
                            assert(out@ + ray_moves(self@, sq, color, s, df as int, dr as int) =~= prev
                                + ray_moves(self@, sq, color, old_s, df as int, dr as int));
                        },
                        Some((c, _)) => {
                            if c != color {
                                out.push(Move { from: sq, to: s, promotion: None });
                                assert(out@ =~= prev + ray_moves(self@, sq, color, old_s, df as int, dr as int));
                            } else {
                                assert(out@ =~= prev + ray_moves(self@, sq, color, old_s, df as int, dr as int));
                            }
                            break ;
                        },
                    }
                },
            }
        }
    }

    /// Appends the moves of a slider of `color` on `sq` along each of `dirs` in turn.
    fn sliding(&self, sq: Sq, color: Color, dirs: &[(i8, i8)], out: &mut Vec<Move>)
        requires
            sq.on_board(),
            forall|j: int| 0 <= j < dirs@.len() ==> is_step(#[trigger] dirs@[j].0 as int, dirs@[j].1 as int),
        ensures
            final(out)@ == old(out)@ + slider_moves(self@, sq, color, steps_of(dirs@)),
    {
        let ghost start = out@;
        let ghost d = steps_of(dirs@);
        let n = dirs.len();
        let mut i: usize = 0;
        while i < n
            invariant
                i <= n,
                n == dirs@.len(),
                sq.on_board(),
                d == steps_of(dirs@),
                forall|j: int| 0 <= j < dirs@.len() ==> is_step(#[trigger] dirs@[j].0 as int, dirs@[j].1 as int),
                out@ == start + slider_moves(self@, sq, color, d.take(i as int)),
            decreases n - i,
        {
            let (df, dr) = dirs[i];
            assert(is_step(dirs@[i as int].0 as int, dirs@[i as int].1 as int));
            assert(d.take(i + 1).drop_last() =~= d.take(i as int));
            assert(d.take(i + 1).last() == d[i as int]);
            self.ray_pseudo(sq, color, df, dr, out);
            assert(out@ =~= start + slider_moves(self@, sq, color, d.take(i + 1)));
            i = i + 1;
        }
        assert(d.take(n as int) =~= d);
    }

    /// Appends the moves of a pawn of `color` on `sq`.
    #[verifier::rlimit(40)]
    fn pawn_pseudo(&self, sq: Sq, color: Color, out: &mut Vec<Move>)
        requires
            sq.on_board(),
        ensures
            final(out)@ == old(out)@ + pawn_moves(self@, sq, color),
    {
        let ghost start = out@;
        let dir: i8 = if color == Color::White { 1 } else { -1 };
        let start_rank: u8 = if color == Color::White { 1 } else { 6 };
        let promo_rank: u8 = if color == Color::White { 7 } else { 0 };
        assert(dir == pawn_dir(color) && start_rank == pawn_rank(color) && promo_rank
            == promotion_rank(color));

        // Single push
        if let Some(to) = sq.offset(0, dir) {
            if self.get(to).is_none() {
                if to.rank == promo_rank {
                    push_pawn_move(sq, to, color, promo_rank, out);
                } else {
                    out.push(Move { from: sq, to, promotion: None });
                    // Double push from starting rank
                    if sq.rank == start_rank {
                        if let Some(to2) = sq.offset(0, 2 * dir) {
                            if self.get(to2).is_none() {
                                out.push(Move { from: sq, to: to2, promotion: None });
                            }
                        }
                    }
                }
            }
        }
        assert(out@ =~= start + pawn_pushes(self@, sq, color));

        // Captures (including en passant)
        self.pawn_capture_pseudo(sq, color, -1, dir, promo_rank, out);
        self.pawn_capture_pseudo(sq, color, 1, dir, promo_rank, out);
        assert(out@ =~= start + pawn_moves(self@, sq, color));
    }

    /// Appends the capture of a pawn of `color` on `sq` toward file offset `df`.
    fn pawn_capture_pseudo(&self, sq: Sq, color: Color, df: i8, dir: i8, promo_rank: u8, out: &mut Vec<Move>)
        requires
            sq.on_board(),
            df == 1 || df == -1,
            dir == pawn_dir(color),
            promo_rank == promotion_rank(color),
        ensures
            final(out)@ == old(out)@ + pawn_capture(self@, sq, color, df as int),
    {
        if let Some(to) = sq.offset(df, dir) {
            let occupied_by_enemy = match self.get(to) {
                Some((c, _)) => c != color,
                None => false,
            };
            // en passant: onto the empty en passant square, past an enemy pawn beside `sq`
            let is_ep = match self.en_passant {
                Some(e) => e == to && self.get(to).is_none() && match self.get(
                    Sq::new(to.file, sq.rank),
                ) {
                    Some((c, Piece::Pawn)) => c == color.flip(),
                    _ => false,
                },
                None => false,
            };
            if occupied_by_enemy || is_ep {
                push_pawn_move(sq, to, color, promo_rank, out);
            } else {
                assert(out@ =~= old(out)@ + pawn_capture(self@, sq, color, df as int));
            }
        } else {
            assert(out@ =~= old(out)@ + pawn_capture(self@, sq, color, df as int));
        }
    }

    /// The square `s` holds a rook of `color`.
    fn holds_own_rook(&self, s: Sq, color: Color) -> (res: bool)
        requires
            s.on_board(),
        ensures
            res == (self@.at(s) == Some((color, Piece::Rook))),
    {
        match self.get(s) {
            Some((c, Piece::Rook)) => c == color,
            _ => false,
        }
    }

    /// Appends the moves of a king of `color` on `sq`, castling included.
    fn king_pseudo(&self, sq: Sq, color: Color, out: &mut Vec<Move>)
        requires
            sq.on_board(),
        ensures
            final(out)@ == old(out)@ + king_moves(self@, sq, color),
    {
        let ghost start = out@;
        let kg = king_steps();
        self.leaper_pseudo(sq, color, &kg, Ghost(king_deltas()), out);

        let r = if color == Color::White { 0u8 } else { 7u8 };
        let (ks, qs) = if color == Color::White { (0usize, 1usize) } else { (2usize, 3usize) };
        let enemy = color.flip();
        assert(r == home_rank(color) && ks == kingside(color) && qs == queenside(color));

        if sq != Sq::new(4, r) || self.is_in_check(color) {
            assert(out@ =~= start + king_moves(self@, sq, color));
            return;
        }

        // Kingside castling
        if self.castling[ks] && self.holds_own_rook(Sq::new(7, r), color) && self.get(Sq::new(5, r)).is_none() && self.get(Sq::new(6, r)).is_none()
            && !self.is_attacked(Sq::new(5, r), enemy) && !self.is_attacked(Sq::new(6, r), enemy) {
            out.push(Move { from: sq, to: Sq::new(6, r), promotion: None });
        }

        // Queenside castling
        if self.castling[qs] && self.holds_own_rook(Sq::new(0, r), color) && self.get(Sq::new(3, r)).is_none() && self.get(Sq::new(2, r)).is_none()
            && self.get(Sq::new(1, r)).is_none() && !self.is_attacked(Sq::new(3, r), enemy)
            && !self.is_attacked(Sq::new(2, r), enemy) {
            out.push(Move { from: sq, to: Sq::new(2, r), promotion: None });
        }
        assert(out@ =~= start + king_moves(self@, sq, color));
    }

    /// Appends the moves of the piece `(color, piece)` on `sq`.
    fn piece_pseudo(&self, sq: Sq, color: Color, piece: Piece, out: &mut Vec<Move>)
        requires
            sq.on_board(),
        ensures
            final(out)@ == old(out)@ + piece_moves(self@, sq, color, piece),
    {
        let ghost start = out@;
        match piece {
            Piece::Pawn => self.pawn_pseudo(sq, color, out),
            Piece::Knight => {
                let kn = knight_steps();
                self.leaper_pseudo(sq, color, &kn, Ghost(knight_deltas()), out);
            },
            Piece::Bishop => {
                let dg = diagonal_steps();
                proof { lemma_steps_of(dg@, diagonal_dirs()); }
                self.sliding(sq, color, &dg, out);
            },
            Piece::Rook => {
                let st = straight_steps();
                proof { lemma_steps_of(st@, straight_dirs()); }
                self.sliding(sq, color, &st, out);
            },
            Piece::Queen => {
                let st = straight_steps();
                let dg = diagonal_steps();
                proof {
                    lemma_steps_of(st@, straight_dirs());
                    lemma_steps_of(dg@, diagonal_dirs());
                }
                self.sliding(sq, color, &st, out);
                self.sliding(sq, color, &dg, out);
                assert(out@ =~= start + piece_moves(self@, sq, color, piece));
            },
            Piece::King => self.king_pseudo(sq, color, out),
        }
    }

    /// The moves of the side to move, square by square in rank-major order, ignoring
    /// whether they leave its king in check.
    fn pseudo_moves(&self) -> (res: Vec<Move>)
        ensures
            res@ == pseudo_moves(self@),
    {
        let mut moves: Vec<Move> = Vec::new();
        let mut rank: u8 = 0;
        while rank < 8
            invariant
                rank <= 8,
                moves@ == pseudo_prefix(self@, rank * 8),
            decreases 8 - rank,
        {
            let mut file: u8 = 0;
            while file < 8
                invariant
                    rank < 8,
                    file <= 8,
                    moves@ == pseudo_prefix(self@, rank * 8 + file),
                decreases 8 - file,
            {
                let sq = Sq::new(file, rank);
                proof {
                    lemma_sq_at(rank as int, file as int);
                }
                let ghost k = rank * 8 + file;
                if let Some((color, piece)) = self.get(sq) {
                    if color == self.turn {
                        self.piece_pseudo(sq, color, piece, &mut moves);
                    }
                }
                assert(moves@ =~= pseudo_prefix(self@, k + 1));
                file = file + 1;
            }
            rank = rank + 1;
        }
        moves
    }

    /// All legal moves for the side to move: the generated moves, in order, that do not
    /// leave its king in check.
    pub fn legal_moves(&self) -> (res: Vec<Move>)
        ensures
            res@ == legal_moves(self@),
    {
        let pseudo = self.pseudo_moves();
        proof {
            lemma_pseudo_ok(self@);
        }
        let mut out: Vec<Move> = Vec::new();
        let n = pseudo.len();
        for i in 0..n
            invariant
                n == pseudo@.len(),
                pseudo@ == pseudo_moves(self@),
                forall|j: int| 0 <= j < pseudo@.len() ==> generated_ok(self@, #[trigger] pseudo@[j]),
                out@ == pseudo@.take(i as int).filter(keeps_king_safe(self@)),
        {
            let m = pseudo[i];
            proof {
                assert(generated_ok(self@, pseudo@[i as int]));
                lemma_generated_apply_ok(self@, m);
                reveal_with_fuel(Seq::<Move>::filter, 1);
                assert(pseudo@.take(i + 1).drop_last() =~= pseudo@.take(i as int));
                assert(pseudo@.take(i + 1).last() == m);
            }
            if !self.leaves_in_check(m) {
                out.push(m);
            }
        }
        assert(pseudo@.take(n as int) =~= pseudo@);
        out
    }

    /// The side to move is in check and has no legal move.
    pub fn is_checkmate(&self) -> (res: bool)
        ensures
            res == is_checkmate(self@),
    {
        self.is_in_check(self.turn) && self.legal_moves().len() == 0
    }

    /// The side to move is not in check and has no legal move.
    pub fn is_stalemate(&self) -> (res: bool)
        ensures
            res == is_stalemate(self@),
    {
        !self.is_in_check(self.turn) && self.legal_moves().len() == 0
    }
}

} // verus!
