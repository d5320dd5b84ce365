//! What every generated move looks like: it starts on the mover's square, ends on the
//! board on a square the mover may enter, and promotes exactly when a pawn reaches the
//! last rank.
use vstd::prelude::*;
use crate::types::{Color, Piece, Sq, Move, offset};
use crate::rules::{Position, apply_ok, castle_moves, diagonal_dirs, enterable, is_dir, king_deltas, king_moves, knight_deltas, leaper_moves, pawn_capture, pawn_dir, pawn_moves, pawn_pushes, pawn_move, piece_moves, promotion_rank, pseudo_moves, pseudo_prefix, ray_moves, slider_moves, square_moves, sq_at, steps_left, straight_dirs};

verus! {

/// `m` is a move of the piece `(color, pc)` on `sq`: it leaves `sq` for a square on the
/// board that is empty or holds an enemy; a pawn that changes
/// file advances one rank; and it promotes, to a piece other than pawn or king, exactly
/// when a pawn reaches the last rank.
pub open spec fn fits(p: Position, sq: Sq, color: Color, pc: Piece, m: Move) -> bool {
    &&& m.from == sq
    &&& m.to.on_board()
    &&& enterable(p, m.to, color)
    &&& (pc == Piece::Pawn && m.from.file != m.to.file ==> m.to.rank == sq.rank + pawn_dir(color))
    &&& (m.promotion is Some <==> (pc == Piece::Pawn && m.to.rank == promotion_rank(color)))
    &&& (m.promotion matches Some(x) ==> x != Piece::Pawn && x != Piece::King)
}

pub open spec fn all_fit(p: Position, sq: Sq, color: Color, pc: Piece, ms: Seq<Move>) -> bool {
    forall|i: int| 0 <= i < ms.len() ==> fits(p, sq, color, pc, #[trigger] ms[i])
}

/// `m` is a move of a piece of the side to move, in the sense of `fits`.
pub open spec fn generated_ok(p: Position, m: Move) -> bool {
    &&& m.from.on_board()
    &&& match p.at(m.from) {
        Some((c, pc)) => c == p.turn && fits(p, m.from, c, pc, m),
        None => false,
    }
}

proof fn lemma_all_fit_add(p: Position, sq: Sq, color: Color, pc: Piece, a: Seq<Move>, b: Seq<Move>)
    requires
        all_fit(p, sq, color, pc, a),
        all_fit(p, sq, color, pc, b),
    ensures
        all_fit(p, sq, color, pc, a + b),
{
    assert forall|i: int| 0 <= i < (a + b).len() implies fits(p, sq, color, pc, #[trigger] (a + b)[i]) by {
        if i < a.len() {
            assert((a + b)[i] == a[i]);
        } else {
            assert((a + b)[i] == b[i - a.len()]);
        }
    }
}

proof fn lemma_leaper_fit(p: Position, sq: Sq, color: Color, pc: Piece, deltas: Seq<(int, int)>)
    requires
        pc != Piece::Pawn,
    ensures
        all_fit(p, sq, color, pc, leaper_moves(p, sq, color, deltas)),
    decreases deltas.len(),
{
    if deltas.len() > 0 {
        lemma_leaper_fit(p, sq, color, pc, deltas.drop_last());
    }
}

proof fn lemma_ray_fit(p: Position, from: Sq, color: Color, pc: Piece, cur: Sq, df: int, dr: int)
    requires
        pc != Piece::Pawn,
        is_dir(df, dr),
        cur.on_board(),
    ensures
        all_fit(p, from, color, pc, ray_moves(p, from, color, cur, df, dr)),
    decreases steps_left(cur, df, dr),
{
    match offset(cur, df, dr) {
        None => {},
        Some(ns) => {
            if p.at(ns) is None {
                lemma_ray_fit(p, from, color, pc, ns, df, dr);
                let rest = ray_moves(p, from, color, ns, df, dr);
                let ms = ray_moves(p, from, color, cur, df, dr);
                assert forall|i: int| 0 <= i < ms.len() implies fits(p, from, color, pc, #[trigger] ms[i]) by {
                    if i > 0 {
                        assert(ms[i] == rest[i - 1]);
                    }
                }
            }
        },
    }
}

proof fn lemma_slider_fit(p: Position, sq: Sq, color: Color, pc: Piece, dirs: Seq<(int, int)>)
    requires
        pc != Piece::Pawn,
        sq.on_board(),
        forall|j: int| 0 <= j < dirs.len() ==> is_dir(#[trigger] dirs[j].0, dirs[j].1),
    ensures
        all_fit(p, sq, color, pc, slider_moves(p, sq, color, dirs)),
    decreases dirs.len(),
{
    if dirs.len() > 0 {
        let d = dirs.last();
        assert(is_dir(dirs[dirs.len() - 1].0, dirs[dirs.len() - 1].1));
        lemma_slider_fit(p, sq, color, pc, dirs.drop_last());
        lemma_ray_fit(p, sq, color, pc, sq, d.0, d.1);
        lemma_all_fit_add(
            p,
            sq,
            color,
            pc,
            slider_moves(p, sq, color, dirs.drop_last()),
            ray_moves(p, sq, color, sq, d.0, d.1),
        );
    }
}

proof fn lemma_pawn_move_fit(p: Position, sq: Sq, to: Sq, color: Color)
    requires
        to.on_board(),
        enterable(p, to, color),
        to.rank == sq.rank + pawn_dir(color),
    ensures
        all_fit(p, sq, color, Piece::Pawn, pawn_move(sq, to, color)),
{
}

proof fn lemma_pawn_fit(p: Position, sq: Sq, color: Color)
    requires
        sq.on_board(),
    ensures
        all_fit(p, sq, color, Piece::Pawn, pawn_moves(p, sq, color)),
{
    let pushes = pawn_pushes(p, sq, color);
    assert(all_fit(p, sq, color, Piece::Pawn, pushes));
    let c0 = pawn_capture(p, sq, color, -1);
    let c1 = pawn_capture(p, sq, color, 1);
    if let Some(to) = offset(sq, -1, pawn_dir(color)) {
        if enterable(p, to, color) {
            lemma_pawn_move_fit(p, sq, to, color);
        }
    }
    if let Some(to) = offset(sq, 1, pawn_dir(color)) {
        if enterable(p, to, color) {
            lemma_pawn_move_fit(p, sq, to, color);
        }
    }
    assert(all_fit(p, sq, color, Piece::Pawn, c0));
    assert(all_fit(p, sq, color, Piece::Pawn, c1));
    lemma_all_fit_add(p, sq, color, Piece::Pawn, pushes, c0);
    lemma_all_fit_add(p, sq, color, Piece::Pawn, pushes + c0, c1);
}

proof fn lemma_king_fit(p: Position, sq: Sq, color: Color)
    requires
        sq.on_board(),
    ensures
        all_fit(p, sq, color, Piece::King, king_moves(p, sq, color)),
{
    lemma_leaper_fit(p, sq, color, Piece::King, king_deltas());
    let cm = castle_moves(p, sq, color);
    assert(all_fit(p, sq, color, Piece::King, cm));
    lemma_all_fit_add(p, sq, color, Piece::King, leaper_moves(p, sq, color, king_deltas()), cm);
}

/// Every move of a piece fits that piece.
pub proof fn lemma_piece_fit(p: Position, sq: Sq, color: Color, pc: Piece)
    requires
        sq.on_board(),
    ensures
        all_fit(p, sq, color, pc, piece_moves(p, sq, color, pc)),
{
    match pc {
        Piece::Pawn => lemma_pawn_fit(p, sq, color),
        Piece::Knight => lemma_leaper_fit(p, sq, color, pc, knight_deltas()),
        Piece::Bishop => lemma_slider_fit(p, sq, color, pc, diagonal_dirs()),
        Piece::Rook => lemma_slider_fit(p, sq, color, pc, straight_dirs()),
        Piece::Queen => {
            lemma_slider_fit(p, sq, color, pc, straight_dirs());
            lemma_slider_fit(p, sq, color, pc, diagonal_dirs());
            lemma_all_fit_add(
                p,
                sq,
                color,
                pc,
                slider_moves(p, sq, color, straight_dirs()),
                slider_moves(p, sq, color, diagonal_dirs()),
            );
        },
        Piece::King => lemma_king_fit(p, sq, color),
    }
}

/// The square with index `k` is on the board and has index `k`.
pub proof fn lemma_sq_at_index(k: int)
    requires
        0 <= k < 64,
    ensures
        sq_at(k).on_board(),
        sq_at(k).index() == k,
{
    assert(0 <= k % 8 < 8 && 0 <= k / 8 < 8 && (k / 8) * 8 + k % 8 == k) by (nonlinear_arith)
        requires
            0 <= k < 64,
    ;
}

/// `m` is one of the moves of a piece of the side to move standing on `m.from`.
pub open spec fn piece_move_of(p: Position, m: Move) -> bool {
    &&& m.from.on_board()
    &&& match p.at(m.from) {
        Some((c, pc)) => c == p.turn && piece_moves(p, m.from, c, pc).contains(m),
        None => false,
    }
}

proof fn lemma_pseudo_prefix_members(p: Position, n: int)
    requires
        p.wf(),
        n <= 64,
    ensures
        forall|i: int|
            0 <= i < pseudo_prefix(p, n).len() ==> piece_move_of(p, #[trigger] pseudo_prefix(p, n)[i]),
    decreases n,
{
    if n > 0 {
        lemma_pseudo_prefix_members(p, n - 1);
        let a = pseudo_prefix(p, n - 1);
        let b = square_moves(p, n - 1);
        lemma_sq_at_index(n - 1);
        assert forall|i: int| 0 <= i < (a + b).len() implies piece_move_of(p, #[trigger] (a + b)[i]) by {
            if i < a.len() {
                assert((a + b)[i] == a[i]);
            } else {
                let j = i - a.len();
                assert((a + b)[i] == b[j]);
                let (c, pc) = p.cells[n - 1].unwrap();
                let ms = piece_moves(p, sq_at(n - 1), c, pc);
                assert(ms[j] == b[j]);
                lemma_piece_fit(p, sq_at(n - 1), c, pc);
                assert(fits(p, sq_at(n - 1), c, pc, ms[j]));
            }
        }
    }
}

/// Every generated move is a move of a piece of the side to move, from its square.
pub proof fn lemma_pseudo_members(p: Position)
    requires
        p.wf(),
    ensures
        forall|i: int| 0 <= i < pseudo_moves(p).len() ==> piece_move_of(p, #[trigger] pseudo_moves(p)[i]),
{
    lemma_pseudo_prefix_members(p, 64);
}

/// Every generated move fits the piece of the side to move that makes it.
pub proof fn lemma_pseudo_ok(p: Position)
    requires
        p.wf(),
    ensures
        forall|i: int| 0 <= i < pseudo_moves(p).len() ==> generated_ok(p, #[trigger] pseudo_moves(p)[i]),
{
    lemma_pseudo_members(p);
    assert forall|i: int| 0 <= i < pseudo_moves(p).len() implies generated_ok(p, #[trigger] pseudo_moves(p)[i]) by {
        let m = pseudo_moves(p)[i];
        assert(piece_move_of(p, m));
        let (c, pc) = p.at(m.from).unwrap();
        lemma_piece_fit(p, m.from, c, pc);
        let ms = piece_moves(p, m.from, c, pc);
        let j = choose|j: int| 0 <= j < ms.len() && ms[j] == m;
        assert(fits(p, m.from, c, pc, ms[j]));
    }
}

/// A move of a piece of the side to move can be applied.
pub proof fn lemma_generated_apply_ok(p: Position, m: Move)
    requires
        generated_ok(p, m),
    ensures
        apply_ok(p, m),
{
}

} // verus!
