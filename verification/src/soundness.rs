//! Every legal move is one that its piece can make: a square it threatens, a pawn push,
//! or castling.
use vstd::prelude::*;
use crate::types::{Color, Piece, Sq, Move, offset};
use crate::rules::{Position, castle_moves, diagonal_dirs, enterable, home_sq, is_dir, king_deltas,
    knight_deltas, leaper_moves, legal_moves, pawn_capture, pawn_dir, pawn_move, pawn_pushes,
    pawn_rank, piece_moves, quiet, ray_moves, slider_moves, steps_left, straight_dirs};
use crate::distinct::{on_ray, reached, distinct_steps, lemma_leaper_distinct};
use crate::completeness::clear_between;
use crate::consistency::lemma_slider_ray;
use crate::generated::piece_move_of;
use crate::laws::lemma_legal_generated;
use crate::threats::{threatens, slides_along};

verus! {

/// The piece on the from-square of `m` can make `m`: a pawn pushes straight ahead onto an
/// empty square (two squares only from its starting rank, over an empty square), or goes
/// one square diagonally forward onto an enemy piece or onto the empty en passant square
/// beside an enemy pawn; a king steps to a square it threatens or castles from its
/// starting square to the g- or c-square; any other piece moves to a square it threatens.
pub open spec fn follows_piece(p: Position, m: Move) -> bool {
    match p.at(m.from) {
        Some((c, Piece::Pawn)) => if m.to.file == m.from.file {
            &&& p.at(m.to) is None
            &&& (m.to.rank == m.from.rank + pawn_dir(c) || (m.from.rank == pawn_rank(c) && m.to.rank
                == m.from.rank + 2 * pawn_dir(c) && p.at(
                Sq { file: m.from.file, rank: (m.from.rank + pawn_dir(c)) as u8 },
            ) is None))
        } else {
            &&& threatens(p, m.from, m.to)
            &&& ((p.at(m.to) matches Some((o, _)) && o != c) || (p.at(m.to) is None && p.en_passant
                == Some(m.to) && p.at(Sq { file: m.to.file, rank: m.from.rank }) == Some(
                (c.flip(), Piece::Pawn),
            )))
        },
        Some((c, Piece::King)) => threatens(p, m.from, m.to) || (m.from == home_sq(c, 4) && (m.to
            == home_sq(c, 6) || m.to == home_sq(c, 2))),
        Some(_) => threatens(p, m.from, m.to),
        None => false,
    }
}

/// A move along a line from `cur` reaches a square on that line past empty squares.
proof fn lemma_ray_member(p: Position, from: Sq, c: Color, cur: Sq, df: int, dr: int, m: Move)
    requires
        is_dir(df, dr),
        cur.on_board(),
        ray_moves(p, from, c, cur, df, dr).contains(m),
    ensures
        m == quiet(from, m.to),
        m.to.on_board(),
        on_ray(cur, m.to, df, dr),
        clear_between(p, cur, m.to, df, dr),
        enterable(p, m.to, c),
    decreases steps_left(cur, df, dr),
{
    let ms = ray_moves(p, from, c, cur, df, dr);
    let i = choose|i: int| 0 <= i < ms.len() && ms[i] == m;
    assert(offset(cur, df, dr) is Some);
    let ns = offset(cur, df, dr)->0;
    if p.at(ns) is None {
        let rest = ray_moves(p, from, c, ns, df, dr);
        assert(ms == seq![quiet(from, ns)] + rest);
        if i == 0 {
            assert(m == quiet(from, ns));
            assert forall|s: Sq| s.on_board() && on_ray(cur, s, df, dr) && #[trigger] on_ray(s, ns, df, dr) implies p.at(s) is None by {
            }
        } else {
            assert(rest[i - 1] == m);
            assert(rest.contains(m));
            lemma_ray_member(p, from, c, ns, df, dr, m);
            assert forall|s: Sq| s.on_board() && on_ray(cur, s, df, dr) && #[trigger] on_ray(s, m.to, df, dr) implies p.at(s) is None by {
                if s != ns {
                    assert(on_ray(ns, s, df, dr));
                }
            }
        }
    } else {
        assert(ms[0] == quiet(from, ns));
    }
}

/// A move of a rook, bishop or queen goes to a square it threatens.
proof fn lemma_slider_threatens(p: Position, sq: Sq, c: Color, pc: Piece, dirs: Seq<(int, int)>, m: Move)
    requires
        sq.on_board(),
        p.at(sq) == Some((c, pc)),
        pc == Piece::Rook || pc == Piece::Bishop || pc == Piece::Queen,
        dirs == straight_dirs() || dirs == diagonal_dirs(),
        dirs == straight_dirs() ==> pc != Piece::Bishop,
        dirs == diagonal_dirs() ==> pc != Piece::Rook,
        slider_moves(p, sq, c, dirs).contains(m),
    ensures
        m.from == sq,
        threatens(p, sq, m.to),
{
    lemma_slider_ray(p, sq, c, dirs, m);
    let j = choose|j: int| 0 <= j < dirs.len() && #[trigger] ray_moves(p, sq, c, sq, dirs[j].0, dirs[j].1).contains(m);
    let a = dirs[j].0;
    let b = dirs[j].1;
    assert(is_dir(a, b) && slides_along(pc, a, b)) by {
        if dirs == straight_dirs() {
            assert(0 <= j < 4);
        } else {
            assert(0 <= j < 4);
        }
    }
    lemma_ray_member(p, sq, c, sq, a, b, m);
    assert(on_ray(sq, m.to, a, b));
}

/// A jump by one of `d` moves by that step.
proof fn lemma_leaper_step(p: Position, sq: Sq, c: Color, d: Seq<(int, int)>, m: Move)
    requires
        distinct_steps(d),
        leaper_moves(p, sq, c, d).contains(m),
    ensures
        m.from == sq,
        exists|j: int| 0 <= j < d.len() && m.to.file == sq.file + d[j].0 && m.to.rank == sq.rank + d[j].1,
{
    lemma_leaper_distinct(p, sq, c, d);
    let ms = leaper_moves(p, sq, c, d);
    let i = choose|i: int| 0 <= i < ms.len() && ms[i] == m;
    assert(reached(sq, ms[i].to, d));
    let j = choose|j: int| 0 <= j < d.len() && #[trigger] offset(sq, d[j].0, d[j].1) == Some(m.to);
    assert(m.to.file == sq.file + d[j].0 && m.to.rank == sq.rank + d[j].1);
}

/// A pawn move is a push onto empty squares or a diagonal step forward onto an enemy piece
/// or the en passant square.
proof fn lemma_pawn_follows(p: Position, sq: Sq, c: Color, m: Move)
    requires
        sq.on_board(),
        p.at(sq) == Some((c, Piece::Pawn)),
        piece_moves(p, sq, c, Piece::Pawn).contains(m),
    ensures
        m.from == sq,
        follows_piece(p, m),
{
    let pu = pawn_pushes(p, sq, c);
    let c0 = pawn_capture(p, sq, c, -1);
    let c1 = pawn_capture(p, sq, c, 1);
    let ms = pu + c0 + c1;
    assert(piece_moves(p, sq, c, Piece::Pawn) == ms);
    let i = choose|i: int| 0 <= i < ms.len() && ms[i] == m;
    if i < pu.len() {
        assert(pu[i] == m);
        let to = offset(sq, 0, pawn_dir(c))->0;
        assert(m.to == to || (m.to.rank == sq.rank + 2 * pawn_dir(c) && p.at(m.to) is None));
    } else {
        let df: int = if i < pu.len() + c0.len() { -1 } else { 1 };
        let cm = pawn_capture(p, sq, c, df);
        if i < pu.len() + c0.len() {
            assert(c0[i - pu.len()] == m);
        } else {
            assert(c1[i - pu.len() - c0.len()] == m);
        }
        assert(cm.contains(m));
        let to = offset(sq, df, pawn_dir(c))->0;
        assert(pawn_move(sq, to, c).contains(m));
        let k = choose|k: int| 0 <= k < pawn_move(sq, to, c).len() && pawn_move(sq, to, c)[k] == m;
        assert(m.to == to);
    }
}

/// A king move is a step to a neighbouring square or castling.
proof fn lemma_king_follows(p: Position, sq: Sq, c: Color, m: Move)
    requires
        sq.on_board(),
        p.at(sq) == Some((c, Piece::King)),
        piece_moves(p, sq, c, Piece::King).contains(m),
    ensures
        m.from == sq,
        follows_piece(p, m),
{
    let a = leaper_moves(p, sq, c, king_deltas());
    let b = castle_moves(p, sq, c);
    let ms = a + b;
    assert(piece_moves(p, sq, c, Piece::King) == ms);
    let i = choose|i: int| 0 <= i < ms.len() && ms[i] == m;
    if i < a.len() {
        assert(a[i] == m);
        assert(a.contains(m));
        let d = king_deltas();
        assert(distinct_steps(d));
        lemma_leaper_step(p, sq, c, d, m);
        let j = choose|j: int| 0 <= j < d.len() && m.to.file == sq.file + d[j].0 && m.to.rank == sq.rank + d[j].1;
        assert(threatens(p, sq, m.to));
    } else {
        assert(b[i - a.len()] == m);
    }
}

/// A knight move jumps two squares one way and one the other.
proof fn lemma_knight_follows(p: Position, sq: Sq, c: Color, m: Move)
    requires
        sq.on_board(),
        p.at(sq) == Some((c, Piece::Knight)),
        piece_moves(p, sq, c, Piece::Knight).contains(m),
    ensures
        m.from == sq,
        follows_piece(p, m),
{
    let d = knight_deltas();
    assert(distinct_steps(d));
    lemma_leaper_step(p, sq, c, d, m);
    let j = choose|j: int| 0 <= j < d.len() && m.to.file == sq.file + d[j].0 && m.to.rank == sq.rank + d[j].1;
    assert(threatens(p, sq, m.to));
}

/// Each legal move is one its piece can make on this board: a knight jumps two squares one
/// way and one the other; a king steps to a neighbouring square, or castles from its
/// starting square to the g- or c-square; a rook, bishop or queen slides along one of its
/// lines over empty squares; a pawn pushes straight ahead onto empty squares (two only from
/// its starting rank) or goes one square diagonally forward onto an enemy piece, or en
/// passant onto the empty en passant square past an enemy pawn.
pub proof fn legal_moves_follow_the_pieces(p: Position)
    requires
        p.wf(),
    ensures
        forall|i: int| 0 <= i < legal_moves(p).len() ==> follows_piece(p, #[trigger] legal_moves(p)[i]),
{
    lemma_legal_generated(p);
    assert forall|i: int| 0 <= i < legal_moves(p).len() implies follows_piece(p, #[trigger] legal_moves(p)[i]) by {
        let m = legal_moves(p)[i];
        assert(piece_move_of(p, m));
        let (c, pc) = p.at(m.from).unwrap();
        assert(piece_moves(p, m.from, c, pc).contains(m));
        match pc {
            Piece::Pawn => lemma_pawn_follows(p, m.from, c, m),
            Piece::Knight => lemma_knight_follows(p, m.from, c, m),
            Piece::King => lemma_king_follows(p, m.from, c, m),
            Piece::Bishop => lemma_slider_threatens(p, m.from, c, pc, diagonal_dirs(), m),
            Piece::Rook => lemma_slider_threatens(p, m.from, c, pc, straight_dirs(), m),
            Piece::Queen => {
                let a = slider_moves(p, m.from, c, straight_dirs());
                let b = slider_moves(p, m.from, c, diagonal_dirs());
                assert(piece_moves(p, m.from, c, pc) == a + b);
                let k = choose|k: int| 0 <= k < (a + b).len() && (a + b)[k] == m;
                if k < a.len() {
                    assert(a[k] == m);
                    assert(a.contains(m));
                    lemma_slider_threatens(p, m.from, c, pc, straight_dirs(), m);
                } else {
                    assert(b[k - a.len()] == m);
                    assert(b.contains(m));
                    lemma_slider_threatens(p, m.from, c, pc, diagonal_dirs(), m);
                }
            },
        }
    }
}

} // verus!
