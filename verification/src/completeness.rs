//! Every move the rules allow is generated: what each piece may do, stated geometrically,
//! is found among the generated moves, and among the legal ones when it keeps the king safe.
use vstd::prelude::*;
use crate::types::{Color, Piece, Sq, Move};
use crate::types::offset;
use crate::rules::{Position, apply, in_check, legal_moves, pawn_capture, pawn_moves, pawn_pushes,
    piece_moves, pseudo_moves, pseudo_prefix, square_moves, sq_at, promotions, pawn_move, enterable,
    leaper_moves, quiet, knight_deltas, king_deltas, castle_moves, pawn_dir, promotion_rank, attacked, home_sq,
    is_dir, ray_moves, slider_moves, steps_left, straight_dirs, diagonal_dirs};
use crate::distinct::on_ray;
use crate::attack::lemma_sq_at;
use crate::laws::legal_moves_are_the_safe_moves;

verus! {

pub proof fn lemma_contains_left(a: Seq<Move>, b: Seq<Move>, x: Move)
    requires
        a.contains(x),
    ensures
        (a + b).contains(x),
{
    let i = choose|i: int| 0 <= i < a.len() && a[i] == x;
    assert((a + b)[i] == x);
}

pub proof fn lemma_contains_right(a: Seq<Move>, b: Seq<Move>, x: Move)
    requires
        b.contains(x),
    ensures
        (a + b).contains(x),
{
    let i = choose|i: int| 0 <= i < b.len() && b[i] == x;
    assert((a + b)[a.len() + i] == x);
}

proof fn lemma_prefix_contains(p: Position, n: int, k: int, m: Move)
    requires
        0 <= k < n,
        square_moves(p, k).contains(m),
    ensures
        pseudo_prefix(p, n).contains(m),
    decreases n,
{
    if k == n - 1 {
        lemma_contains_right(pseudo_prefix(p, n - 1), square_moves(p, n - 1), m);
    } else {
        lemma_prefix_contains(p, n - 1, k, m);
        lemma_contains_left(pseudo_prefix(p, n - 1), square_moves(p, n - 1), m);
    }
}

/// A move of a piece of the side to move is generated.
pub proof fn lemma_piece_move_generated(p: Position, sq: Sq, pc: Piece, m: Move)
    requires
        p.wf(),
        sq.on_board(),
        p.at(sq) == Some((p.turn, pc)),
        piece_moves(p, sq, p.turn, pc).contains(m),
    ensures
        pseudo_moves(p).contains(m),
{
    lemma_sq_at(sq.rank as int, sq.file as int);
    assert(sq_at(sq.index()) == sq);
    assert(square_moves(p, sq.index()) == piece_moves(p, sq, p.turn, pc));
    lemma_prefix_contains(p, 64, sq.index(), m);
}

/// A generated move that keeps the king safe is legal.
pub proof fn lemma_safe_generated_is_legal(p: Position, m: Move)
    requires
        pseudo_moves(p).contains(m),
        !in_check(apply(p, m), p.turn),
    ensures
        legal_moves(p).contains(m),
{
    legal_moves_are_the_safe_moves(p);
    let i = choose|i: int| 0 <= i < pseudo_moves(p).len() && pseudo_moves(p)[i] == m;
}

/// A pawn of the side to move that has an enemy piece diagonally in front of it, on either
/// side, may take it: on the last rank once for each of queen, rook, bishop and knight,
/// elsewhere once without promotion. Each of these moves is generated, and is legal when
/// it does not leave the king in check.
pub proof fn pawn_captures_are_generated(p: Position, sq: Sq, to: Sq, promotion: Option<Piece>)
    requires
        p.wf(),
        sq.on_board(),
        to.on_board(),
        p.at(sq) == Some((p.turn, Piece::Pawn)),
        to.file == sq.file + 1 || to.file + 1 == sq.file,
        to.rank == sq.rank + (if p.turn == Color::White { 1int } else { -1int }),
        p.at(to) matches Some((o, _)) && o != p.turn,
        if to.rank == (if p.turn == Color::White { 7u8 } else { 0u8 }) {
            promotion == Some(Piece::Queen) || promotion == Some(Piece::Rook) || promotion == Some(
                Piece::Bishop,
            ) || promotion == Some(Piece::Knight)
        } else {
            promotion is None
        },
    ensures
        pseudo_moves(p).contains(Move { from: sq, to, promotion }),
        !in_check(apply(p, Move { from: sq, to, promotion }), p.turn) ==> legal_moves(p).contains(
            Move { from: sq, to, promotion },
        ),
{
    let c = p.turn;
    let m = Move { from: sq, to, promotion };
    let df: int = to.file - sq.file;
    let pm = pawn_move(sq, to, c);
    if to.rank == (if c == Color::White { 7u8 } else { 0u8 }) {
        let ps = promotions(sq, to);
        assert(pm == ps);
        if promotion == Some(Piece::Queen) {
            assert(ps[0] == m);
        } else if promotion == Some(Piece::Rook) {
            assert(ps[1] == m);
        } else if promotion == Some(Piece::Bishop) {
            assert(ps[2] == m);
        } else {
            assert(ps[3] == m);
        }
    } else {
        assert(pm[0] == m);
    }
    assert(pm.contains(m));
    let pu = pawn_pushes(p, sq, c);
    let c0 = pawn_capture(p, sq, c, -1);
    let c1 = pawn_capture(p, sq, c, 1);
    assert(pawn_moves(p, sq, c) == pu + c0 + c1);
    if df == -1 {
        assert(c0 == pm);
        lemma_contains_right(pu, c0, m);
        lemma_contains_left(pu + c0, c1, m);
    } else {
        assert(c1 == pm);
        lemma_contains_right(pu + c0, c1, m);
    }
    lemma_piece_move_generated(p, sq, Piece::Pawn, m);
    if !in_check(apply(p, m), c) {
        lemma_safe_generated_is_legal(p, m);
    }
}

/// A move of a piece of the side to move is generated, and legal when it keeps the king safe.
proof fn lemma_move_listed(p: Position, sq: Sq, pc: Piece, m: Move)
    requires
        p.wf(),
        sq.on_board(),
        p.at(sq) == Some((p.turn, pc)),
        piece_moves(p, sq, p.turn, pc).contains(m),
    ensures
        pseudo_moves(p).contains(m),
        !in_check(apply(p, m), p.turn) ==> legal_moves(p).contains(m),
{
    lemma_piece_move_generated(p, sq, pc, m);
    if !in_check(apply(p, m), p.turn) {
        lemma_safe_generated_is_legal(p, m);
    }
}

/// A jump by one of `d` onto a square the piece may enter is among its moves.
proof fn lemma_leaper_contains(p: Position, sq: Sq, c: Color, d: Seq<(int, int)>, j: int, t: Sq)
    requires
        0 <= j < d.len(),
        offset(sq, d[j].0, d[j].1) == Some(t),
        enterable(p, t, c),
    ensures
        leaper_moves(p, sq, c, d).contains(quiet(sq, t)),
    decreases d.len(),
{
    let prev = leaper_moves(p, sq, c, d.drop_last());
    if j == d.len() - 1 {
        assert(d.last() == d[j]);
        let ms = leaper_moves(p, sq, c, d);
        assert(ms == prev.push(quiet(sq, t)));
        assert(ms[ms.len() - 1] == quiet(sq, t));
    } else {
        assert(d.drop_last()[j] == d[j]);
        lemma_leaper_contains(p, sq, c, d.drop_last(), j, t);
        let i = choose|i: int| 0 <= i < prev.len() && prev[i] == quiet(sq, t);
        let ms = leaper_moves(p, sq, c, d);
        assert(ms[i] == quiet(sq, t));
    }
}

/// The target square holds no piece of `c`.
pub open spec fn free_for(p: Position, t: Sq, c: Color) -> bool {
    !(p.at(t) matches Some((x, _)) && x == c)
}

/// A knight of the side to move may jump two squares one way and one the other, onto a
/// square without a piece of its own; the move is generated, and legal when it keeps the
/// king safe.
pub proof fn knight_moves_are_generated(p: Position, sq: Sq, t: Sq)
    requires
        p.wf(),
        sq.on_board(),
        t.on_board(),
        p.at(sq) == Some((p.turn, Piece::Knight)),
        ((t.file - sq.file == 1 || sq.file - t.file == 1) && (t.rank - sq.rank == 2 || sq.rank
            - t.rank == 2)) || ((t.file - sq.file == 2 || sq.file - t.file == 2) && (t.rank
            - sq.rank == 1 || sq.rank - t.rank == 1)),
        free_for(p, t, p.turn),
    ensures
        pseudo_moves(p).contains(quiet(sq, t)),
        !in_check(apply(p, quiet(sq, t)), p.turn) ==> legal_moves(p).contains(quiet(sq, t)),
{
    let d = knight_deltas();
    let df = t.file - sq.file;
    let dr = t.rank - sq.rank;
    let j: int = if df == -2 && dr == -1 { 0 } else if df == -2 && dr == 1 { 1 } else if df == -1
        && dr == -2 { 2 } else if df == -1 && dr == 2 { 3 } else if df == 1 && dr == -2 { 4 } else if df
        == 1 && dr == 2 { 5 } else if df == 2 && dr == -1 { 6 } else { 7 };
    assert(d[j] == (df, dr));
    assert(offset(sq, d[j].0, d[j].1) == Some(t));
    lemma_leaper_contains(p, sq, p.turn, d, j, t);
    lemma_move_listed(p, sq, Piece::Knight, quiet(sq, t));
}

/// A king of the side to move may step to any neighbouring square without a piece of its
/// own; the move is generated, and legal when it keeps the king safe.
pub proof fn king_steps_are_generated(p: Position, sq: Sq, t: Sq)
    requires
        p.wf(),
        sq.on_board(),
        t.on_board(),
        p.at(sq) == Some((p.turn, Piece::King)),
        -1 <= t.file - sq.file <= 1,
        -1 <= t.rank - sq.rank <= 1,
        t != sq,
        free_for(p, t, p.turn),
    ensures
        pseudo_moves(p).contains(quiet(sq, t)),
        !in_check(apply(p, quiet(sq, t)), p.turn) ==> legal_moves(p).contains(quiet(sq, t)),
{
    let d = king_deltas();
    let df = t.file - sq.file;
    let dr = t.rank - sq.rank;
    let j: int = if df == -1 { dr + 1 } else if df == 0 { if dr == -1 { 3 } else { 4 } } else { dr + 6 };
    assert(d[j] == (df, dr));
    assert(offset(sq, d[j].0, d[j].1) == Some(t));
    lemma_leaper_contains(p, sq, p.turn, d, j, t);
    lemma_contains_left(leaper_moves(p, sq, p.turn, d), castle_moves(p, sq, p.turn), quiet(sq, t));
    lemma_move_listed(p, sq, Piece::King, quiet(sq, t));
}

/// A pawn of the side to move may advance one square onto an empty square: on the last
/// rank once for each of queen, rook, bishop and knight, elsewhere once without promotion;
/// and from its starting rank two squares when both are empty. These moves are generated,
/// and legal when they keep the king safe.
pub proof fn pawn_pushes_are_generated(p: Position, sq: Sq, t: Sq, promotion: Option<Piece>)
    requires
        p.wf(),
        sq.on_board(),
        t.on_board(),
        p.at(sq) == Some((p.turn, Piece::Pawn)),
        t.file == sq.file,
        ({
            let dir: int = if p.turn == Color::White { 1 } else { -1 };
            ||| t.rank == sq.rank + dir && p.at(t) is None
            ||| (t.rank == sq.rank + 2 * dir && sq.rank == (if p.turn == Color::White { 1u8 } else { 6u8 })
                && p.at(t) is None && p.at(Sq { file: sq.file, rank: (sq.rank + dir) as u8 }) is None)
        }),
        if t.rank == (if p.turn == Color::White { 7u8 } else { 0u8 }) {
            promotion == Some(Piece::Queen) || promotion == Some(Piece::Rook) || promotion == Some(
                Piece::Bishop,
            ) || promotion == Some(Piece::Knight)
        } else {
            promotion is None
        },
    ensures
        pseudo_moves(p).contains(Move { from: sq, to: t, promotion }),
        !in_check(apply(p, Move { from: sq, to: t, promotion }), p.turn) ==> legal_moves(p).contains(
            Move { from: sq, to: t, promotion },
        ),
{
    let c = p.turn;
    let m = Move { from: sq, to: t, promotion };
    let dir = pawn_dir(c);
    let pu = pawn_pushes(p, sq, c);
    let one = Sq { file: sq.file, rank: (sq.rank + dir) as u8 };
    assert(offset(sq, 0, dir) == Some(one));
    if t.rank == sq.rank + dir {
        assert(t == one);
        if t.rank == promotion_rank(c) {
            let ps = promotions(sq, t);
            assert(pu == ps);
            if promotion == Some(Piece::Queen) {
                assert(ps[0] == m);
            } else if promotion == Some(Piece::Rook) {
                assert(ps[1] == m);
            } else if promotion == Some(Piece::Bishop) {
                assert(ps[2] == m);
            } else {
                assert(ps[3] == m);
            }
        } else {
            assert(pu[0] == m);
        }
    } else {
        assert(offset(sq, 0, 2 * dir) == Some(t));
        assert(one.rank != promotion_rank(c));
        assert(pu[1] == m);
    }
    assert(pu.contains(m));
    let c0 = pawn_capture(p, sq, c, -1);
    let c1 = pawn_capture(p, sq, c, 1);
    assert(pawn_moves(p, sq, c) == pu + c0 + c1);
    lemma_contains_left(pu, c0, m);
    lemma_contains_left(pu + c0, c1, m);
    lemma_move_listed(p, sq, Piece::Pawn, m);
}

/// A pawn of the side to move beside an enemy pawn may take it en passant: moving
/// diagonally forward onto the empty en passant square behind that pawn (promoting, should
/// that square lie on the last rank). The move is generated, and legal when it keeps the
/// king safe.
pub proof fn en_passant_is_generated(p: Position, sq: Sq, t: Sq, promotion: Option<Piece>)
    requires
        p.wf(),
        sq.on_board(),
        t.on_board(),
        p.at(sq) == Some((p.turn, Piece::Pawn)),
        t.file == sq.file + 1 || t.file + 1 == sq.file,
        t.rank == sq.rank + (if p.turn == Color::White { 1int } else { -1int }),
        p.en_passant == Some(t),
        p.at(t) is None,
        p.at(Sq { file: t.file, rank: sq.rank }) == Some((p.turn.flip(), Piece::Pawn)),
        if t.rank == (if p.turn == Color::White { 7u8 } else { 0u8 }) {
            promotion == Some(Piece::Queen) || promotion == Some(Piece::Rook) || promotion == Some(
                Piece::Bishop,
            ) || promotion == Some(Piece::Knight)
        } else {
            promotion is None
        },
    ensures
        pseudo_moves(p).contains(Move { from: sq, to: t, promotion }),
        !in_check(apply(p, Move { from: sq, to: t, promotion }), p.turn) ==> legal_moves(p).contains(
            Move { from: sq, to: t, promotion },
        ),
{
    let c = p.turn;
    let m = Move { from: sq, to: t, promotion };
    let pm = pawn_move(sq, t, c);
    if t.rank == promotion_rank(c) {
        let ps = promotions(sq, t);
        assert(pm == ps);
        if promotion == Some(Piece::Queen) {
            assert(ps[0] == m);
        } else if promotion == Some(Piece::Rook) {
            assert(ps[1] == m);
        } else if promotion == Some(Piece::Bishop) {
            assert(ps[2] == m);
        } else {
            assert(ps[3] == m);
        }
    } else {
        assert(pm[0] == m);
    }
    assert(pm.contains(m));
    let pu = pawn_pushes(p, sq, c);
    let c0 = pawn_capture(p, sq, c, -1);
    let c1 = pawn_capture(p, sq, c, 1);
    assert(pawn_moves(p, sq, c) == pu + c0 + c1);
    if t.file + 1 == sq.file {
        assert(c0 == pm);
        lemma_contains_right(pu, c0, m);
        lemma_contains_left(pu + c0, c1, m);
    } else {
        assert(c1 == pm);
        lemma_contains_right(pu + c0, c1, m);
    }
    lemma_move_listed(p, sq, Piece::Pawn, m);
}

/// The side to move may castle kingside when its king stands on its e-square, is not in
/// check, holds the kingside right, its rook stands on the h-square, the f- and g-squares
/// are empty and not attacked; and queenside likewise with the rook on the a-square, the
/// b-, c- and d-squares empty and the c- and d-squares not attacked. The castling move is
/// generated, and legal when it keeps the king safe.
pub proof fn castling_is_generated(p: Position, kingside: bool)
    requires
        p.wf(),
        ({
            let c = p.turn;
            let r: u8 = if c == Color::White { 0u8 } else { 7u8 };
            let rook = Some((c, Piece::Rook));
            &&& p.at(Sq { file: 4, rank: r }) == Some((c, Piece::King))
            &&& !in_check(p, c)
            &&& kingside ==> {
                &&& p.castling[if c == Color::White { 0int } else { 2int }]
                &&& p.at(Sq { file: 7, rank: r }) == rook
                &&& p.at(Sq { file: 5, rank: r }) is None
                &&& p.at(Sq { file: 6, rank: r }) is None
                &&& !attacked(p, Sq { file: 5, rank: r }, c.flip())
                &&& !attacked(p, Sq { file: 6, rank: r }, c.flip())
            }
            &&& !kingside ==> {
                &&& p.castling[if c == Color::White { 1int } else { 3int }]
                &&& p.at(Sq { file: 0, rank: r }) == rook
                &&& p.at(Sq { file: 3, rank: r }) is None
                &&& p.at(Sq { file: 2, rank: r }) is None
                &&& p.at(Sq { file: 1, rank: r }) is None
                &&& !attacked(p, Sq { file: 3, rank: r }, c.flip())
                &&& !attacked(p, Sq { file: 2, rank: r }, c.flip())
            }
        }),
    ensures
        ({
            let r: u8 = if p.turn == Color::White { 0u8 } else { 7u8 };
            let m = quiet(Sq { file: 4, rank: r }, Sq { file: if kingside { 6u8 } else { 2u8 }, rank: r });
            &&& pseudo_moves(p).contains(m)
            &&& !in_check(apply(p, m), p.turn) ==> legal_moves(p).contains(m)
        }),
{
    let c = p.turn;
    let r: u8 = if c == Color::White { 0u8 } else { 7u8 };
    let sq = Sq { file: 4, rank: r };
    let m = quiet(sq, Sq { file: if kingside { 6u8 } else { 2u8 }, rank: r });
    let cm = castle_moves(p, sq, c);
    assert(sq == home_sq(c, 4));
    if kingside {
        assert(cm[0] == m);
    } else {
        let ks = if p.castling[crate::rules::kingside(c)] && p.at(home_sq(c, 7)) == Some((c, Piece::Rook))
            && p.at(home_sq(c, 5)) is None && p.at(home_sq(c, 6)) is None && !attacked(
            p,
            home_sq(c, 5),
            c.flip(),
        ) && !attacked(p, home_sq(c, 6), c.flip()) {
            seq![quiet(sq, home_sq(c, 6))]
        } else {
            Seq::empty()
        };
        assert(cm[ks.len() as int] == m);
    }
    assert(cm.contains(m));
    lemma_contains_right(leaper_moves(p, sq, c, king_deltas()), cm, m);
    lemma_move_listed(p, sq, Piece::King, m);
}

/// Every square strictly between `a` and `b` on the line in direction `(df, dr)` is empty.
pub open spec fn clear_between(p: Position, a: Sq, b: Sq, df: int, dr: int) -> bool {
    forall|s: Sq| s.on_board() && on_ray(a, s, df, dr) && #[trigger] on_ray(s, b, df, dr) ==> p.at(s) is None
}

proof fn lemma_ray_contains(p: Position, from: Sq, c: Color, cur: Sq, df: int, dr: int, t: Sq)
    requires
        is_dir(df, dr),
        cur.on_board(),
        t.on_board(),
        on_ray(cur, t, df, dr),
        clear_between(p, cur, t, df, dr),
        enterable(p, t, c),
    ensures
        ray_moves(p, from, c, cur, df, dr).contains(quiet(from, t)),
    decreases steps_left(cur, df, dr),
{
    let ns = Sq { file: (cur.file + df) as u8, rank: (cur.rank + dr) as u8 };
    assert(offset(cur, df, dr) == Some(ns));
    let ms = ray_moves(p, from, c, cur, df, dr);
    if ns == t {
        assert(ms[0] == quiet(from, t));
    } else {
        assert(on_ray(ns, t, df, dr));
        assert(on_ray(cur, ns, df, dr));
        assert(p.at(ns) is None);
        assert forall|s: Sq| s.on_board() && on_ray(ns, s, df, dr) && #[trigger] on_ray(s, t, df, dr) implies p.at(s) is None by {
            assert(on_ray(cur, s, df, dr));
        }
        lemma_ray_contains(p, from, c, ns, df, dr, t);
        let rest = ray_moves(p, from, c, ns, df, dr);
        assert(ms == seq![quiet(from, ns)] + rest);
        lemma_contains_right(seq![quiet(from, ns)], rest, quiet(from, t));
    }
}

proof fn lemma_slider_contains(p: Position, sq: Sq, c: Color, dirs: Seq<(int, int)>, j: int, m: Move)
    requires
        0 <= j < dirs.len(),
        ray_moves(p, sq, c, sq, dirs[j].0, dirs[j].1).contains(m),
    ensures
        slider_moves(p, sq, c, dirs).contains(m),
    decreases dirs.len(),
{
    let dl = dirs.drop_last();
    let a = slider_moves(p, sq, c, dl);
    let b = ray_moves(p, sq, c, sq, dirs.last().0, dirs.last().1);
    assert(slider_moves(p, sq, c, dirs) == a + b);
    if j == dirs.len() - 1 {
        lemma_contains_right(a, b, m);
    } else {
        assert(dl[j] == dirs[j]);
        lemma_slider_contains(p, sq, c, dl, j, m);
        lemma_contains_left(a, b, m);
    }
}

/// A rook, bishop or queen of the side to move may slide along its lines (files and ranks
/// for rook and queen, diagonals for bishop and queen) over empty squares onto a square
/// without a piece of its own. The move is generated, and legal when it keeps the king safe.
pub proof fn slider_moves_are_generated(p: Position, sq: Sq, t: Sq, df: int, dr: int)
    requires
        p.wf(),
        sq.on_board(),
        t.on_board(),
        p.at(sq) matches Some((c, pc)) && c == p.turn && ({
            ||| (pc == Piece::Rook || pc == Piece::Queen) && (df == 0 || dr == 0)
            ||| (pc == Piece::Bishop || pc == Piece::Queen) && df != 0 && dr != 0
        }),
        is_dir(df, dr),
        on_ray(sq, t, df, dr),
        clear_between(p, sq, t, df, dr),
        free_for(p, t, p.turn),
    ensures
        pseudo_moves(p).contains(quiet(sq, t)),
        !in_check(apply(p, quiet(sq, t)), p.turn) ==> legal_moves(p).contains(quiet(sq, t)),
{
    let c = p.turn;
    let (_, pc) = p.at(sq).unwrap();
    let m = quiet(sq, t);
    lemma_ray_contains(p, sq, c, sq, df, dr, t);
    let sd = straight_dirs();
    let dd = diagonal_dirs();
    if df == 0 || dr == 0 {
        let j: int = if df == 1 { 0 } else if df == -1 { 1 } else if dr == 1 { 2 } else { 3 };
        assert(sd[j] == (df, dr));
        lemma_slider_contains(p, sq, c, sd, j, m);
        if pc == Piece::Queen {
            lemma_contains_left(slider_moves(p, sq, c, sd), slider_moves(p, sq, c, dd), m);
        }
    } else {
        let j: int = if df == 1 && dr == 1 { 0 } else if df == 1 { 1 } else if dr == 1 { 2 } else { 3 };
        assert(dd[j] == (df, dr));
        lemma_slider_contains(p, sq, c, dd, j, m);
        if pc == Piece::Queen {
            lemma_contains_right(slider_moves(p, sq, c, sd), slider_moves(p, sq, c, dd), m);
        }
    }
    lemma_move_listed(p, sq, pc, m);
}

} // verus!
