//! What a move does to each square, and facts about generated moves that a consistent
//! position needs to stay consistent.
use vstd::prelude::*;
use crate::types::{Color, Piece, Sq, Move, offset};
use crate::rules::{Cell, Position, apply, apply_ok, attacked, castle_moves, diagonal_dirs, holds,
    home_sq, is_dir, king_deltas, knight_deltas, landing, leaper_hit, leaper_moves,
    pawn_capture, pawn_dir, pawn_pushes, piece_moves, quiet, ray_moves, slider_attack, slider_hit,
    slider_moves, steps_left, straight_dirs, pawn_moves, pawn_rank, king_search, find_king, sq_at, kingside, queenside, in_check, enterable, promotion_rank};
use crate::generated::lemma_sq_at_index;
use crate::attack::lemma_sq_at;
use crate::distinct::{distinct_steps, lemma_leaper_distinct, reached};

verus! {

/// What square `s` holds after `mv`.
pub open spec fn after(p: Position, mv: Move, s: Sq) -> Cell {
    let mover = p.at(mv.from);
    if s == mv.to {
        match mover {
            Some((c, Piece::Pawn)) => landing(mover, c, mv.promotion),
            _ => mover,
        }
    } else if s == mv.from {
        None
    } else {
        match mover {
            Some((c, Piece::Pawn)) => if mv.from.file != mv.to.file && p.at(mv.to) is None && s == (Sq {
                file: mv.to.file,
                rank: (mv.to.rank - pawn_dir(c)) as u8,
            }) {
                None
            } else {
                p.at(s)
            },
            Some((c, Piece::King)) => if mv.from == home_sq(c, 4) && mv.to == home_sq(c, 6) && s
                == home_sq(c, 7) {
                None
            } else if mv.from == home_sq(c, 4) && mv.to == home_sq(c, 6) && s == home_sq(c, 5) {
                Some((c, Piece::Rook))
            } else if mv.from == home_sq(c, 4) && mv.to == home_sq(c, 2) && s == home_sq(c, 0) {
                None
            } else if mv.from == home_sq(c, 4) && mv.to == home_sq(c, 2) && s == home_sq(c, 3) {
                Some((c, Piece::Rook))
            } else {
                p.at(s)
            },
            _ => p.at(s),
        }
    }
}

/// Squares on the board are equal exactly when their indices are.
pub proof fn lemma_index_injective(a: Sq, b: Sq)
    requires
        a.on_board(),
        b.on_board(),
    ensures
        (a.index() == b.index()) == (a == b),
{
}

/// Each square after a move holds what `after` says.
pub proof fn lemma_after(p: Position, mv: Move, s: Sq)
    requires
        p.wf(),
        apply_ok(p, mv),
        s.on_board(),
    ensures
        apply(p, mv).at(s) == after(p, mv, s),
{
    lemma_index_injective(s, mv.to);
    lemma_index_injective(s, mv.from);
    match p.at(mv.from) {
        Some((c, Piece::Pawn)) => {
            if mv.from.file != mv.to.file && p.at(mv.to) is None {
                let v = Sq { file: mv.to.file, rank: (mv.to.rank - pawn_dir(c)) as u8 };
                lemma_index_injective(s, v);
                lemma_index_injective(v, mv.to);
                lemma_index_injective(v, mv.from);
            }
        },
        Some((c, Piece::King)) => {
            lemma_index_injective(s, home_sq(c, 7));
            lemma_index_injective(s, home_sq(c, 5));
            lemma_index_injective(s, home_sq(c, 0));
            lemma_index_injective(s, home_sq(c, 3));
        },
        _ => {},
    }
}

/// The first piece met on a line counts as a slider of `by` for that line.
pub open spec fn first_hit(cell: Cell, by: Color, diagonal: bool) -> bool {
    match cell {
        Some((c, pc)) => c == by && (pc == Piece::Queen || pc == (if diagonal {
            Piece::Bishop
        } else {
            Piece::Rook
        })),
        None => false,
    }
}

/// Walking back from a square that a slider on `from` reaches along `(df, dr)` past `cur`,
/// the first piece met is the one met walking back from `cur`, or the slider itself when
/// `cur` is its square.
proof fn lemma_ray_back(
    p: Position,
    from: Sq,
    c: Color,
    cur: Sq,
    df: int,
    dr: int,
    by: Color,
    diagonal: bool,
    m: Move,
)
    requires
        is_dir(df, dr),
        cur.on_board(),
        p.at(from) is Some,
        cur == from || p.at(cur) is None,
        ray_moves(p, from, c, cur, df, dr).contains(m),
    ensures
        slider_hit(p, m.to, -df, -dr, by, diagonal) == if cur == from {
            first_hit(p.at(from), by, diagonal)
        } else {
            slider_hit(p, cur, -df, -dr, by, diagonal)
        },
    decreases steps_left(cur, df, dr),
{
    let ms = ray_moves(p, from, c, cur, df, dr);
    let ns = offset(cur, df, dr)->0;
    assert(offset(ns, -df, -dr) == Some(cur));
    if p.at(ns) is None {
        let rest = ray_moves(p, from, c, ns, df, dr);
        assert(ms == seq![quiet(from, ns)] + rest);
        let i = choose|i: int| 0 <= i < ms.len() && ms[i] == m;
        if i > 0 {
            assert(rest[i - 1] == m);
            assert(rest.contains(m));
            lemma_ray_back(p, from, c, ns, df, dr, by, diagonal, m);
        }
    }
}

/// A move of a slider lies on one of its lines.
pub(crate) proof fn lemma_slider_ray(p: Position, sq: Sq, c: Color, dirs: Seq<(int, int)>, m: Move)
    requires
        slider_moves(p, sq, c, dirs).contains(m),
    ensures
        exists|j: int| 0 <= j < dirs.len() && #[trigger] ray_moves(p, sq, c, sq, dirs[j].0, dirs[j].1).contains(m),
    decreases dirs.len(),
{
    let dl = dirs.drop_last();
    let a = slider_moves(p, sq, c, dl);
    let b = ray_moves(p, sq, c, sq, dirs.last().0, dirs.last().1);
    assert(slider_moves(p, sq, c, dirs) == a + b);
    let i = choose|i: int| 0 <= i < (a + b).len() && (a + b)[i] == m;
    if i < a.len() {
        assert(a[i] == m);
        assert(a.contains(m));
        lemma_slider_ray(p, sq, c, dl, m);
        let j = choose|j: int| 0 <= j < dl.len() && #[trigger] ray_moves(p, sq, c, sq, dl[j].0, dl[j].1).contains(m);
        assert(dirs[j] == dl[j]);
    } else {
        assert(b[i - a.len()] == m);
        assert(b.contains(m));
        assert(dirs[dirs.len() - 1] == dirs.last());
    }
}

/// A slider on `sq` attacks each enemy piece it can move onto.
proof fn lemma_slider_capture(p: Position, sq: Sq, c: Color, pc: Piece, dirs: Seq<(int, int)>, diagonal: bool, m: Move)
    requires
        sq.on_board(),
        p.at(sq) == Some((c, pc)),
        first_hit(Some((c, pc)), c, diagonal),
        dirs == (if diagonal { diagonal_dirs() } else { straight_dirs() }),
        slider_moves(p, sq, c, dirs).contains(m),
    ensures
        slider_attack(p, m.to, c, dirs, diagonal),
{
    lemma_slider_ray(p, sq, c, dirs, m);
    let j = choose|j: int| 0 <= j < dirs.len() && #[trigger] ray_moves(p, sq, c, sq, dirs[j].0, dirs[j].1).contains(m);
    let k = if diagonal { 3 - j } else if j == 0 { 1 } else if j == 1 { 0 } else if j == 2 { 3 } else { 2 };
    assert(dirs[k].0 == -dirs[j].0 && dirs[k].1 == -dirs[j].1);
    assert(is_dir(dirs[j].0, dirs[j].1));
    lemma_ray_back(p, sq, c, sq, dirs[j].0, dirs[j].1, c, diagonal, m);
    assert(slider_hit(p, m.to, dirs[k].0, dirs[k].1, c, diagonal));
}

/// A leaper on `sq` attacks each enemy piece it can jump onto, when its steps come in
/// opposite pairs `d[j]`, `d[7 - j]`.
proof fn lemma_leaper_capture(p: Position, sq: Sq, c: Color, pc: Piece, d: Seq<(int, int)>, m: Move)
    requires
        sq.on_board(),
        p.at(sq) == Some((c, pc)),
        d.len() == 8,
        distinct_steps(d),
        forall|j: int| 0 <= j < 8 ==> #[trigger] d[7 - j] == (-d[j].0, -d[j].1),
        leaper_moves(p, sq, c, d).contains(m),
    ensures
        leaper_hit(p, m.to, c, pc, d),
{
    lemma_leaper_distinct(p, sq, c, d);
    let ms = leaper_moves(p, sq, c, d);
    let i = choose|i: int| 0 <= i < ms.len() && ms[i] == m;
    assert(reached(sq, ms[i].to, d));
    let j = choose|j: int| 0 <= j < d.len() && #[trigger] offset(sq, d[j].0, d[j].1) == Some(m.to);
    assert(d[7 - j] == (-d[j].0, -d[j].1));
    assert(offset(m.to, d[7 - j].0, d[7 - j].1) == Some(sq));
    assert(holds(p, offset(m.to, d[7 - j].0, d[7 - j].1), c, pc));
}

/// A piece attacks each enemy piece it can move onto.
pub proof fn lemma_capture_attacks(p: Position, sq: Sq, c: Color, pc: Piece, m: Move)
    requires
        sq.on_board(),
        p.at(sq) == Some((c, pc)),
        piece_moves(p, sq, c, pc).contains(m),
        p.at(m.to) matches Some((o, _)) && o != c,
    ensures
        attacked(p, m.to, c),
{
    let kd = knight_deltas();
    let gd = king_deltas();
    assert(forall|j: int| 0 <= j < 8 ==> #[trigger] kd[7 - j] == (-kd[j].0, -kd[j].1));
    assert(forall|j: int| 0 <= j < 8 ==> #[trigger] gd[7 - j] == (-gd[j].0, -gd[j].1));
    assert(distinct_steps(kd));
    assert(distinct_steps(gd));
    let ms = piece_moves(p, sq, c, pc);
    let i = choose|i: int| 0 <= i < ms.len() && ms[i] == m;
    match pc {
        Piece::Knight => lemma_leaper_capture(p, sq, c, pc, kd, m),
        Piece::King => {
            let a = leaper_moves(p, sq, c, gd);
            let b = castle_moves(p, sq, c);
            assert(ms == a + b);
            if i < a.len() {
                assert(a[i] == m);
                assert(a.contains(m));
                lemma_leaper_capture(p, sq, c, pc, gd, m);
            } else {
                assert(b[i - a.len()] == m);
            }
        },
        Piece::Bishop => lemma_slider_capture(p, sq, c, pc, diagonal_dirs(), true, m),
        Piece::Rook => lemma_slider_capture(p, sq, c, pc, straight_dirs(), false, m),
        Piece::Queen => {
            let a = slider_moves(p, sq, c, straight_dirs());
            let b = slider_moves(p, sq, c, diagonal_dirs());
            assert(ms == a + b);
            if i < a.len() {
                assert(a[i] == m);
                assert(a.contains(m));
                lemma_slider_capture(p, sq, c, pc, straight_dirs(), false, m);
            } else {
                assert(b[i - a.len()] == m);
                assert(b.contains(m));
                lemma_slider_capture(p, sq, c, pc, diagonal_dirs(), true, m);
            }
        },
        Piece::Pawn => {
            let pu = pawn_pushes(p, sq, c);
            let c0 = pawn_capture(p, sq, c, -1);
            let c1 = pawn_capture(p, sq, c, 1);
            assert(ms == pu + c0 + c1);
            if i < pu.len() {
                assert(pu[i] == m);
            } else if i < pu.len() + c0.len() {
                assert(c0[i - pu.len()] == m);
                assert(offset(m.to, 1, -pawn_dir(c)) == Some(sq));
            } else {
                assert(c1[i - pu.len() - c0.len()] == m);
                assert(offset(m.to, -1, -pawn_dir(c)) == Some(sq));
            }
        },
    }
}

/// A pawn move advances one rank, or two from the pawn's starting rank across an empty
/// square without promoting; a pawn that changes file onto an empty square passes an enemy
/// pawn beside it.
pub proof fn lemma_pawn_shape(p: Position, sq: Sq, c: Color, m: Move)
    requires
        sq.on_board(),
        pawn_moves(p, sq, c).contains(m),
    ensures
        m.to.rank == sq.rank + pawn_dir(c) || (m.to.file == sq.file && sq.rank == pawn_rank(c)
            && m.to.rank == sq.rank + 2 * pawn_dir(c) && p.at(
            Sq { file: sq.file, rank: (sq.rank + pawn_dir(c)) as u8 },
        ) is None && m.promotion is None),
        m.from.file != m.to.file && p.at(m.to) is None ==> p.at(Sq { file: m.to.file, rank: sq.rank })
            == Some((c.flip(), Piece::Pawn)),
{
    let ms = pawn_moves(p, sq, c);
    let pu = pawn_pushes(p, sq, c);
    let c0 = pawn_capture(p, sq, c, -1);
    let c1 = pawn_capture(p, sq, c, 1);
    assert(ms == pu + c0 + c1);
    let i = choose|i: int| 0 <= i < ms.len() && ms[i] == m;
    if i < pu.len() {
        assert(pu[i] == m);
    } else if i < pu.len() + c0.len() {
        assert(c0[i - pu.len()] == m);
    } else {
        assert(c1[i - pu.len() - c0.len()] == m);
    }
}

/// `k` is the one square holding the king of `c`.
pub open spec fn king_at(p: Position, c: Color, k: Sq) -> bool {
    &&& k.on_board()
    &&& p.at(k) == Some((c, Piece::King))
    &&& forall|t: Sq| t.on_board() && t != k ==> p.at(t) != Some((c, Piece::King))
}

/// `c` has exactly one king.
pub open spec fn one_king(p: Position, c: Color) -> bool {
    exists|k: Sq| king_at(p, c, k)
}

proof fn lemma_search_unique_king(p: Position, c: Color, k: Sq, j: int)
    requires
        p.wf(),
        king_at(p, c, k),
        0 <= j <= k.index(),
    ensures
        king_search(p, c, j) == Some(k),
    decreases k.index() - j,
{
    lemma_sq_at_index(j);
    lemma_index_injective(sq_at(j), k);
    if j < k.index() {
        assert(p.at(sq_at(j)) == p.cells[j]);
        lemma_search_unique_king(p, c, k, j + 1);
    } else {
        lemma_sq_at(k.rank as int, k.file as int);
    }
}

/// A side with one king is found at that king.
pub proof fn lemma_find_unique_king(p: Position, c: Color, k: Sq)
    requires
        p.wf(),
        king_at(p, c, k),
    ensures
        find_king(p, c) == Some(k),
{
    lemma_search_unique_king(p, c, k, 0);
}

/// Each castling right of `c` is backed by its king and rook on their starting squares.
pub open spec fn rights_backed(p: Position, c: Color) -> bool {
    &&& p.castling[kingside(c)] ==> p.at(home_sq(c, 4)) == Some((c, Piece::King)) && p.at(
        home_sq(c, 7),
    ) == Some((c, Piece::Rook))
    &&& p.castling[queenside(c)] ==> p.at(home_sq(c, 4)) == Some((c, Piece::King)) && p.at(
        home_sq(c, 0),
    ) == Some((c, Piece::Rook))
}

/// An en passant square, if any, is empty, lies behind a pawn of the side that just moved
/// which advanced two ranks, on the rank that move passed.
pub open spec fn ep_backed(p: Position) -> bool {
    match p.en_passant {
        None => true,
        Some(e) => {
            &&& e.on_board()
            &&& p.at(e) is None
            &&& e.rank == (if p.turn == Color::White { 5u8 } else { 2u8 })
            &&& p.at(Sq { file: e.file, rank: if p.turn == Color::White { 4u8 } else { 3u8 } })
                == Some((p.turn.flip(), Piece::Pawn))
        },
    }
}

/// No pawn stands on the first or last rank.
pub open spec fn no_back_rank_pawns(p: Position) -> bool {
    forall|s: Sq|
        s.on_board() && (s.rank == 0 || s.rank == 7) ==> !(#[trigger] p.at(s) matches Some((_, Piece::Pawn)))
}

/// A position that can arise in a game: one king per side, no pawn on the end ranks, the
/// side that just moved not in check, castling rights backed by king and rook, and an
/// en passant square only behind a pawn that just advanced two ranks.
pub open spec fn consistent(p: Position) -> bool {
    &&& p.wf()
    &&& one_king(p, Color::White)
    &&& one_king(p, Color::Black)
    &&& no_back_rank_pawns(p)
    &&& !in_check(p, p.turn.flip())
    &&& rights_backed(p, Color::White)
    &&& rights_backed(p, Color::Black)
    &&& ep_backed(p)
}

/// What a legal move in a consistent position looks like.
pub open spec fn move_facts(p: Position, m: Move) -> bool {
    let c = p.turn;
    let mover = p.at(m.from);
    &&& apply_ok(p, m)
    &&& mover matches Some((c2, _)) && c2 == c
    &&& enterable(p, m.to, c)
    &&& (m.promotion is Some <==> (mover == Some((c, Piece::Pawn)) && m.to.rank == promotion_rank(c)))
    &&& (m.promotion matches Some(x) ==> x != Piece::Pawn && x != Piece::King)
    &&& p.at(m.to) != Some((c.flip(), Piece::King))
    &&& !in_check(apply(p, m), c)
    &&& (mover == Some((c, Piece::Pawn)) ==> {
        &&& m.to.rank == m.from.rank + pawn_dir(c) || (m.to.file == m.from.file && m.from.rank
            == pawn_rank(c) && m.to.rank == m.from.rank + 2 * pawn_dir(c) && p.at(
            Sq { file: m.from.file, rank: (m.from.rank + pawn_dir(c)) as u8 },
        ) is None && m.promotion is None)
        &&& m.from.file != m.to.file && p.at(m.to) is None ==> p.at(
            Sq { file: m.to.file, rank: m.from.rank },
        ) == Some((c.flip(), Piece::Pawn))
    })
    &&& (mover == Some((c, Piece::King)) && m.from == home_sq(c, 4) && m.to == home_sq(c, 6) ==> p.at(
        home_sq(c, 5),
    ) is None && p.at(home_sq(c, 7)) == Some((c, Piece::Rook)))
    &&& (mover == Some((c, Piece::King)) && m.from == home_sq(c, 4) && m.to == home_sq(c, 2) ==> p.at(
        home_sq(c, 3),
    ) is None && p.at(home_sq(c, 0)) == Some((c, Piece::Rook)))
}

proof fn lemma_after_all(p: Position, m: Move)
    requires
        p.wf(),
        apply_ok(p, m),
    ensures
        forall|s: Sq| s.on_board() ==> #[trigger] apply(p, m).at(s) == after(p, m, s),
{
    assert forall|s: Sq| s.on_board() implies #[trigger] apply(p, m).at(s) == after(p, m, s) by {
        lemma_after(p, m, s);
    }
}

proof fn lemma_kings_kept(p: Position, m: Move)
    requires
        consistent(p),
        move_facts(p, m),
    ensures
        one_king(apply(p, m), Color::White),
        one_king(apply(p, m), Color::Black),
{
    let q = apply(p, m);
    let c = p.turn;
    lemma_after_all(p, m);
    assert forall|x: Color| one_king(q, x) by {
        let k = choose|k: Sq| king_at(p, x, k);
        let k2 = if x == c && p.at(m.from) == Some((c, Piece::King)) { m.to } else { k };
        assert(q.at(k2) == after(p, m, k2));
        assert forall|t: Sq| t.on_board() && t != k2 implies q.at(t) != Some((x, Piece::King)) by {
            assert(q.at(t) == after(p, m, t));
        }
        assert(king_at(q, x, k2));
    }
    assert(one_king(q, Color::White));
    assert(one_king(q, Color::Black));
}

proof fn lemma_pawns_kept(p: Position, m: Move)
    requires
        consistent(p),
        move_facts(p, m),
    ensures
        no_back_rank_pawns(apply(p, m)),
{
    let q = apply(p, m);
    lemma_after_all(p, m);
    assert(m.from.rank != 0 && m.from.rank != 7 || !(p.at(m.from) matches Some((_, Piece::Pawn))));
    assert forall|s: Sq| s.on_board() && (s.rank == 0 || s.rank == 7) implies !(#[trigger] q.at(s) matches Some((_, Piece::Pawn))) by {
        assert(q.at(s) == after(p, m, s));
    }
}

proof fn lemma_rights_kept(p: Position, m: Move)
    requires
        consistent(p),
        move_facts(p, m),
    ensures
        rights_backed(apply(p, m), Color::White),
        rights_backed(apply(p, m), Color::Black),
{
    let q = apply(p, m);
    lemma_after_all(p, m);
    assert forall|x: Color| rights_backed(q, x) by {
        let h4 = home_sq(x, 4);
        let h7 = home_sq(x, 7);
        let h0 = home_sq(x, 0);
        assert(q.at(h4) == after(p, m, h4));
        assert(q.at(h7) == after(p, m, h7));
        assert(q.at(h0) == after(p, m, h0));
    }
    assert(rights_backed(q, Color::White));
    assert(rights_backed(q, Color::Black));
}

proof fn lemma_ep_kept(p: Position, m: Move)
    requires
        consistent(p),
        move_facts(p, m),
    ensures
        ep_backed(apply(p, m)),
{
    let q = apply(p, m);
    lemma_after_all(p, m);
    if let Some(e) = q.en_passant {
        let c = p.turn;
        let t = Sq { file: e.file, rank: if q.turn == Color::White { 4u8 } else { 3u8 } };
        assert(e.on_board());
        assert(q.at(e) == after(p, m, e));
        assert(t == m.to);
        assert(q.at(t) == after(p, m, t));
    }
}

/// A legal move keeps a consistent position consistent.
pub proof fn lemma_consistent_kept(p: Position, m: Move)
    requires
        consistent(p),
        move_facts(p, m),
    ensures
        consistent(apply(p, m)),
{
    lemma_kings_kept(p, m);
    lemma_pawns_kept(p, m);
    lemma_rights_kept(p, m);
    lemma_ep_kept(p, m);
}

} // verus!
