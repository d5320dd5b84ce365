//! Each move is generated once: no two entries of the move list are equal.
use vstd::prelude::*;
use crate::types::{Color, Piece, Sq, Move, offset};
use crate::rules::{Position, castle_moves, diagonal_dirs, is_dir, king_deltas, king_moves, knight_deltas, leaper_moves, pawn_capture, pawn_dir, pawn_move, pawn_moves, pawn_pushes, piece_moves, pseudo_moves, pseudo_prefix, ray_moves, slider_moves, square_moves, sq_at, steps_left, straight_dirs, quiet};
use crate::generated::{lemma_piece_fit, lemma_sq_at_index};

verus! {

/// No move occurs twice in `s`.
pub open spec fn no_dups(s: Seq<Move>) -> bool {
    forall|i: int, j: int| 0 <= i < j < s.len() ==> s[i] != s[j]
}

/// No step occurs twice in `d`.
pub open spec fn distinct_steps(d: Seq<(int, int)>) -> bool {
    forall|i: int, j: int| 0 <= i < j < d.len() ==> d[i] != d[j]
}

pub open spec fn sgn(x: int) -> int {
    if x > 0 {
        1
    } else if x < 0 {
        -1
    } else {
        0
    }
}

/// `t` lies on the line from `cur` in direction `(df, dr)`, past `cur`.
pub open spec fn on_ray(cur: Sq, t: Sq, df: int, dr: int) -> bool {
    let a = t.file - cur.file;
    let b = t.rank - cur.rank;
    &&& sgn(a) == df
    &&& sgn(b) == dr
    &&& (df != 0 && dr != 0 ==> (a == b || a == -b))
}

/// `t` lies on the line from `sq` in one of the directions of `dirs`.
pub open spec fn on_some_ray(sq: Sq, t: Sq, dirs: Seq<(int, int)>) -> bool {
    exists|j: int| 0 <= j < dirs.len() && #[trigger] on_ray(sq, t, dirs[j].0, dirs[j].1)
}

/// `t` is one step of `d` away from `sq`.
pub open spec fn reached(sq: Sq, t: Sq, d: Seq<(int, int)>) -> bool {
    exists|j: int| 0 <= j < d.len() && #[trigger] offset(sq, d[j].0, d[j].1) == Some(t)
}

proof fn lemma_no_dups_add(a: Seq<Move>, b: Seq<Move>)
    requires
        no_dups(a),
        no_dups(b),
        forall|i: int, j: int| 0 <= i < a.len() && 0 <= j < b.len() ==> a[i] != b[j],
    ensures
        no_dups(a + b),
{
    assert forall|i: int, j: int| 0 <= i < j < (a + b).len() implies (a + b)[i] != (a + b)[j] by {
        if j < a.len() {
        } else if i < a.len() {
            assert((a + b)[j] == b[j - a.len()]);
        } else {
            assert((a + b)[i] == b[i - a.len()]);
            assert((a + b)[j] == b[j - a.len()]);
        }
    }
}

pub(crate) proof fn lemma_leaper_distinct(p: Position, sq: Sq, color: Color, d: Seq<(int, int)>)
    requires
        distinct_steps(d),
    ensures
        no_dups(leaper_moves(p, sq, color, d)),
        forall|i: int|
            0 <= i < leaper_moves(p, sq, color, d).len() ==> {
                let m = #[trigger] leaper_moves(p, sq, color, d)[i];
                m.from == sq && m.promotion is None && reached(sq, m.to, d)
            },
    decreases d.len(),
{
    if d.len() > 0 {
        let dl = d.drop_last();
        assert(distinct_steps(dl));
        lemma_leaper_distinct(p, sq, color, dl);
        let prev = leaper_moves(p, sq, color, dl);
        let last = d.last();
        assert forall|i: int| 0 <= i < prev.len() implies reached(sq, prev[i].to, d) by {
            assert(reached(sq, prev[i].to, dl));
            let j = choose|j: int| 0 <= j < dl.len() && #[trigger] offset(sq, dl[j].0, dl[j].1) == Some(prev[i].to);
            assert(d[j] == dl[j]);
        }
        if let Some(to) = offset(sq, last.0, last.1) {
            assert(offset(sq, d[d.len() - 1].0, d[d.len() - 1].1) == Some(to));
            assert forall|i: int| 0 <= i < prev.len() implies prev[i] != quiet(sq, to) by {
                let j = choose|j: int| 0 <= j < dl.len() && #[trigger] offset(sq, dl[j].0, dl[j].1) == Some(prev[i].to);
                assert(d[j] == dl[j]);
                assert(d[j] != d[d.len() - 1]);
            }
        }
    }
}

proof fn lemma_ray_distinct(p: Position, from: Sq, color: Color, cur: Sq, df: int, dr: int)
    requires
        is_dir(df, dr),
        cur.on_board(),
    ensures
        no_dups(ray_moves(p, from, color, cur, df, dr)),
        forall|i: int|
            0 <= i < ray_moves(p, from, color, cur, df, dr).len() ==> {
                let m = #[trigger] ray_moves(p, from, color, cur, df, dr)[i];
                m.from == from && m.promotion is None && on_ray(cur, m.to, df, dr)
            },
    decreases steps_left(cur, df, dr),
{
    let ms = ray_moves(p, from, color, cur, df, dr);
    if let Some(ns) = offset(cur, df, dr) {
        if p.at(ns) is None {
            lemma_ray_distinct(p, from, color, ns, df, dr);
            let rest = ray_moves(p, from, color, ns, df, dr);
            assert(ms == seq![quiet(from, ns)] + rest);
            assert forall|i: int| 0 <= i < ms.len() implies {
                let m = #[trigger] ms[i];
                m.from == from && m.promotion is None && on_ray(cur, m.to, df, dr)
            } by {
                if i > 0 {
                    assert(ms[i] == rest[i - 1]);
                }
            }
            assert forall|i: int, j: int| 0 <= i < j < ms.len() implies ms[i] != ms[j] by {
                assert(ms[j] == rest[j - 1]);
                if i > 0 {
                    assert(ms[i] == rest[i - 1]);
                }
            }
        }
    }
}

proof fn lemma_slider_distinct(p: Position, sq: Sq, color: Color, dirs: Seq<(int, int)>)
    requires
        sq.on_board(),
        distinct_steps(dirs),
        forall|j: int| 0 <= j < dirs.len() ==> is_dir(#[trigger] dirs[j].0, dirs[j].1),
    ensures
        no_dups(slider_moves(p, sq, color, dirs)),
        forall|i: int|
            0 <= i < slider_moves(p, sq, color, dirs).len() ==> {
                let m = #[trigger] slider_moves(p, sq, color, dirs)[i];
                m.from == sq && m.promotion is None && on_some_ray(sq, m.to, dirs)
            },
    decreases dirs.len(),
{
    if dirs.len() > 0 {
        let dl = dirs.drop_last();
        let last = dirs.last();
        assert(distinct_steps(dl));
        assert(is_dir(dirs[dirs.len() - 1].0, dirs[dirs.len() - 1].1));
        lemma_slider_distinct(p, sq, color, dl);
        lemma_ray_distinct(p, sq, color, sq, last.0, last.1);
        let a = slider_moves(p, sq, color, dl);
        let b = ray_moves(p, sq, color, sq, last.0, last.1);
        assert forall|i: int, j: int| 0 <= i < a.len() && 0 <= j < b.len() implies a[i] != b[j] by {
            assert(on_some_ray(sq, a[i].to, dl));
            let k = choose|k: int| 0 <= k < dl.len() && #[trigger] on_ray(sq, a[i].to, dl[k].0, dl[k].1);
            assert(dirs[k] == dl[k]);
            assert(dirs[k] != dirs[dirs.len() - 1]);
            assert(on_ray(sq, b[j].to, last.0, last.1));
        }
        lemma_no_dups_add(a, b);
        assert forall|i: int| 0 <= i < (a + b).len() implies {
            let m = #[trigger] (a + b)[i];
            m.from == sq && m.promotion is None && on_some_ray(sq, m.to, dirs)
        } by {
            if i < a.len() {
                assert((a + b)[i] == a[i]);
                let k = choose|k: int| 0 <= k < dl.len() && #[trigger] on_ray(sq, a[i].to, dl[k].0, dl[k].1);
                assert(dirs[k] == dl[k]);
            } else {
                assert((a + b)[i] == b[i - a.len()]);
                assert(on_ray(sq, b[i - a.len()].to, dirs[dirs.len() - 1].0, dirs[dirs.len() - 1].1));
            }
        }
    }
}

proof fn lemma_pawn_move_distinct(sq: Sq, to: Sq, color: Color)
    ensures
        no_dups(pawn_move(sq, to, color)),
        forall|i: int|
            0 <= i < pawn_move(sq, to, color).len() ==> (#[trigger] pawn_move(sq, to, color)[i]).from
                == sq && pawn_move(sq, to, color)[i].to == to,
{
}

proof fn lemma_pawn_distinct(p: Position, sq: Sq, color: Color)
    requires
        sq.on_board(),
    ensures
        no_dups(pawn_moves(p, sq, color)),
{
    let pu = pawn_pushes(p, sq, color);
    let c0 = pawn_capture(p, sq, color, -1);
    let c1 = pawn_capture(p, sq, color, 1);
    assert(no_dups(pu));
    assert(forall|i: int| 0 <= i < pu.len() ==> (#[trigger] pu[i]).to.file == sq.file);
    if let Some(to) = offset(sq, -1, pawn_dir(color)) {
        lemma_pawn_move_distinct(sq, to, color);
    }
    if let Some(to) = offset(sq, 1, pawn_dir(color)) {
        lemma_pawn_move_distinct(sq, to, color);
    }
    assert(no_dups(c0));
    assert(no_dups(c1));
    assert(forall|i: int| 0 <= i < c0.len() ==> (#[trigger] c0[i]).to.file == sq.file - 1);
    assert(forall|i: int| 0 <= i < c1.len() ==> (#[trigger] c1[i]).to.file == sq.file + 1);
    lemma_no_dups_add(pu, c0);
    assert forall|i: int, j: int| 0 <= i < (pu + c0).len() && 0 <= j < c1.len() implies (pu + c0)[i] != c1[j] by {
        if i < pu.len() {
            assert((pu + c0)[i] == pu[i]);
        } else {
            assert((pu + c0)[i] == c0[i - pu.len()]);
        }
    }
    lemma_no_dups_add(pu + c0, c1);
}

pub(crate) proof fn lemma_king_near(p: Position, sq: Sq, color: Color, deltas: Seq<(int, int)>)
    requires
        forall|j: int| 0 <= j < deltas.len() ==> -1 <= #[trigger] deltas[j].0 <= 1,
    ensures
        forall|i: int|
            0 <= i < leaper_moves(p, sq, color, deltas).len() ==> -1 <= #[trigger] leaper_moves(
                p,
                sq,
                color,
                deltas,
            )[i].to.file - sq.file <= 1,
    decreases deltas.len(),
{
    if deltas.len() > 0 {
        assert(-1 <= deltas[deltas.len() - 1].0 <= 1);
        lemma_king_near(p, sq, color, deltas.drop_last());
    }
}

proof fn lemma_king_distinct(p: Position, sq: Sq, color: Color)
    requires
        sq.on_board(),
    ensures
        no_dups(king_moves(p, sq, color)),
{
    let st = leaper_moves(p, sq, color, king_deltas());
    let cm = castle_moves(p, sq, color);
    lemma_leaper_distinct(p, sq, color, king_deltas());
    lemma_king_near(p, sq, color, king_deltas());
    assert(forall|j: int| 0 <= j < cm.len() ==> (#[trigger] cm[j]).to.file == sq.file + 2 || cm[j].to.file + 2 == sq.file);
    assert(no_dups(cm));
    lemma_no_dups_add(st, cm);
}

proof fn lemma_piece_distinct(p: Position, sq: Sq, color: Color, pc: Piece)
    requires
        sq.on_board(),
    ensures
        no_dups(piece_moves(p, sq, color, pc)),
{
    let sd = straight_dirs();
    let dd = diagonal_dirs();
    assert(distinct_steps(sd));
    assert(distinct_steps(dd));
    assert(distinct_steps(knight_deltas()));
    match pc {
        Piece::Pawn => lemma_pawn_distinct(p, sq, color),
        Piece::Knight => lemma_leaper_distinct(p, sq, color, knight_deltas()),
        Piece::Bishop => lemma_slider_distinct(p, sq, color, dd),
        Piece::Rook => lemma_slider_distinct(p, sq, color, sd),
        Piece::Queen => {
            lemma_slider_distinct(p, sq, color, sd);
            lemma_slider_distinct(p, sq, color, dd);
            let a = slider_moves(p, sq, color, sd);
            let b = slider_moves(p, sq, color, dd);
            assert forall|i: int, j: int| 0 <= i < a.len() && 0 <= j < b.len() implies a[i] != b[j] by {
                let k = choose|k: int| 0 <= k < sd.len() && #[trigger] on_ray(sq, a[i].to, sd[k].0, sd[k].1);
                let l = choose|l: int| 0 <= l < dd.len() && #[trigger] on_ray(sq, b[j].to, dd[l].0, dd[l].1);
            }
            lemma_no_dups_add(a, b);
        },
        Piece::King => lemma_king_distinct(p, sq, color),
    }
}

proof fn lemma_prefix_distinct(p: Position, n: int)
    requires
        p.wf(),
        n <= 64,
    ensures
        no_dups(pseudo_prefix(p, n)),
        forall|i: int|
            0 <= i < pseudo_prefix(p, n).len() ==> (#[trigger] pseudo_prefix(p, n)[i]).from.index() < n,
    decreases n,
{
    if n > 0 {
        lemma_prefix_distinct(p, n - 1);
        let a = pseudo_prefix(p, n - 1);
        let b = square_moves(p, n - 1);
        lemma_sq_at_index(n - 1);
        if let Some((c, pc)) = p.cells[n - 1] {
            if c == p.turn {
                lemma_piece_distinct(p, sq_at(n - 1), c, pc);
                lemma_piece_fit(p, sq_at(n - 1), c, pc);
            }
        }
        assert(forall|j: int| 0 <= j < b.len() ==> (#[trigger] b[j]).from == sq_at(n - 1));
        lemma_no_dups_add(a, b);
        assert forall|i: int| 0 <= i < (a + b).len() implies (#[trigger] (a + b)[i]).from.index() < n by {
            if i < a.len() {
                assert((a + b)[i] == a[i]);
            } else {
                assert((a + b)[i] == b[i - a.len()]);
            }
        }
    }
}

/// The generated moves are pairwise distinct.
pub proof fn lemma_pseudo_distinct(p: Position)
    requires
        p.wf(),
    ensures
        no_dups(pseudo_moves(p)),
{
    lemma_prefix_distinct(p, 64);
}

} // verus!
