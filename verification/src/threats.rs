//! Which squares a piece threatens, stated geometrically, and that `attacked` says exactly
//! that some piece of the attacker threatens the square.
use vstd::prelude::*;
use crate::types::{Color, Piece, Sq, offset};
use crate::rules::{Position, attacked, diagonal_dirs, holds, is_dir, king_deltas, knight_deltas,
    leaper_hit, pawn_attack, pawn_dir, slider_attack, slider_hit, steps_left, straight_dirs};
use crate::distinct::on_ray;
use crate::completeness::clear_between;
use crate::consistency::first_hit;

verus! {

/// The piece of kind `pc` moves along direction `(a, b)`: files and ranks for rook and
/// queen, diagonals for bishop and queen.
pub open spec fn slides_along(pc: Piece, a: int, b: int) -> bool {
    ||| (pc == Piece::Rook || pc == Piece::Queen) && (a == 0 || b == 0)
    ||| (pc == Piece::Bishop || pc == Piece::Queen) && a != 0 && b != 0
}

/// The piece on `s` threatens `t`: a knight two squares one way and one the other, a king
/// one step in any direction, a pawn one rank ahead (in its direction of travel) on a
/// neighbouring file, and a rook, bishop or queen along one of its lines over empty squares.
pub open spec fn threatens(p: Position, s: Sq, t: Sq) -> bool {
    let df = t.file - s.file;
    let dr = t.rank - s.rank;
    match p.at(s) {
        Some((c, Piece::Knight)) => ((df == 1 || df == -1) && (dr == 2 || dr == -2)) || ((df == 2
            || df == -2) && (dr == 1 || dr == -1)),
        Some((c, Piece::King)) => -1 <= df <= 1 && -1 <= dr <= 1 && !(df == 0 && dr == 0),
        Some((c, Piece::Pawn)) => (df == 1 || df == -1) && dr == (if c == Color::White {
            1int
        } else {
            -1int
        }),
        Some((c, pc)) => exists|a: int, b: int|
            #![trigger on_ray(s, t, a, b)]
            is_dir(a, b) && slides_along(pc, a, b) && on_ray(s, t, a, b) && clear_between(
                p,
                s,
                t,
                a,
                b,
            ),
        None => false,
    }
}

proof fn lemma_on_ray_flip(x: Sq, y: Sq, a: int, b: int)
    requires
        is_dir(a, b),
    ensures
        on_ray(x, y, a, b) == on_ray(y, x, -a, -b),
{
}

/// A line walk from `cur` that meets the slider of `by` first finds it on the line with
/// empty squares before it.
proof fn lemma_slider_hit_witness(p: Position, cur: Sq, a: int, b: int, by: Color, diagonal: bool) -> (s: Sq)
    requires
        is_dir(a, b),
        cur.on_board(),
        slider_hit(p, cur, a, b, by, diagonal),
    ensures
        s.on_board(),
        on_ray(cur, s, a, b),
        clear_between(p, cur, s, a, b),
        first_hit(p.at(s), by, diagonal),
    decreases steps_left(cur, a, b),
{
    let ns = offset(cur, a, b)->0;
    if p.at(ns) is None {
        let s = lemma_slider_hit_witness(p, ns, a, b, by, diagonal);
        assert forall|x: Sq| x.on_board() && on_ray(cur, x, a, b) && #[trigger] on_ray(x, s, a, b) implies p.at(x) is None by {
            if x != ns {
                assert(on_ray(ns, x, a, b));
            }
        }
        s
    } else {
        assert forall|x: Sq| x.on_board() && on_ray(cur, x, a, b) && #[trigger] on_ray(x, ns, a, b) implies p.at(x) is None by {
        }
        ns
    }
}

/// A slider of `by` on the line from `cur` with empty squares before it is met first.
proof fn lemma_slider_hit_from(p: Position, cur: Sq, a: int, b: int, by: Color, diagonal: bool, s: Sq)
    requires
        is_dir(a, b),
        cur.on_board(),
        s.on_board(),
        on_ray(cur, s, a, b),
        clear_between(p, cur, s, a, b),
        first_hit(p.at(s), by, diagonal),
    ensures
        slider_hit(p, cur, a, b, by, diagonal),
    decreases steps_left(cur, a, b),
{
    let ns = Sq { file: (cur.file + a) as u8, rank: (cur.rank + b) as u8 };
    assert(offset(cur, a, b) == Some(ns));
    if ns != s {
        assert(on_ray(ns, s, a, b));
        assert(on_ray(cur, ns, a, b));
        assert(p.at(ns) is None);
        assert forall|x: Sq| x.on_board() && on_ray(ns, x, a, b) && #[trigger] on_ray(x, s, a, b) implies p.at(x) is None by {
            assert(on_ray(cur, x, a, b));
        }
        lemma_slider_hit_from(p, ns, a, b, by, diagonal, s);
    }
}

/// A square is attacked by `by` exactly when some piece of `by` threatens it.
pub proof fn attacked_means_threatened(p: Position, t: Sq, by: Color)
    requires
        p.wf(),
        t.on_board(),
    ensures
        attacked(p, t, by) <==> exists|s: Sq|
            s.on_board() && (p.at(s) matches Some((c, _)) && c == by) && #[trigger] threatens(p, s, t),
{
    let kd = knight_deltas();
    let gd = king_deltas();
    let sd = straight_dirs();
    let dd = diagonal_dirs();
    if attacked(p, t, by) {
        if leaper_hit(p, t, by, Piece::Knight, kd) {
            let i = choose|i: int| 0 <= i < kd.len() && #[trigger] holds(p, offset(t, kd[i].0, kd[i].1), by, Piece::Knight);
            let s = offset(t, kd[i].0, kd[i].1)->0;
            assert(threatens(p, s, t));
        } else if leaper_hit(p, t, by, Piece::King, gd) {
            let i = choose|i: int| 0 <= i < gd.len() && #[trigger] holds(p, offset(t, gd[i].0, gd[i].1), by, Piece::King);
            let s = offset(t, gd[i].0, gd[i].1)->0;
            assert(threatens(p, s, t));
        } else if slider_attack(p, t, by, sd, false) || slider_attack(p, t, by, dd, true) {
            let diagonal = !slider_attack(p, t, by, sd, false);
            let dirs = if diagonal { dd } else { sd };
            let i = choose|i: int| 0 <= i < dirs.len() && #[trigger] slider_hit(p, t, dirs[i].0, dirs[i].1, by, diagonal);
            let (a, b) = dirs[i];
            assert(is_dir(a, b));
            let s = lemma_slider_hit_witness(p, t, a, b, by, diagonal);
            lemma_on_ray_flip(t, s, a, b);
            assert forall|x: Sq| x.on_board() && on_ray(s, x, -a, -b) && #[trigger] on_ray(x, t, -a, -b) implies p.at(x) is None by {
                lemma_on_ray_flip(s, x, -a, -b);
                lemma_on_ray_flip(x, t, -a, -b);
            }
            assert(clear_between(p, s, t, -a, -b));
            let (_, pc) = p.at(s).unwrap();
            assert(slides_along(pc, -a, -b));
            assert(on_ray(s, t, -a, -b));
            assert(threatens(p, s, t));
        } else {
            let dir = pawn_dir(by);
            if holds(p, offset(t, -1, -dir), by, Piece::Pawn) {
                let s = offset(t, -1, -dir)->0;
                assert(threatens(p, s, t));
            } else {
                let s = offset(t, 1, -dir)->0;
                assert(threatens(p, s, t));
            }
        }
    }
    if exists|s: Sq| s.on_board() && (p.at(s) matches Some((c, _)) && c == by) && #[trigger] threatens(p, s, t) {
        let s = choose|s: Sq| s.on_board() && (p.at(s) matches Some((c, _)) && c == by) && #[trigger] threatens(p, s, t);
        let (_, pc) = p.at(s).unwrap();
        let df = s.file - t.file;
        let dr = s.rank - t.rank;
        match pc {
            Piece::Knight => {
                let j: int = if df == -2 && dr == -1 { 0 } else if df == -2 && dr == 1 { 1 } else if df == -1
                    && dr == -2 { 2 } else if df == -1 && dr == 2 { 3 } else if df == 1 && dr == -2 { 4 } else if df
                    == 1 && dr == 2 { 5 } else if df == 2 && dr == -1 { 6 } else { 7 };
                assert(kd[j] == (df, dr));
                assert(holds(p, offset(t, kd[j].0, kd[j].1), by, Piece::Knight));
            },
            Piece::King => {
                let j: int = if df == -1 { dr + 1 } else if df == 0 { if dr == -1 { 3 } else { 4 } } else { dr + 6 };
                assert(gd[j] == (df, dr));
                assert(holds(p, offset(t, gd[j].0, gd[j].1), by, Piece::King));
            },
            Piece::Pawn => {
                assert(offset(t, df, -pawn_dir(by)) == Some(s));
                assert(pawn_attack(p, t, by));
            },
            _ => {
                let (a, b) = choose|a: int, b: int|
                    #![trigger on_ray(s, t, a, b)]
                    is_dir(a, b) && slides_along(pc, a, b) && on_ray(s, t, a, b) && clear_between(p, s, t, a, b);
                lemma_on_ray_flip(s, t, a, b);
                assert forall|x: Sq| x.on_board() && on_ray(t, x, -a, -b) && #[trigger] on_ray(x, s, -a, -b) implies p.at(x) is None by {
                    lemma_on_ray_flip(t, x, -a, -b);
                    lemma_on_ray_flip(x, s, -a, -b);
                }
                let diagonal = a != 0 && b != 0;
                assert(first_hit(p.at(s), by, diagonal));
                assert(is_dir(-a, -b));
                lemma_slider_hit_from(p, t, -a, -b, by, diagonal, s);
                if diagonal {
                    let j: int = if -a == 1 && -b == 1 { 0 } else if -a == 1 { 1 } else if -b == 1 { 2 } else { 3 };
                    assert(dd[j] == (-a, -b));
                    assert(slider_hit(p, t, dd[j].0, dd[j].1, by, true));
                    assert(slider_attack(p, t, by, dd, true));
                } else {
                    let j: int = if -a == 1 { 0 } else if -a == -1 { 1 } else if -b == 1 { 2 } else { 3 };
                    assert(sd[j] == (-a, -b));
                    assert(slider_hit(p, t, sd[j].0, sd[j].1, by, false));
                    assert(slider_attack(p, t, by, sd, false));
                }
            },
        }
    }
}

} // verus!
