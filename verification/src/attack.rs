//! Attacks, locating the king, and check.
use vstd::prelude::*;
use crate::types::{Color, Piece, Sq, Move, offset};
use crate::board::{Board, lemma_board_wf};
use crate::rules::{apply, apply_ok, attacked, find_king, holds, in_check, is_step, king_deltas, king_search, knight_deltas, leaper_hit, pawn_dir, slider_attack, slider_hit, sq_at, steps_left, straight_dirs, diagonal_dirs};

verus! {

broadcast use lemma_board_wf;

/// The exec deltas `a` are the deltas `d` of the rules.
pub open spec fn same_deltas(a: Seq<(i8, i8)>, d: Seq<(int, int)>) -> bool {
    a.len() == d.len() && forall|j: int| 0 <= j < a.len() ==> a[j].0 == d[j].0 && a[j].1 == d[j].1
}

/// The steps of `a` as pairs of integers.
pub open spec fn steps_of(a: Seq<(i8, i8)>) -> Seq<(int, int)> {
    a.map_values(|x: (i8, i8)| (x.0 as int, x.1 as int))
}

pub proof fn lemma_steps_of(a: Seq<(i8, i8)>, d: Seq<(int, int)>)
    requires
        same_deltas(a, d),
    ensures
        steps_of(a) == d,
{
    assert(steps_of(a) =~= d);
}

/// The square at rank `r`, file `f` has index `r * 8 + f`.
pub proof fn lemma_sq_at(r: int, f: int)
    requires
        0 <= r < 8,
        0 <= f < 8,
    ensures
        sq_at(r * 8 + f) == (Sq { file: f as u8, rank: r as u8 }),
{
    assert((r * 8 + f) % 8 == f && (r * 8 + f) / 8 == r) by (nonlinear_arith)
        requires
            0 <= r < 8,
            0 <= f < 8,
    ;
}

pub(crate) fn knight_steps() -> (res: [(i8, i8); 8])
    ensures
        same_deltas(res@, knight_deltas()),
{
    let res: [(i8, i8); 8] = [(-2, -1), (-2, 1), (-1, -2), (-1, 2), (1, -2), (1, 2), (2, -1), (2, 1)];
    proof {
        assert(same_deltas(res@, knight_deltas())) by {
            assert forall|j: int| 0 <= j < 8 implies res@[j].0 == knight_deltas()[j].0
                && res@[j].1 == knight_deltas()[j].1 by {
                assert(res@[j] == res[j]);
            }
        }
    }
    res
}

pub(crate) fn king_steps() -> (res: [(i8, i8); 8])
    ensures
        same_deltas(res@, king_deltas()),
{
    let res: [(i8, i8); 8] = [(-1, -1), (-1, 0), (-1, 1), (0, -1), (0, 1), (1, -1), (1, 0), (1, 1)];
    proof {
        assert(same_deltas(res@, king_deltas())) by {
            assert forall|j: int| 0 <= j < 8 implies res@[j].0 == king_deltas()[j].0
                && res@[j].1 == king_deltas()[j].1 by {
                assert(res@[j] == res[j]);
            }
        }
    }
    res
}

pub(crate) fn straight_steps() -> (res: [(i8, i8); 4])
    ensures
        same_deltas(res@, straight_dirs()),
{
    let res: [(i8, i8); 4] = [(1, 0), (-1, 0), (0, 1), (0, -1)];
    proof {
        assert(same_deltas(res@, straight_dirs())) by {
            assert forall|j: int| 0 <= j < 4 implies res@[j].0 == straight_dirs()[j].0
                && res@[j].1 == straight_dirs()[j].1 by {
                assert(res@[j] == res[j]);
            }
        }
    }
    res
}

pub(crate) fn diagonal_steps() -> (res: [(i8, i8); 4])
    ensures
        same_deltas(res@, diagonal_dirs()),
{
    let res: [(i8, i8); 4] = [(1, 1), (1, -1), (-1, 1), (-1, -1)];
    proof {
        assert(same_deltas(res@, diagonal_dirs())) by {
            assert forall|j: int| 0 <= j < 4 implies res@[j].0 == diagonal_dirs()[j].0
                && res@[j].1 == diagonal_dirs()[j].1 by {
                assert(res@[j] == res[j]);
            }
        }
    }
    res
}

impl Board {
    /// The square `s`, if it exists, holds the piece `(c, pc)`.
    fn holds_piece(&self, s: Option<Sq>, c: Color, pc: Piece) -> (res: bool)
        requires
            s matches Some(t) ==> t.on_board(),
        ensures
            res == holds(self@, s, c, pc),
    {
        match s {
            Some(t) => match self.get(t) {
                Some((c2, pc2)) => c2 == c && pc2 == pc,
                None => false,
            },
            None => false,
        }
    }

    /// Some step of `steps` from `sq` reaches a piece `(by, pc)`.
    fn leaper_hits(&self, sq: Sq, by: Color, pc: Piece, steps: &[(i8, i8); 8], Ghost(d): Ghost<Seq<(int, int)>>) -> (res: bool)
        requires
            sq.on_board(),
            same_deltas(steps@, d),
            forall|j: int| 0 <= j < 8 ==> -2 <= #[trigger] d[j].0 <= 2 && -2 <= d[j].1 <= 2,
        ensures
            res == leaper_hit(self@, sq, by, pc, d),
    {
        let mut i: usize = 0;
        while i < 8
            invariant
                i <= 8,
                sq.on_board(),
                same_deltas(steps@, d),
                forall|j: int| 0 <= j < 8 ==> -2 <= #[trigger] d[j].0 <= 2 && -2 <= d[j].1 <= 2,
                forall|j: int| 0 <= j < i ==> !#[trigger] holds(self@, offset(sq, d[j].0, d[j].1), by, pc),
            decreases 8 - i,
        {
            let (df, dr) = steps[i];
            assert(steps@[i as int] == steps[i as int]);
            let t = sq.offset(df, dr);
            if self.holds_piece(t, by, pc) {
                assert(holds(self@, offset(sq, d[i as int].0, d[i as int].1), by, pc));
                return true;
            }
            i = i + 1;
        }
        false
    }

    /// Walking from `sq` in direction `(df, dr)`, the first piece met is a slider of `by`
    /// moving along that line.
    fn ray_hits(&self, sq: Sq, df: i8, dr: i8, by: Color, diagonal: bool) -> (res: bool)
        requires
            sq.on_board(),
            is_step(df as int, dr as int),
        ensures
            res == slider_hit(self@, sq, df as int, dr as int, by, diagonal),
    {
        let mut s = sq;
        loop
            invariant
                s.on_board(),
                is_step(df as int, dr as int),
                slider_hit(self@, sq, df as int, dr as int, by, diagonal) == slider_hit(
                    self@,
                    s,
                    df as int,
                    dr as int,
                    by,
                    diagonal,
                ),
            decreases steps_left(s, df as int, dr as int),
        {
            match s.offset(df, dr) {
                None => {
                    return false;
                },
                Some(ns) => {
                    s = ns;
                    match self.get(s) {
                        None => {},
                        Some((c, pc)) => {
                            if c == by && (pc == Piece::Queen || pc == (if diagonal {
                                Piece::Bishop
                            } else {
                                Piece::Rook
                            })) {
                                return true;
                            }
                            return false;
                        },
                    }
                },
            }
        }
    }

    /// Some line of `dirs` from `sq` is hit by a slider of `by`.
    fn slider_hits(&self, sq: Sq, by: Color, dirs: &[(i8, i8); 4], Ghost(d): Ghost<Seq<(int, int)>>, diagonal: bool) -> (res: bool)
        requires
            sq.on_board(),
            same_deltas(dirs@, d),
            forall|j: int| 0 <= j < 4 ==> is_step(#[trigger] d[j].0, d[j].1),
        ensures
            res == slider_attack(self@, sq, by, d, diagonal),
    {
        let mut i: usize = 0;
        while i < 4
            invariant
                i <= 4,
                sq.on_board(),
                same_deltas(dirs@, d),
                forall|j: int| 0 <= j < 4 ==> is_step(#[trigger] d[j].0, d[j].1),
                forall|j: int| 0 <= j < i ==> !#[trigger] slider_hit(self@, sq, d[j].0, d[j].1, by, diagonal),
            decreases 4 - i,
        {
            let (df, dr) = dirs[i];
            assert(dirs@[i as int] == dirs[i as int]);
            assert(is_step(d[i as int].0, d[i as int].1));
            if self.ray_hits(sq, df, dr, by, diagonal) {
                assert(slider_hit(self@, sq, d[i as int].0, d[i as int].1, by, diagonal));
                return true;
            }
            i = i + 1;
        }
        false
    }

    /// The square `sq` is attacked by a piece of `by`.
    pub(crate) fn is_attacked(&self, sq: Sq, by: Color) -> (res: bool)
        requires
            sq.on_board(),
        ensures
            res == attacked(self@, sq, by),
    {
        // Knights
        let kn = knight_steps();
        if self.leaper_hits(sq, by, Piece::Knight, &kn, Ghost(knight_deltas())) {
            return true;
        }
        // King
        let kg = king_steps();
        if self.leaper_hits(sq, by, Piece::King, &kg, Ghost(king_deltas())) {
            return true;
        }
        // Rook / Queen (straights)
        let st = straight_steps();
        if self.slider_hits(sq, by, &st, Ghost(straight_dirs()), false) {
            return true;
        }
        // Bishop / Queen (diagonals)
        let dg = diagonal_steps();
        if self.slider_hits(sq, by, &dg, Ghost(diagonal_dirs()), true) {
            return true;
        }
        // Pawns
        let pawn_dr: i8 = if by == Color::White { 1 } else { -1 };
        assert(pawn_dr == pawn_dir(by));
        if self.holds_piece(sq.offset(-1, -pawn_dr), by, Piece::Pawn) {
            return true;
        }
        if self.holds_piece(sq.offset(1, -pawn_dr), by, Piece::Pawn) {
            return true;
        }
        false
    }

    /// The square of the king of `color`: the first one in rank-major order.
    fn find_king(&self, color: Color) -> (res: Option<Sq>)
        ensures
            res == find_king(self@, color),
            res matches Some(s) ==> s.on_board(),
    {
        let mut r: u8 = 0;
        while r < 8
            invariant
                r <= 8,
                king_search(self@, color, 0) == king_search(self@, color, r * 8),
            decreases 8 - r,
        {
            let mut f: u8 = 0;
            while f < 8
                invariant
                    r < 8,
                    f <= 8,
                    king_search(self@, color, 0) == king_search(self@, color, r * 8 + f),
                decreases 8 - f,
            {
                let sq = Sq::new(f, r);
                proof {
                    lemma_sq_at(r as int, f as int);
                }
                match self.get(sq) {
                    Some((c, Piece::King)) => {
                        if c == color {
                            return Some(sq);
                        }
                    },
                    _ => {},
                }
                f = f + 1;
            }
            r = r + 1;
        }
        None
    }

    /// The king of `color` is attacked; a side without a king is never in check.
    pub fn is_in_check(&self, color: Color) -> (res: bool)
        ensures
            res == in_check(self@, color),
    {
        match self.find_king(color) {
            Some(sq) => self.is_attacked(sq, color.flip()),
            None => false,
        }
    }

    /// Making `mv` leaves the king of the side to move in check.
    pub(crate) fn leaves_in_check(&self, mv: Move) -> (res: bool)
        requires
            apply_ok(self@, mv),
        ensures
            res == in_check(apply(self@, mv), self@.turn),
    {
        self.apply_move(mv).is_in_check(self.turn)
    }
}

} // verus!
