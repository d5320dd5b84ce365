//! The placement field of a FEN, read square by square.
use vstd::prelude::*;
use crate::types::Sq;
use crate::fen::{is_digit, parse_fen, parse_row, piece_of, row_scan, split, words};
use crate::rules::{Cell, sq_at};
use crate::attack::lemma_sq_at;

verus! {

/// The cells a rank text spells from the a-file on: a digit `d` stands for `d` empty
/// squares, a letter for the piece it names.
pub open spec fn unfold(row: Seq<char>) -> Seq<Cell>
    decreases row.len(),
{
    if row.len() == 0 {
        Seq::empty()
    } else {
        let prev = unfold(row.drop_last());
        let c = row.last();
        if is_digit(c) {
            prev + Seq::new((c as u32 - 48) as nat, |i: int| None)
        } else {
            prev.push(piece_of(c))
        }
    }
}

/// Every character of the rank text is a digit or a piece letter, and no piece letter
/// falls past the h-file.
pub open spec fn row_ok(row: Seq<char>) -> bool {
    forall|j: int|
        0 <= j < row.len() ==> is_digit(#[trigger] row[j]) || (piece_of(row[j]) is Some
            && unfold(row.take(j)).len() < 8)
}

/// The cell on file `f` of a rank spelled by `row`: empty past the end of the text.
pub open spec fn cell_of(row: Seq<char>, f: int) -> Cell {
    if f < unfold(row).len() {
        unfold(row)[f]
    } else {
        None
    }
}

proof fn lemma_row_scan_unfold(row: Seq<char>, n: int)
    requires
        0 <= n <= row.len(),
    ensures
        row_ok(row.take(n)) <==> row_scan(row, n) is Some,
        row_scan(row, n) matches Some(st) ==> {
            &&& st.0 == unfold(row.take(n)).len()
            &&& st.1.len() == 8
            &&& forall|f: int| 0 <= f < 8 ==> #[trigger] st.1[f] == cell_of(row.take(n), f)
        },
    decreases n,
{
    let t = row.take(n);
    if n == 0 {
        assert(t.len() == 0);
        assert(unfold(t).len() == 0);
    } else {
        lemma_row_scan_unfold(row, n - 1);
        let t0 = row.take(n - 1);
        assert(t.drop_last() =~= t0);
        assert(t.last() == row[n - 1]);
        let c = row[n - 1];
        assert forall|j: int| 0 <= j < n - 1 implies #[trigger] t.take(j) =~= t0.take(j) && t[j] == t0[j] by {
        }
        assert(t.take(n - 1) =~= t0);
        if row_ok(t) {
            assert(row_ok(t0)) by {
                assert forall|j: int| 0 <= j < t0.len() implies is_digit(#[trigger] t0[j]) || (piece_of(t0[j]) is Some
                    && unfold(t0.take(j)).len() < 8) by {
                    assert(t[j] == t0[j]);
                    assert(t.take(j) =~= t0.take(j));
                }
            }
            assert(is_digit(t[n - 1]) || (piece_of(t[n - 1]) is Some && unfold(t.take(n - 1)).len() < 8));
        }
        if row_ok(t0) && (is_digit(c) || (piece_of(c) is Some && unfold(t0).len() < 8)) {
            assert forall|j: int| 0 <= j < t.len() implies is_digit(#[trigger] t[j]) || (piece_of(t[j]) is Some
                && unfold(t.take(j)).len() < 8) by {
                if j < n - 1 {
                    assert(t[j] == t0[j]);
                    assert(t.take(j) =~= t0.take(j));
                }
            }
        }
        match row_scan(row, n - 1) {
            None => {},
            Some(st) => {
                let u0 = unfold(t0);
                if is_digit(c) {
                    let u = unfold(t);
                    assert(u == u0 + Seq::new((c as u32 - 48) as nat, |i: int| None));
                    assert forall|f: int| 0 <= f < 8 implies #[trigger] st.1[f] == cell_of(t, f) by {
                        assert(st.1[f] == cell_of(t0, f));
                        if f < u0.len() {
                            assert(u[f] == u0[f]);
                        }
                    }
                } else if st.0 >= 8 {
                } else {
                    match piece_of(c) {
                        None => {},
                        Some(pc) => {
                            let u = unfold(t);
                            assert(u == u0.push(piece_of(c)));
                            let cells = st.1.update(st.0, Some(pc));
                            assert forall|f: int| 0 <= f < 8 implies #[trigger] cells[f] == cell_of(t, f) by {
                                assert(st.1[f] == cell_of(t0, f));
                                if f < u0.len() {
                                    assert(u[f] == u0[f]);
                                }
                            }
                        },
                    }
                }
            },
        }
    }
}

/// What a rank text spells, read square by square: it is accepted exactly when every
/// character is a digit or a piece letter and no piece letter falls past the h-file, and
/// then file `f` holds what `cell_of` gives.
pub proof fn rank_text_read_square_by_square(row: Seq<char>)
    ensures
        parse_row(row) is Some <==> row_ok(row),
        parse_row(row) matches Some(cells) ==> cells.len() == 8 && forall|f: int|
            0 <= f < 8 ==> #[trigger] cells[f] == cell_of(row, f),
{
    lemma_row_scan_unfold(row, row.len() as int);
    assert(row.take(row.len() as int) =~= row);
}

/// The placement field of a FEN (its first word) lists the ranks from rank 8 down to
/// rank 1, separated by `/`. A FEN is accepted exactly when it has a first word made of
/// eight rank texts, each accepted; the square on file `f` and rank `r` then holds what
/// the rank text for rank `r` spells on file `f`.
pub proof fn fen_placement(s: Seq<char>)
    ensures
        parse_fen(s) is Some <==> ({
            let w = words(s);
            &&& w.len() > 0
            &&& split(w[0], '/').len() == 8
            &&& forall|i: int| 0 <= i < 8 ==> row_ok(#[trigger] split(w[0], '/')[i])
        }),
        parse_fen(s) matches Some(q) ==> forall|f: int, r: int|
            0 <= f < 8 && 0 <= r < 8 ==> #[trigger] q.at(Sq { file: f as u8, rank: r as u8 })
                == cell_of(split(words(s)[0], '/')[7 - r], f),
{
    let w = words(s);
    if w.len() > 0 {
        let rows = split(w[0], '/');
        assert forall|i: int| 0 <= i < rows.len() implies (parse_row(#[trigger] rows[i]) is Some <==> row_ok(rows[i])) by {
            rank_text_read_square_by_square(rows[i]);
        }
        if parse_fen(s) is Some {
            let q = parse_fen(s)->0;
            assert forall|f: int, r: int|
                0 <= f < 8 && 0 <= r < 8 implies #[trigger] q.at(Sq { file: f as u8, rank: r as u8 })
                    == cell_of(rows[7 - r], f) by {
                rank_text_read_square_by_square(rows[7 - r]);
                lemma_sq_at(r, f);
                let k = r * 8 + f;
                assert(sq_at(k) == (Sq { file: f as u8, rank: r as u8 }));
                assert(k / 8 == r && k % 8 == f);
            }
        }
    }
}

} // verus!
