//! Properties of the library as a whole, proved over the rules.
use vstd::prelude::*;
use crate::types::{Color, Piece, Sq, Move, square_name, parse_square, move_name};
use crate::fen::{parse_fen, words};
use crate::rules::{Position, apply, apply_ok, attacked, castle_moves, enterable, home_sq, in_check, is_checkmate, is_stalemate, keeps_king_safe, king_deltas, king_moves, kingside, home_rank, landing, leaper_moves, legal_moves, pawn_dir, piece_moves, promotion_rank, pseudo_moves, queenside};
use crate::consistency::{lemma_after, consistent, king_at, lemma_capture_attacks, lemma_consistent_kept,
    lemma_find_unique_king, lemma_pawn_shape, move_facts};
use crate::distinct::{no_dups, lemma_pseudo_distinct, lemma_king_near};
use crate::generated::{fits, generated_ok, lemma_pseudo_ok, lemma_pseudo_members, piece_move_of};

verus! {

/// Flipping a color twice gives it back, and flipping changes it.
pub proof fn flip_is_an_involution(c: Color)
    ensures
        c.flip().flip() == c,
        c.flip() != c,
{
}

/// Reading back the algebraic name of a square on the board gives the square.
pub proof fn square_name_round_trip(s: Sq)
    requires
        s.on_board(),
    ensures
        parse_square(square_name(s)) == Some(s),
{
    let n = square_name(s);
    assert(n[0] as u32 == 97 + s.file);
    assert(n[1] as u32 == 49 + s.rank);
}

/// The elements of a filtered sequence are elements of the sequence that pass the test.
proof fn lemma_filter_from<A>(s: Seq<A>, pred: spec_fn(A) -> bool)
    ensures
        forall|i: int|
            0 <= i < s.filter(pred).len() ==> s.contains(#[trigger] s.filter(pred)[i]) && pred(
                s.filter(pred)[i],
            ),
    decreases s.len(),
{
    reveal(Seq::filter);
    if s.len() > 0 {
        lemma_filter_from(s.drop_last(), pred);
        let f = s.filter(pred);
        let g = s.drop_last().filter(pred);
        assert forall|i: int| 0 <= i < f.len() implies s.contains(#[trigger] f[i]) && pred(f[i]) by {
            if i < g.len() {
                assert(f[i] == g[i]);
                let j = choose|j: int| 0 <= j < s.drop_last().len() && s.drop_last()[j] == g[i];
                assert(s[j] == g[i]);
            } else {
                assert(f[i] == s.last());
                assert(s[s.len() - 1] == s.last());
            }
        }
    }
}

/// The legal moves are exactly the generated moves that do not leave the mover's king in
/// check: each legal move is generated and keeps the king safe, and each generated move
/// that keeps the king safe is legal.
pub proof fn legal_moves_are_the_safe_moves(p: Position)
    ensures
        forall|i: int|
            0 <= i < legal_moves(p).len() ==> pseudo_moves(p).contains(#[trigger] legal_moves(p)[i])
                && !in_check(apply(p, legal_moves(p)[i]), p.turn),
        forall|i: int|
            0 <= i < pseudo_moves(p).len() && !in_check(apply(p, #[trigger] pseudo_moves(p)[i]), p.turn)
                ==> legal_moves(p).contains(pseudo_moves(p)[i]),
{
    lemma_filter_from(pseudo_moves(p), keeps_king_safe(p));
    assert forall|i: int|
        0 <= i < pseudo_moves(p).len() && !in_check(apply(p, #[trigger] pseudo_moves(p)[i]), p.turn)
        implies legal_moves(p).contains(pseudo_moves(p)[i]) by {
        pseudo_moves(p).lemma_filter_contains(keeps_king_safe(p), i);
    }
}

/// Each legal move is generated, hence moves a piece of the side to move.
pub(crate) proof fn lemma_legal_generated(p: Position)
    requires
        p.wf(),
    ensures
        forall|i: int| 0 <= i < legal_moves(p).len() ==> generated_ok(p, #[trigger] legal_moves(p)[i]),
        forall|i: int| 0 <= i < legal_moves(p).len() ==> piece_move_of(p, #[trigger] legal_moves(p)[i]),
{
    lemma_filter_from(pseudo_moves(p), keeps_king_safe(p));
    lemma_pseudo_ok(p);
    lemma_pseudo_members(p);
    assert forall|i: int| 0 <= i < legal_moves(p).len() implies generated_ok(p, #[trigger] legal_moves(p)[i])
        && piece_move_of(p, legal_moves(p)[i]) by {
        let m = legal_moves(p)[i];
        assert(pseudo_moves(p).contains(m));
        let j = choose|j: int| 0 <= j < pseudo_moves(p).len() && pseudo_moves(p)[j] == m;
        assert(generated_ok(p, pseudo_moves(p)[j]));
        assert(piece_move_of(p, pseudo_moves(p)[j]));
    }
}

/// A legal move takes a piece of the side to move from a square on the board to a square
/// on the board that is empty or holds an enemy piece; and it can be made.
pub proof fn legal_moves_move_own_pieces(p: Position)
    requires
        p.wf(),
    ensures
        forall|i: int|
            0 <= i < legal_moves(p).len() ==> {
                let m = #[trigger] legal_moves(p)[i];
                &&& m.from.on_board()
                &&& m.to.on_board()
                &&& p.at(m.from) matches Some((c, _)) && c == p.turn
                &&& enterable(p, m.to, p.turn)
                &&& apply_ok(p, m)
            },
{
    lemma_legal_generated(p);
}

/// A legal move promotes exactly when a pawn reaches the last rank, and never to a pawn
/// or a king.
pub proof fn promotion_exactly_on_last_rank(p: Position)
    requires
        p.wf(),
    ensures
        forall|i: int|
            0 <= i < legal_moves(p).len() ==> {
                let m = #[trigger] legal_moves(p)[i];
                &&& m.promotion is Some <==> (p.at(m.from) == Some((p.turn, Piece::Pawn))
                    && m.to.rank == promotion_rank(p.turn))
                &&& m.promotion matches Some(x) ==> x != Piece::Pawn && x != Piece::King
            },
{
    lemma_legal_generated(p);
}

/// A legal king move by two files is castling: the king stands on its starting square, is
/// not in check, keeps the castling right on that side, the rook of that side stands on its
/// corner, the squares between king and rook are empty, and the squares the king crosses
/// and lands on are not attacked.
pub proof fn castling_is_safe(p: Position)
    requires
        p.wf(),
    ensures
        forall|i: int|
            0 <= i < legal_moves(p).len() ==> {
                let m = #[trigger] legal_moves(p)[i];
                let c = p.turn;
                p.at(m.from) == Some((c, Piece::King)) && m.to.file == m.from.file + 2 ==> {
                    &&& m.from == home_sq(c, 4)
                    &&& m.to == home_sq(c, 6)
                    &&& !in_check(p, c)
                    &&& p.castling[kingside(c)]
                    &&& p.at(home_sq(c, 7)) == Some((c, Piece::Rook))
                    &&& p.at(home_sq(c, 5)) is None
                    &&& p.at(home_sq(c, 6)) is None
                    &&& !attacked(p, home_sq(c, 5), c.flip())
                    &&& !attacked(p, home_sq(c, 6), c.flip())
                }
            },
        forall|i: int|
            0 <= i < legal_moves(p).len() ==> {
                let m = #[trigger] legal_moves(p)[i];
                let c = p.turn;
                p.at(m.from) == Some((c, Piece::King)) && m.to.file + 2 == m.from.file ==> {
                    &&& m.from == home_sq(c, 4)
                    &&& m.to == home_sq(c, 2)
                    &&& !in_check(p, c)
                    &&& p.castling[queenside(c)]
                    &&& p.at(home_sq(c, 0)) == Some((c, Piece::Rook))
                    &&& p.at(home_sq(c, 3)) is None
                    &&& p.at(home_sq(c, 2)) is None
                    &&& p.at(home_sq(c, 1)) is None
                    &&& !attacked(p, home_sq(c, 3), c.flip())
                    &&& !attacked(p, home_sq(c, 2), c.flip())
                }
            },
{
    lemma_legal_generated(p);
    assert forall|i: int| 0 <= i < legal_moves(p).len() implies {
        let m = #[trigger] legal_moves(p)[i];
        let c = p.turn;
        (p.at(m.from) == Some((c, Piece::King)) && (m.to.file == m.from.file + 2 || m.to.file + 2
            == m.from.file)) ==> castle_moves(p, m.from, c).contains(m)
    } by {
        let m = legal_moves(p)[i];
        let c = p.turn;
        if p.at(m.from) == Some((c, Piece::King)) && (m.to.file == m.from.file + 2 || m.to.file + 2
            == m.from.file) {
            assert(piece_move_of(p, m));
            let ms = king_moves(p, m.from, c);
            let steps = leaper_moves(p, m.from, c, king_deltas());
            let cm = castle_moves(p, m.from, c);
            assert(ms == steps + cm);
            let j = choose|j: int| 0 <= j < ms.len() && ms[j] == m;
            lemma_king_near(p, m.from, c, king_deltas());
            if j < steps.len() {
                assert(ms[j] == steps[j]);
            } else {
                assert(ms[j] == cm[j - steps.len()]);
            }
        }
    }
}

/// After a move the other side is to move.
pub proof fn apply_hands_over_the_turn(p: Position, m: Move)
    ensures
        apply(p, m).turn == p.turn.flip(),
{
}

/// A lost castling right is never regained.
pub proof fn castling_rights_never_return(p: Position, m: Move)
    requires
        p.wf(),
    ensures
        apply(p, m).castling.len() == 4,
        forall|i: int| 0 <= i < 4 && #[trigger] apply(p, m).castling[i] ==> p.castling[i],
{
}

/// Moving the king loses both castling rights of its side; moving a rook from its starting
/// square loses the right on that side; and any move onto a rook's starting square loses
/// the right of that rook.
pub proof fn castling_rights_lost(p: Position, m: Move)
    requires
        p.wf(),
    ensures
        p.at(m.from) matches Some((c, Piece::King)) ==> !apply(p, m).castling[kingside(c)]
            && !apply(p, m).castling[queenside(c)],
        p.at(m.from) matches Some((c, Piece::Rook)) ==> (m.from == home_sq(c, 7) ==> !apply(
            p,
            m,
        ).castling[kingside(c)]),
        p.at(m.from) matches Some((c, Piece::Rook)) ==> (m.from == home_sq(c, 0) ==> !apply(
            p,
            m,
        ).castling[queenside(c)]),
        m.to == (Sq { file: 7, rank: 0 }) ==> !apply(p, m).castling[0],
        m.to == (Sq { file: 0, rank: 0 }) ==> !apply(p, m).castling[1],
        m.to == (Sq { file: 7, rank: 7 }) ==> !apply(p, m).castling[2],
        m.to == (Sq { file: 0, rank: 7 }) ==> !apply(p, m).castling[3],
{
}

/// A castling right survives a move exactly when it was held and the move neither moves
/// the king of that side, nor moves that side's rook away from the right's corner, nor
/// lands on that corner. The rights are, in order: White kingside (h1), White queenside
/// (a1), Black kingside (h8), Black queenside (a8).
pub proof fn castling_rights_after_a_move(p: Position, m: Move)
    requires
        p.wf(),
    ensures
        forall|i: int|
            0 <= i < 4 ==> (#[trigger] apply(p, m).castling[i] <==> {
                let c = if i < 2 { Color::White } else { Color::Black };
                let corner = Sq {
                    file: if i == 0 || i == 2 { 7u8 } else { 0u8 },
                    rank: if i < 2 { 0u8 } else { 7u8 },
                };
                &&& p.castling[i]
                &&& p.at(m.from) != Some((c, Piece::King))
                &&& !(p.at(m.from) == Some((c, Piece::Rook)) && m.from == corner)
                &&& m.to != corner
            }),
{
}

/// After a move there is an en passant square only if a pawn was pushed two ranks, and
/// then it is the square that pawn passed over.
pub proof fn en_passant_only_after_double_push(p: Position, m: Move)
    ensures
        apply(p, m).en_passant is Some ==> {
            &&& p.at(m.from) matches Some((c, Piece::Pawn))
            &&& (m.to.rank == m.from.rank + 2 || m.from.rank == m.to.rank + 2)
            &&& apply(p, m).en_passant == Some(
                Sq { file: m.from.file, rank: (m.from.rank + pawn_dir(c)) as u8 },
            )
        },
{
}

/// The moving piece lands on the target square (as the promotion piece, for a promoting
/// pawn), and the square it left is empty.
pub proof fn apply_moves_the_piece(p: Position, m: Move)
    requires
        p.wf(),
        apply_ok(p, m),
        p.at(m.from) is Some,
    ensures
        ({
            let (c, pc) = p.at(m.from)->0;
            apply(p, m).at(m.to) == match m.promotion {
                Some(x) => if pc == Piece::Pawn {
                    Some((c, x))
                } else {
                    Some((c, pc))
                },
                None => Some((c, pc)),
            }
        }),
        m.from != m.to ==> apply(p, m).at(m.from) is None,
{
    assert(m.from != m.to ==> m.from.index() != m.to.index());
}

/// The side to move is checkmated or stalemated exactly when it has no legal move, and
/// never both; a checkmated side is in check.
pub proof fn no_moves_is_mate_or_stalemate(p: Position)
    ensures
        legal_moves(p).len() == 0 <==> (is_checkmate(p) || is_stalemate(p)),
        !(is_checkmate(p) && is_stalemate(p)),
        is_checkmate(p) ==> in_check(p, p.turn),
        is_stalemate(p) ==> !in_check(p, p.turn),
{
}

/// A move changes no square other than the ones it touches: its two squares, the square
/// of a pawn taken en passant, and the rook's squares when the king castles.
pub proof fn apply_changes_only_touched_squares(p: Position, m: Move, s: Sq)
    requires
        p.wf(),
        apply_ok(p, m),
        s.on_board(),
        s != m.from,
        s != m.to,
        p.at(m.from) matches Some((c, Piece::Pawn)) ==> s != (Sq {
            file: m.to.file,
            rank: (m.to.rank - pawn_dir(c)) as u8,
        }),
        p.at(m.from) matches Some((c, Piece::King)) ==> !(s.rank == home_sq(c, 0).rank && (s.file == 0
            || s.file == 3 || s.file == 5 || s.file == 7)),
    ensures
        apply(p, m).at(s) == p.at(s),
{
    assert(s.index() != m.from.index() && s.index() != m.to.index());
    match p.at(m.from) {
        Some((c, Piece::Pawn)) => {
            if m.from.file != m.to.file && p.at(m.to) is None {
                let v = Sq { file: m.to.file, rank: (m.to.rank - pawn_dir(c)) as u8 };
                assert(v.on_board());
                assert(s.index() != v.index());
            }
        },
        Some((c, Piece::King)) => {
            let r = home_rank(c);
            assert(s.index() != (Sq { file: 7, rank: r }).index());
            assert(s.index() != (Sq { file: 5, rank: r }).index());
            assert(s.index() != (Sq { file: 0, rank: r }).index());
            assert(s.index() != (Sq { file: 3, rank: r }).index());
        },
        _ => {},
    }
}

/// Filtering keeps a sequence free of repeats.
proof fn lemma_filter_no_dups(s: Seq<Move>, pred: spec_fn(Move) -> bool)
    requires
        no_dups(s),
    ensures
        no_dups(s.filter(pred)),
    decreases s.len(),
{
    reveal(Seq::filter);
    if s.len() > 0 {
        let dl = s.drop_last();
        assert(no_dups(dl));
        lemma_filter_no_dups(dl, pred);
        lemma_filter_from(dl, pred);
        let g = dl.filter(pred);
        if pred(s.last()) {
            assert forall|i: int| 0 <= i < g.len() implies g[i] != s.last() by {
                let j = choose|j: int| 0 <= j < dl.len() && dl[j] == g[i];
                assert(s[j] == dl[j]);
                assert(s[j] != s[s.len() - 1]);
            }
            assert forall|i: int, j: int| 0 <= i < j < g.push(s.last()).len() implies g.push(s.last())[i]
                != g.push(s.last())[j] by {
                if j == g.len() {
                    assert(g.push(s.last())[i] == g[i]);
                }
            }
        }
    }
}

/// Each legal move is listed once.
pub proof fn legal_moves_listed_once(p: Position)
    requires
        p.wf(),
    ensures
        forall|i: int, j: int| 0 <= i < j < legal_moves(p).len() ==> legal_moves(p)[i] != legal_moves(p)[j],
{
    lemma_pseudo_distinct(p);
    lemma_filter_no_dups(pseudo_moves(p), keeps_king_safe(p));
}

/// What a legal move of a consistent position looks like.
proof fn lemma_legal_move_facts(p: Position, m: Move)
    requires
        consistent(p),
        legal_moves(p).contains(m),
    ensures
        move_facts(p, m),
{
    let c = p.turn;
    let o = c.flip();
    lemma_legal_generated(p);
    legal_moves_are_the_safe_moves(p);
    castling_is_safe(p);
    let i = choose|i: int| 0 <= i < legal_moves(p).len() && legal_moves(p)[i] == m;
    assert(generated_ok(p, legal_moves(p)[i]));
    assert(piece_move_of(p, legal_moves(p)[i]));
    assert(!in_check(apply(p, legal_moves(p)[i]), c));
    let (_, pc) = p.at(m.from).unwrap();
    assert(p.at(m.from) == Some((c, pc)));
    assert(fits(p, m.from, c, pc, m));
    assert(piece_moves(p, m.from, c, pc).contains(m));
    if pc == Piece::Pawn {
        lemma_pawn_shape(p, m.from, c, m);
    }
    if p.at(m.to) == Some((o, Piece::King)) {
        lemma_capture_attacks(p, m.from, c, pc, m);
        let ko = choose|k: Sq| king_at(p, o, k);
        assert(m.to == ko);
        lemma_find_unique_king(p, o, ko);
        assert(in_check(p, o));
    }
}

/// A legal move keeps a consistent position consistent: each side keeps exactly one king,
/// no pawn stands on an end rank, the side that moved is not in check, every castling
/// right is backed by king and rook on their starting squares, and an en passant square
/// lies empty behind a pawn that has just advanced two ranks.
pub proof fn legal_moves_keep_positions_consistent(p: Position, m: Move)
    requires
        consistent(p),
        legal_moves(p).contains(m),
    ensures
        consistent(apply(p, m)),
{
    lemma_legal_move_facts(p, m);
    lemma_consistent_kept(p, m);
}

/// Castling moves the rook: when the king of `c` goes from its e-square two files to the
/// g-square, the h-square of its home rank is empty afterwards and the f-square holds a
/// rook of `c`; toward the c-square, the a-square is empty and the d-square holds the rook.
/// The king stands on its target and its e-square is empty.
pub proof fn castling_moves_the_rook(p: Position, m: Move, c: Color)
    requires
        p.wf(),
        apply_ok(p, m),
        p.at(m.from) == Some((c, Piece::King)),
        m.from == (Sq { file: 4, rank: if c == Color::White { 0u8 } else { 7u8 } }),
    ensures
        ({
            let r: u8 = if c == Color::White { 0u8 } else { 7u8 };
            let q = apply(p, m);
            m.to == (Sq { file: 6, rank: r }) ==> {
                &&& q.at(Sq { file: 6, rank: r }) == Some((c, Piece::King))
                &&& q.at(Sq { file: 5, rank: r }) == Some((c, Piece::Rook))
                &&& q.at(Sq { file: 7, rank: r }) is None
                &&& q.at(Sq { file: 4, rank: r }) is None
            }
        }),
        ({
            let r: u8 = if c == Color::White { 0u8 } else { 7u8 };
            let q = apply(p, m);
            m.to == (Sq { file: 2, rank: r }) ==> {
                &&& q.at(Sq { file: 2, rank: r }) == Some((c, Piece::King))
                &&& q.at(Sq { file: 3, rank: r }) == Some((c, Piece::Rook))
                &&& q.at(Sq { file: 0, rank: r }) is None
                &&& q.at(Sq { file: 4, rank: r }) is None
            }
        }),
{
    let r: u8 = if c == Color::White { 0u8 } else { 7u8 };
    lemma_after(p, m, Sq { file: 0, rank: r });
    lemma_after(p, m, Sq { file: 2, rank: r });
    lemma_after(p, m, Sq { file: 3, rank: r });
    lemma_after(p, m, Sq { file: 4, rank: r });
    lemma_after(p, m, Sq { file: 5, rank: r });
    lemma_after(p, m, Sq { file: 6, rank: r });
    lemma_after(p, m, Sq { file: 7, rank: r });
}

/// A pawn that moves one rank forward and one file aside onto an empty square takes the
/// pawn it passed: the square beside its starting square, on the file it moves to, is
/// empty afterwards.
pub proof fn en_passant_removes_the_passed_pawn(p: Position, m: Move, c: Color)
    requires
        p.wf(),
        apply_ok(p, m),
        p.at(m.from) == Some((c, Piece::Pawn)),
        m.to.rank == m.from.rank + (if c == Color::White { 1int } else { -1int }),
        m.to.file == m.from.file + 1 || m.to.file + 1 == m.from.file,
        p.at(m.to) is None,
    ensures
        apply(p, m).at(Sq { file: m.to.file, rank: m.from.rank }) is None,
{
    lemma_after(p, m, Sq { file: m.to.file, rank: m.from.rank });
}

/// A UCI name reads back: its first two characters name the from-square, the next two the
/// to-square, and a promotion to queen, rook, bishop or knight adds its letter.
pub proof fn move_name_round_trip(m: Move)
    requires
        m.from.on_board(),
        m.to.on_board(),
    ensures
        parse_square(move_name(m)) == Some(m.from),
        parse_square(move_name(m).skip(2)) == Some(m.to),
        move_name(m).len() == match m.promotion {
            Some(Piece::Queen) | Some(Piece::Rook) | Some(Piece::Bishop) | Some(Piece::Knight) => 5int,
            _ => 4int,
        },
        m.promotion == Some(Piece::Queen) ==> move_name(m)[4] == 'q',
        m.promotion == Some(Piece::Rook) ==> move_name(m)[4] == 'r',
        m.promotion == Some(Piece::Bishop) ==> move_name(m)[4] == 'b',
        m.promotion == Some(Piece::Knight) ==> move_name(m)[4] == 'n',
{
    let n = move_name(m);
    assert(n[0] as u32 == 97 + m.from.file);
    assert(n[1] as u32 == 49 + m.from.rank);
    assert(n.skip(2)[0] == n[2]);
    assert(n.skip(2)[1] == n[3]);
    assert(n[2] as u32 == 97 + m.to.file);
    assert(n[3] as u32 == 49 + m.to.rank);
}

/// Character by character, a UCI name is the letter `a` shifted by the from-square's file,
/// the digit `1` shifted by its rank, the same two for the to-square, and the promotion
/// letter, if any; this holds for squares off the board too.
pub proof fn move_name_spells_the_squares(m: Move)
    ensures
        move_name(m).len() >= 4,
        move_name(m)[0] as u32 == 97 + m.from.file,
        move_name(m)[1] as u32 == 49 + m.from.rank,
        move_name(m)[2] as u32 == 97 + m.to.file,
        move_name(m)[3] as u32 == 49 + m.to.rank,
        move_name(m).skip(4) == match m.promotion {
            Some(Piece::Queen) => seq!['q'],
            Some(Piece::Rook) => seq!['r'],
            Some(Piece::Bishop) => seq!['b'],
            Some(Piece::Knight) => seq!['n'],
            _ => Seq::<char>::empty(),
        },
{
    let n = move_name(m);
    assert(n.skip(4) =~= match m.promotion {
        Some(Piece::Queen) => seq!['q'],
        Some(Piece::Rook) => seq!['r'],
        Some(Piece::Bishop) => seq!['b'],
        Some(Piece::Knight) => seq!['n'],
        _ => Seq::<char>::empty(),
    });
}

/// The fields of a FEN after the placement: the side to move is Black exactly when the
/// second field is `b`; the castling rights are the letters `K`, `Q`, `k`, `q` found in the
/// third field, whatever follows it, and all four when there is no third field; the
/// en passant square is named by the fourth field, and there is none when that field is
/// missing or `-`.
pub proof fn fen_fields(s: Seq<char>)
    ensures
        parse_fen(s) matches Some(q) ==> {
            let w = words(s);
            &&& (q.turn == Color::Black <==> (w.len() >= 2 && w[1] == seq!['b']))
            &&& (w.len() >= 3 ==> q.castling == seq![
                w[2].contains('K'),
                w[2].contains('Q'),
                w[2].contains('k'),
                w[2].contains('q'),
            ])
            &&& (w.len() < 3 ==> q.castling == seq![true, true, true, true])
            &&& (w.len() >= 4 && w[3] != seq!['-'] ==> q.en_passant == parse_square(w[3]))
            &&& (w.len() < 4 || w[3] == seq!['-'] ==> q.en_passant is None)
        },
{
}

/// A pawn that advances two ranks leaves the square it passed over as the en passant
/// square; any other move leaves none.
pub proof fn double_push_sets_en_passant(p: Position, m: Move)
    ensures
        p.at(m.from) == Some((Color::White, Piece::Pawn)) && m.to.rank == m.from.rank + 2 ==> apply(
            p,
            m,
        ).en_passant == Some(Sq { file: m.from.file, rank: (m.from.rank + 1) as u8 }),
        p.at(m.from) == Some((Color::Black, Piece::Pawn)) && m.from.rank == m.to.rank + 2 ==> apply(
            p,
            m,
        ).en_passant == Some(Sq { file: m.from.file, rank: (m.from.rank - 1) as u8 }),
        !(p.at(m.from) matches Some((c, Piece::Pawn)) && (m.to.rank == m.from.rank + 2
            || m.from.rank == m.to.rank + 2)) ==> apply(p, m).en_passant is None,
{
}

/// Characters with the same code are equal.
proof fn lemma_char_code_injective(x: char, y: char)
    requires
        x as u32 == y as u32,
    ensures
        x == y,
{
}

/// Algebraic names read exactly the squares of the board: a text names a square when its
/// first character is a letter `a`-`h` and its second a digit `1`-`8`, and then names the
/// square those characters spell.
pub proof fn square_names_are_read_exactly(s: Seq<char>, q: Sq)
    ensures
        parse_square(s) == Some(q) ==> q.on_board() && s.len() >= 2 && s.take(2) == square_name(q),
        q.on_board() && s.len() >= 2 && s.take(2) == square_name(q) ==> parse_square(s) == Some(q),
        parse_square(s) is None <==> !(s.len() >= 2 && 97 <= (s[0] as u32) <= 104 && 49 <= (
            s[1] as u32) <= 56),
{
    if parse_square(s) == Some(q) {
        let n = square_name(q);
        assert(n[0] as u32 == 97 + q.file);
        assert(n[1] as u32 == 49 + q.rank);
        assert(n[0] as u32 == s[0] as u32);
        assert(n[1] as u32 == s[1] as u32);
        lemma_char_code_injective(n[0], s[0]);
        lemma_char_code_injective(n[1], s[1]);
        assert(s.take(2) =~= n);
    }
    if q.on_board() && s.len() >= 2 && s.take(2) == square_name(q) {
        assert(s[0] == s.take(2)[0]);
        assert(s[1] == s.take(2)[1]);
        assert(square_name(q)[0] as u32 == 97 + q.file);
        assert(square_name(q)[1] as u32 == 49 + q.rank);
    }
}

} // verus!
