//! Reading a position in Forsyth-Edwards Notation (FEN).
use vstd::prelude::*;
use crate::types::{Color, Piece, parse_square, chars_of, square_from_chars};
use crate::board::Board;
use crate::rules::{Cell, Position};

verus! {

/// The characters with the Unicode White_Space property, which separate FEN fields.
pub open spec fn is_space(c: char) -> bool {
    let u = c as u32;
    ||| 9 <= u <= 13
    ||| u == 32
    ||| u == 0x85
    ||| u == 0xA0
    ||| u == 0x1680
    ||| 0x2000 <= u <= 0x200A
    ||| u == 0x2028
    ||| u == 0x2029
    ||| u == 0x202F
    ||| u == 0x205F
    ||| u == 0x3000
}

/// Splitting the first `n` characters of `s` at white space: the words completed so far,
/// and the word being read.
pub open spec fn words_scan(s: Seq<char>, n: int) -> (Seq<Seq<char>>, Seq<char>)
    decreases n,
{
    if n <= 0 {
        (Seq::empty(), Seq::empty())
    } else {
        let prev = words_scan(s, n - 1);
        let c = s[n - 1];
        if is_space(c) {
            if prev.1.len() > 0 {
                (prev.0.push(prev.1), Seq::empty())
            } else {
                prev
            }
        } else {
            (prev.0, prev.1.push(c))
        }
    }
}

/// The non-empty runs of non-white-space characters of `s`, in order.
pub open spec fn words(s: Seq<char>) -> Seq<Seq<char>> {
    let st = words_scan(s, s.len() as int);
    if st.1.len() > 0 {
        st.0.push(st.1)
    } else {
        st.0
    }
}

/// Splitting the first `n` characters of `s` at `sep`: the pieces completed so far, and
/// the piece being read.
pub open spec fn split_scan(s: Seq<char>, sep: char, n: int) -> (Seq<Seq<char>>, Seq<char>)
    decreases n,
{
    if n <= 0 {
        (Seq::empty(), Seq::empty())
    } else {
        let prev = split_scan(s, sep, n - 1);
        let c = s[n - 1];
        if c == sep {
            (prev.0.push(prev.1), Seq::empty())
        } else {
            (prev.0, prev.1.push(c))
        }
    }
}

/// The pieces of `s` between occurrences of `sep`, empty ones included.
pub open spec fn split(s: Seq<char>, sep: char) -> Seq<Seq<char>> {
    let st = split_scan(s, sep, s.len() as int);
    st.0.push(st.1)
}

/// The piece named by a FEN letter: upper case for White, lower case for Black.
pub open spec fn piece_of(c: char) -> Cell {
    if c == 'P' {
        Some((Color::White, Piece::Pawn))
    } else if c == 'N' {
        Some((Color::White, Piece::Knight))
    } else if c == 'B' {
        Some((Color::White, Piece::Bishop))
    } else if c == 'R' {
        Some((Color::White, Piece::Rook))
    } else if c == 'Q' {
        Some((Color::White, Piece::Queen))
    } else if c == 'K' {
        Some((Color::White, Piece::King))
    } else if c == 'p' {
        Some((Color::Black, Piece::Pawn))
    } else if c == 'n' {
        Some((Color::Black, Piece::Knight))
    } else if c == 'b' {
        Some((Color::Black, Piece::Bishop))
    } else if c == 'r' {
        Some((Color::Black, Piece::Rook))
    } else if c == 'q' {
        Some((Color::Black, Piece::Queen))
    } else if c == 'k' {
        Some((Color::Black, Piece::King))
    } else {
        None
    }
}

/// The character is a decimal digit.
pub open spec fn is_digit(c: char) -> bool {
    48 <= (c as u32) <= 57
}

/// Reading the first `n` characters of a rank: the file reached and the cells filled,
/// or `None` once a character is rejected. A digit skips that many files; a piece letter
/// fills the current file, which must be on the board.
pub open spec fn row_scan(row: Seq<char>, n: int) -> Option<(int, Seq<Cell>)>
    decreases n,
{
    if n <= 0 {
        Some((0, Seq::new(8, |i: int| None)))
    } else {
        match row_scan(row, n - 1) {
            None => None,
            Some(st) => {
                let c = row[n - 1];
                if is_digit(c) {
                    Some((st.0 + (c as u32 - 48), st.1))
                } else if st.0 >= 8 {
                    None
                } else {
                    match piece_of(c) {
                        None => None,
                        Some(pc) => Some((st.0 + 1, st.1.update(st.0, Some(pc)))),
                    }
                }
            },
        }
    }
}

/// The eight cells of a rank, files a to h, if the rank text is accepted.
pub open spec fn parse_row(row: Seq<char>) -> Option<Seq<Cell>> {
    match row_scan(row, row.len() as int) {
        Some(st) => Some(st.1),
        None => None,
    }
}

/// The castling field used when a FEN has none.
pub open spec fn default_castling() -> Seq<char> {
    seq!['K', 'Q', 'k', 'q']
}

/// The position described by a FEN text, if it is accepted.
///
/// The placement field must split at `/` into eight ranks, from rank 8 down to rank 1,
/// each of them accepted by `parse_row`. The side to move is Black exactly when the second
/// field is `b`. The castling rights are the letters `K`, `Q`, `k`, `q` found in the third
/// field (all four when it is missing). The en passant square is named by the fourth field
/// unless it is missing or `-`. Further fields are ignored.
pub open spec fn parse_fen(s: Seq<char>) -> Option<Position> {
    let parts = words(s);
    if parts.len() == 0 {
        None
    } else {
        let rows = split(parts[0], '/');
        if rows.len() != 8 {
            None
        } else if exists|i: int| 0 <= i < 8 && #[trigger] parse_row(rows[i]) is None {
            None
        } else {
            let cs = if parts.len() > 2 {
                parts[2]
            } else {
                default_castling()
            };
            Some(
                Position {
                    cells: Seq::new(64, |k: int| parse_row(rows[7 - k / 8])->0[k % 8]),
                    turn: if parts.len() > 1 && parts[1] == seq!['b'] {
                        Color::Black
                    } else {
                        Color::White
                    },
                    castling: seq![cs.contains('K'), cs.contains('Q'), cs.contains('k'), cs.contains('q')],
                    en_passant: if parts.len() > 3 && parts[3] != seq!['-'] {
                        parse_square(parts[3])
                    } else {
                        None
                    },
                },
            )
        }
    }
}

/// The texts held by a list of character vectors.
pub open spec fn texts(v: Seq<Vec<char>>) -> Seq<Seq<char>> {
    v.map_values(|w: Vec<char>| w@)
}

/// The character has the Unicode White_Space property.
fn is_white_space(c: char) -> (res: bool)
    ensures
        res == is_space(c),
{
    let u = c as u32;
    (9 <= u && u <= 13) || u == 32 || u == 0x85 || u == 0xA0 || u == 0x1680 || (0x2000 <= u && u
        <= 0x200A) || u == 0x2028 || u == 0x2029 || u == 0x202F || u == 0x205F || u == 0x3000
}

/// The non-empty runs of non-white-space characters of `cs`.
fn split_words(cs: &Vec<char>) -> (res: Vec<Vec<char>>)
    ensures
        texts(res@) == words(cs@),
{
    let mut ws: Vec<Vec<char>> = Vec::new();
    let mut cur: Vec<char> = Vec::new();
    let n = cs.len();
    for i in 0..n
        invariant
            n == cs@.len(),
            texts(ws@) == words_scan(cs@, i as int).0,
            cur@ == words_scan(cs@, i as int).1,
    {
        let c = cs[i];
        if is_white_space(c) {
            if cur.len() > 0 {
                let ghost old_ws = ws@;
                ws.push(cur);
                cur = Vec::new();
                assert(texts(ws@) =~= texts(old_ws).push(words_scan(cs@, i as int).1));
            }
        } else {
            cur.push(c);
        }
    }
    if cur.len() > 0 {
        let ghost old_ws = ws@;
        ws.push(cur);
        assert(texts(ws@) =~= texts(old_ws).push(words_scan(cs@, n as int).1));
    }
    ws
}

/// The pieces of `cs` between occurrences of `sep`.
fn split_on(cs: &Vec<char>, sep: char) -> (res: Vec<Vec<char>>)
    ensures
        texts(res@) == split(cs@, sep),
{
    let mut ps: Vec<Vec<char>> = Vec::new();
    let mut cur: Vec<char> = Vec::new();
    let n = cs.len();
    for i in 0..n
        invariant
            n == cs@.len(),
            texts(ps@) == split_scan(cs@, sep, i as int).0,
            cur@ == split_scan(cs@, sep, i as int).1,
    {
        let c = cs[i];
        if c == sep {
            let ghost old_ps = ps@;
            ps.push(cur);
            cur = Vec::new();
            assert(texts(ps@) =~= texts(old_ps).push(split_scan(cs@, sep, i as int).1));
        } else {
            cur.push(c);
        }
    }
    let ghost old_ps = ps@;
    ps.push(cur);
    assert(texts(ps@) =~= texts(old_ps).push(split_scan(cs@, sep, n as int).1));
    ps
}

/// The piece named by a FEN letter.
fn piece_from_char(c: char) -> (res: Option<(Color, Piece)>)
    ensures
        res == piece_of(c),
{
    let color = if 'A' <= c && c <= 'Z' { Color::White } else { Color::Black };
    let lower = if 'A' <= c && c <= 'Z' { ((c as u32) + 32) as u8 as char } else { c };
    let piece = match lower {
        'p' => Piece::Pawn,
        'n' => Piece::Knight,
        'b' => Piece::Bishop,
        'r' => Piece::Rook,
        'q' => Piece::Queen,
        'k' => Piece::King,
        _ => return None,
    };
    Some((color, piece))
}

/// The eight cells of a rank, if its text is accepted.
fn parse_rank(row: &Vec<char>) -> (res: Option<[Option<(Color, Piece)>; 8]>)
    ensures
        match res {
            Some(a) => parse_row(row@) == Some(a@),
            None => parse_row(row@) is None,
        },
{
    let mut cells: [Option<(Color, Piece)>; 8] = [None; 8];
    let mut file: usize = 0;
    let n = row.len();
    let mut i: usize = 0;
    assert(cells@ =~= Seq::new(8, |i: int| None::<(Color, Piece)>));
    while i < n
        invariant
            i <= n,
            n == row@.len(),
            row_scan(row@, i as int) matches Some(st) && cells@ == st.1 && file as int == if st.0
                < usize::MAX {
                st.0
            } else {
                usize::MAX as int
            },
            row_scan(row@, i as int) matches Some(st) ==> st.1.len() == 8 && st.0 >= 0,
        decreases n - i,
    {
        let c = row[i];
        if 48 <= (c as u32) && (c as u32) <= 57 {
            let d = (c as u32 - 48) as usize;
            file = file.saturating_add(d);
        } else {
            if file >= 8 {
                assert(row_scan(row@, i + 1) is None);
                proof { lemma_row_scan_none(row@, i + 1, n as int); }
                return None;
            }
            match piece_from_char(c) {
                None => {
                    assert(row_scan(row@, i + 1) is None);
                    proof { lemma_row_scan_none(row@, i + 1, n as int); }
                    return None;
                },
                Some(pc) => {
                    cells[file] = Some(pc);
                    file = file + 1;
                },
            }
        }
        i = i + 1;
    }
    Some(cells)
}

/// Once a rank is rejected it stays rejected.
proof fn lemma_row_scan_none(row: Seq<char>, i: int, n: int)
    requires
        0 <= i <= n,
        row_scan(row, i) is None,
    ensures
        row_scan(row, n) is None,
    decreases n - i,
{
    if i < n {
        lemma_row_scan_none(row, i + 1, n);
    }
}

/// The character `c` occurs in `cs`.
fn has_char(cs: &Vec<char>, c: char) -> (res: bool)
    ensures
        res == cs@.contains(c),
{
    let n = cs.len();
    for i in 0..n
        invariant
            n == cs@.len(),
            forall|j: int| 0 <= j < i ==> cs@[j] != c,
    {
        if cs[i] == c {
            assert(cs@[i as int] == c);
            return true;
        }
    }
    false
}

impl Board {
    /// Reads a position in FEN; see `parse_fen` for what is accepted.
    pub fn from_fen(fen: &str) -> (res: Option<Board>)
        ensures
            match res {
                Some(b) => parse_fen(fen@) == Some(b@),
                None => parse_fen(fen@) is None,
            },
    {
        let chars = chars_of(fen);
        let parts = split_words(&chars);
        let ghost ws = words(fen@);
        if parts.len() == 0 {
            return None;
        }
        assert(parts@[0]@ == ws[0]);
        let rows = split_on(&parts[0], '/');
        let ghost rs = split(ws[0], '/');
        if rows.len() != 8 {
            return None;
        }
        let mut squares: [Option<(Color, Piece)>; 64] = [None; 64];
        let mut ri: usize = 0;
        while ri < 8
            invariant
                ri <= 8,
                ws == words(fen@),
                texts(parts@) == ws,
                ws.len() > 0,
                rs == split(ws[0], '/'),
                rows@.len() == 8,
                texts(rows@) == rs,
                forall|j: int| 0 <= j < ri ==> #[trigger] parse_row(rs[j]) is Some,
                forall|r: int, f: int|
                    0 <= r < 8 && 0 <= f < 8 ==> #[trigger] squares@[r * 8 + f] == if r > 7 - ri {
                        parse_row(rs[7 - r])->0[f]
                    } else {
                        None
                    },
            decreases 8 - ri,
        {
            assert(rows@[ri as int]@ == rs[ri as int]);
            let rank = 7 - ri;
            match parse_rank(&rows[ri]) {
                None => {
                    assert(parse_row(rs[ri as int]) is None);
                    return None;
                },
                Some(cells) => {
                    let ghost before = squares@;
                    let mut f: usize = 0;
                    while f < 8
                        invariant
                            f <= 8,
                            rank == 7 - ri,
                            ri < 8,
                            parse_row(rs[ri as int]) == Some(cells@),
                            forall|r: int, g: int|
                                0 <= r < 8 && 0 <= g < 8 ==> #[trigger] squares@[r * 8 + g] == if r
                                    == rank && g < f {
                                    cells@[g]
                                } else {
                                    before[r * 8 + g]
                                },
                        decreases 8 - f,
                    {
                        squares[rank * 8 + f] = cells[f];
                        proof {
                            assert forall|r: int, g: int| 0 <= r < 8 && 0 <= g < 8 implies #[trigger] squares@[r * 8 + g] == if r == rank && g < f + 1 {
                                cells@[g]
                            } else {
                                before[r * 8 + g]
                            } by {
                                if r * 8 + g == rank * 8 + f {
                                    assert(r == rank && g == f) by (nonlinear_arith)
                                        requires r * 8 + g == rank * 8 + f, 0 <= g < 8, 0 <= f < 8;
                                }
                            }
                        }
                        f = f + 1;
                    }
                },
            }
            ri = ri + 1;
        }
        let turn = if parts.len() > 1 && parts[1].len() == 1 && parts[1][0] == 'b' {
            Color::Black
        } else {
            Color::White
        };
        let default_cs = vec!['K', 'Q', 'k', 'q'];
        let cs = if parts.len() > 2 { &parts[2] } else { &default_cs };
        let castling = [has_char(cs, 'K'), has_char(cs, 'Q'), has_char(cs, 'k'), has_char(cs, 'q')];
        let en_passant = if parts.len() > 3 {
            if parts[3].len() == 1 && parts[3][0] == '-' {
                None
            } else {
                square_from_chars(&parts[3])
            }
        } else {
            None
        };
        let b = Board::from_parts(squares, turn, castling, en_passant);
        proof {
            let p = parse_fen(fen@).unwrap();
            assert(forall|i: int| 0 <= i < 8 ==> #[trigger] parse_row(rs[i]) is Some);
            assert forall|k: int| 0 <= k < 64 implies #[trigger] squares@[k] == p.cells[k] by {
                assert(0 <= k % 8 < 8 && 0 <= k / 8 < 8 && (k / 8) * 8 + k % 8 == k) by (nonlinear_arith)
                    requires 0 <= k < 64;
                assert(squares@[(k / 8) * 8 + k % 8] == parse_row(rs[7 - k / 8])->0[k % 8]);
            }
            assert(squares@ =~= p.cells);
            if parts.len() > 1 {
                assert(parts@[1]@ == ws[1]);
                assert((parts[1].len() == 1 && parts[1][0] == 'b') == (ws[1] =~= seq!['b']));
            }
            if parts.len() > 2 {
                assert(parts@[2]@ == ws[2]);
            }
            if parts.len() > 3 {
                assert(parts@[3]@ == ws[3]);
                assert((parts[3].len() == 1 && parts[3][0] == '-') == (ws[3] =~= seq!['-']));
            }
            assert(default_cs@ =~= seq!['K', 'Q', 'k', 'q']);
            assert(castling@ =~= p.castling);
            assert(b@ =~= p);
        }
        Some(b)
    }
}

} // verus!
