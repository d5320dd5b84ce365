//! Colors, pieces, squares and moves.
use vstd::prelude::*;

verus! {

/// Side of a piece, and side to move.
#[derive(Clone, Copy, PartialEq, Eq, Structural, Debug, Hash)]
pub enum Color {
    White,
    Black,
}

impl Color {
    /// The other side.
    #[verifier::allow_in_spec]
    pub fn flip(self) -> Color
        returns
            (match self {
                Color::White => Color::Black,
                Color::Black => Color::White,
            }),
    {
        match self {
            Color::White => Color::Black,
            Color::Black => Color::White,
        }
    }
}

/// Kind of a chess piece.
#[derive(Clone, Copy, PartialEq, Eq, Structural, Debug, Hash)]
pub enum Piece {
    Pawn,
    Knight,
    Bishop,
    Rook,
    Queen,
    King,
}

/// Square as geometric coordinate: file 0=a..7=h, rank 0=1..7=8.
#[derive(Clone, Copy, PartialEq, Eq, Structural, Debug, Hash)]
pub struct Sq {
    pub file: u8,
    pub rank: u8,
}

/// The square `d` steps of `(df, dr)` away from `s`, if it lies on the board.
pub open spec fn offset(s: Sq, df: int, dr: int) -> Option<Sq> {
    let f = s.file + df;
    let r = s.rank + dr;
    if 0 <= f < 8 && 0 <= r < 8 {
        Some(Sq { file: f as u8, rank: r as u8 })
    } else {
        None
    }
}

/// Text of a square in algebraic notation: file letter then rank digit.
pub open spec fn square_name(s: Sq) -> Seq<char> {
    seq![(97 + s.file) as char, (49 + s.rank) as char]
}

/// The square named by the first two characters of `s`, if they name one.
pub open spec fn parse_square(s: Seq<char>) -> Option<Sq> {
    if s.len() >= 2 && 97 <= (s[0] as u32) <= 104 && 49 <= (s[1] as u32) <= 56 {
        Some(Sq { file: (s[0] as u32 - 97) as u8, rank: (s[1] as u32 - 49) as u8 })
    } else {
        None
    }
}

impl Sq {
    /// The square lies on the 8x8 board.
    pub open spec fn on_board(self) -> bool {
        self.file < 8 && self.rank < 8
    }

    /// Index of the square in rank-major order (a1 = 0, b1 = 1, ..., h8 = 63).
    pub open spec fn index(self) -> int {
        self.rank * 8 + self.file
    }

    #[verifier::allow_in_spec]
    pub fn new(file: u8, rank: u8) -> Sq
        returns
            (Sq { file, rank }),
    {
        Sq { file, rank }
    }

    /// Parses algebraic notation such as `"e2"`; characters after the second are ignored.
    pub fn from_algebraic(s: &str) -> (res: Option<Sq>)
        ensures
            res == parse_square(s@),
    {
        let cs = chars_of(s);
        square_from_chars(&cs)
    }

    /// The neighbour `(df, dr)` away, if it lies on the board.
    pub(crate) fn offset(self, df: i8, dr: i8) -> (res: Option<Sq>)
        requires
            self.on_board(),
            -120 <= df <= 120,
            -120 <= dr <= 120,
        ensures
            res == offset(self, df as int, dr as int),
    {
        let f = self.file as i8 + df;
        let r = self.rank as i8 + dr;
        if 0 <= f && f < 8 && 0 <= r && r < 8 {
            Some(Sq { file: f as u8, rank: r as u8 })
        } else {
            None
        }
    }

    /// The square in algebraic notation, e.g. `"e2"`.
    pub fn to_string(&self) -> (res: String)
        requires
            self.file <= 158,
            self.rank <= 206,
        ensures
            res@ == square_name(*self),
    {
        let mut out = String::new();
        push_char(&mut out, (97u8 + self.file) as char);
        push_char(&mut out, (49u8 + self.rank) as char);
        proof {
            assert(out@ =~= square_name(*self));
        }
        out
    }
}

/// The square named by the first two characters of `cs`, if they name one.
pub(crate) fn square_from_chars(cs: &Vec<char>) -> (res: Option<Sq>)
    ensures
        res == parse_square(cs@),
{
    if cs.len() < 2 {
        return None;
    }
    let c0 = cs[0] as u32;
    let c1 = cs[1] as u32;
    if 97 <= c0 && c0 <= 104 && 49 <= c1 && c1 <= 56 {
        Some(Sq { file: (c0 - 97) as u8, rank: (c1 - 49) as u8 })
    } else {
        None
    }
}

/// The characters of `s`, in order.
pub(crate) fn chars_of(s: &str) -> (res: Vec<char>)
    ensures
        res@ == s@,
{
    let mut v: Vec<char> = Vec::new();
    for c in it: s.chars()
        invariant
            v@ == it.seq().take(it.index() as int),
    {
        v.push(c);
    }
    v
}

/// Calls `String::push`, which appends the char `c` to the end of `s`.
#[verifier::external_body]
fn push_char(s: &mut String, c: char)
    ensures
        final(s)@ == old(s)@.push(c),
{
    s.push(c);
}

/// A move: from square, to square, optional promotion piece.
#[derive(Clone, Copy, PartialEq, Eq, Structural, Debug)]
pub struct Move {
    pub from: Sq,
    pub to: Sq,
    pub promotion: Option<Piece>,
}

/// The letter that names a promotion piece in UCI notation; pawn and king have none.
pub open spec fn promotion_letter(p: Piece) -> Seq<char> {
    match p {
        Piece::Queen => seq!['q'],
        Piece::Rook => seq!['r'],
        Piece::Bishop => seq!['b'],
        Piece::Knight => seq!['n'],
        _ => Seq::empty(),
    }
}

/// A move in UCI notation: `<from><to>[promotion]`.
pub open spec fn move_name(m: Move) -> Seq<char> {
    square_name(m.from) + square_name(m.to) + match m.promotion {
        Some(p) => promotion_letter(p),
        None => Seq::empty(),
    }
}

impl Move {
    /// The move in UCI notation, e.g. `"e2e4"` or `"e7e8q"`.
    pub fn to_string(&self) -> (res: String)
        requires
            self.from.file <= 158,
            self.from.rank <= 206,
            self.to.file <= 158,
            self.to.rank <= 206,
        ensures
            res@ == move_name(*self),
    {
        let mut out = String::new();
        push_char(&mut out, (97u8 + self.from.file) as char);
        push_char(&mut out, (49u8 + self.from.rank) as char);
        push_char(&mut out, (97u8 + self.to.file) as char);
        push_char(&mut out, (49u8 + self.to.rank) as char);
        match self.promotion {
            Some(Piece::Queen) => push_char(&mut out, 'q'),
            Some(Piece::Rook) => push_char(&mut out, 'r'),
            Some(Piece::Bishop) => push_char(&mut out, 'b'),
            Some(Piece::Knight) => push_char(&mut out, 'n'),
            _ => {},
        }
        proof {
            assert(out@ =~= move_name(*self));
        }
        out
    }
}

/// `a` comes no later than `b` in dictionary order of character codes.
pub open spec fn text_le(a: Seq<char>, b: Seq<char>) -> bool
    decreases a.len(),
{
    if a.len() == 0 {
        true
    } else if b.len() == 0 {
        false
    } else if (a[0] as u32) < (b[0] as u32) {
        true
    } else if a[0] == b[0] {
        text_le(a.drop_first(), b.drop_first())
    } else {
        false
    }
}

proof fn lemma_text_le_cons(x: char, y: char, a: Seq<char>, b: Seq<char>)
    ensures
        text_le(seq![x] + a, seq![y] + b) == ((x as u32) < (y as u32) || (x == y && text_le(a, b))),
{
    assert((seq![x] + a).drop_first() =~= a);
    assert((seq![y] + b).drop_first() =~= b);
    if x != y && (x as u32) == (y as u32) {
        assert(false);
    }
}

/// The letter that a move adds to its name.
pub open spec fn promotion_suffix(m: Move) -> Seq<char> {
    match m.promotion {
        Some(p) => promotion_letter(p),
        None => Seq::empty(),
    }
}

/// Moves in key order have names in dictionary order.
pub proof fn lemma_name_order(a: Move, b: Move)
    requires
        name_key(a) <= name_key(b),
    ensures
        text_le(move_name(a), move_name(b)),
{
    let sa = promotion_suffix(a);
    let sb = promotion_suffix(b);
    let a0 = (97 + a.from.file) as char;
    let a1 = (49 + a.from.rank) as char;
    let a2 = (97 + a.to.file) as char;
    let a3 = (49 + a.to.rank) as char;
    let b0 = (97 + b.from.file) as char;
    let b1 = (49 + b.from.rank) as char;
    let b2 = (97 + b.to.file) as char;
    let b3 = (49 + b.to.rank) as char;
    assert(move_name(a) =~= seq![a0] + (seq![a1] + (seq![a2] + (seq![a3] + sa))));
    assert(move_name(b) =~= seq![b0] + (seq![b1] + (seq![b2] + (seq![b3] + sb))));
    assert(a0 as u32 == 97 + a.from.file && b0 as u32 == 97 + b.from.file);
    assert(a1 as u32 == 49 + a.from.rank && b1 as u32 == 49 + b.from.rank);
    assert(a2 as u32 == 97 + a.to.file && b2 as u32 == 97 + b.to.file);
    assert(a3 as u32 == 49 + a.to.rank && b3 as u32 == 49 + b.to.rank);
    let ka = ((a.from.file * 256 + a.from.rank) * 256 + a.to.file) * 256 + a.to.rank;
    let kb = ((b.from.file * 256 + b.from.rank) * 256 + b.to.file) * 256 + b.to.rank;
    let pa = promotion_order(a.promotion);
    let pb = promotion_order(b.promotion);
    assert(ka < kb || (ka == kb && pa <= pb));
    lemma_text_le_cons(a3, b3, sa, sb);
    lemma_text_le_cons(a2, b2, seq![a3] + sa, seq![b3] + sb);
    lemma_text_le_cons(a1, b1, seq![a2] + (seq![a3] + sa), seq![b2] + (seq![b3] + sb));
    lemma_text_le_cons(a0, b0, seq![a1] + (seq![a2] + (seq![a3] + sa)), seq![b1] + (seq![b2] + (seq![b3] + sb)));
    if ka == kb && pa <= pb {
        reveal_with_fuel(text_le, 2);
        assert(text_le(sa, sb));
    }
}

/// The place of a promotion letter in alphabetical order (`b`, `n`, `q`, `r`); a move
/// without a letter comes first.
pub open spec fn promotion_order(p: Option<Piece>) -> int {
    match p {
        Some(Piece::Bishop) => 1,
        Some(Piece::Knight) => 2,
        Some(Piece::Queen) => 3,
        Some(Piece::Rook) => 4,
        _ => 0,
    }
}

/// The key in whose order the UCI names of moves sort: from file, from rank, to file, to
/// rank, then promotion letter.
pub open spec fn name_key(m: Move) -> int {
    (((m.from.file * 256 + m.from.rank) * 256 + m.to.file) * 256 + m.to.rank) * 8
        + promotion_order(m.promotion)
}

fn name_key_of(m: &Move) -> (res: u64)
    ensures
        res == name_key(*m),
{
    let p: u64 = match m.promotion {
        Some(Piece::Bishop) => 1,
        Some(Piece::Knight) => 2,
        Some(Piece::Queen) => 3,
        Some(Piece::Rook) => 4,
        _ => 0,
    };
    (((m.from.file as u64 * 256 + m.from.rank as u64) * 256 + m.to.file as u64) * 256
        + m.to.rank as u64) * 8 + p
}

/// The moves rearranged so that their UCI names come in alphabetical order (dictionary
/// order of character codes).
pub fn sort_moves(moves: Vec<Move>) -> (res: Vec<Move>)
    ensures
        res@.to_multiset() == moves@.to_multiset(),
        forall|i: int, j: int| 0 <= i < j < res@.len() ==> name_key(res@[i]) <= name_key(res@[j]),
        forall|i: int, j: int|
            0 <= i < j < res@.len() ==> text_le(move_name(res@[i]), move_name(res@[j])),
{
    broadcast use {vstd::seq_lib::group_to_multiset_ensures, vstd::multiset::group_multiset_axioms};

    let mut rest = moves;
    let mut out: Vec<Move> = Vec::new();
    while rest.len() > 0
        invariant
            out@.to_multiset().add(rest@.to_multiset()) == moves@.to_multiset(),
            forall|i: int, j: int| 0 <= i < j < out@.len() ==> name_key(out@[i]) <= name_key(out@[j]),
            forall|i: int, j: int|
                0 <= i < out@.len() && 0 <= j < rest@.len() ==> name_key(out@[i]) <= name_key(
                    rest@[j],
                ),
        decreases rest@.len(),
    {
        let mut best: usize = 0;
        let mut best_key = name_key_of(&rest[0]);
        let mut k: usize = 1;
        while k < rest.len()
            invariant
                0 < rest@.len(),
                best < rest@.len(),
                1 <= k <= rest@.len(),
                best_key == name_key(rest@[best as int]),
                forall|j: int| 0 <= j < k ==> best_key <= name_key(#[trigger] rest@[j]),
            decreases rest@.len() - k,
        {
            let key = name_key_of(&rest[k]);
            if key < best_key {
                best = k;
                best_key = key;
            }
            k = k + 1;
        }
        let ghost before = rest@;
        let ghost out_before = out@;
        let m = rest.remove(best);
        proof {
            vstd::seq_lib::to_multiset_remove(before, best as int);
            vstd::seq_lib::to_multiset_build(out_before, m);
            before.to_multiset_ensures();
            assert(before.contains(m));
            assert(before.to_multiset().count(m) > 0);
        }
        out.push(m);
        assert(out@ == out_before.push(m));
        assert(out@.to_multiset().add(rest@.to_multiset()) =~= moves@.to_multiset());
        assert forall|j: int| 0 <= j < rest@.len() implies name_key(m) <= name_key(#[trigger] rest@[j]) by {
            if j < best {
                assert(rest@[j] == before[j]);
            } else {
                assert(rest@[j] == before[j + 1]);
            }
        }
        assert forall|i: int, j: int| 0 <= i < out@.len() && 0 <= j < rest@.len() implies name_key(out@[i]) <= name_key(rest@[j]) by {
            if i < out_before.len() {
                if j < best {
                    assert(rest@[j] == before[j]);
                } else {
                    assert(rest@[j] == before[j + 1]);
                }
            }
        }
    }
    assert(rest@.to_multiset() =~= vstd::multiset::Multiset::empty());
    assert(out@.to_multiset().add(rest@.to_multiset()) =~= out@.to_multiset());
    assert forall|i: int, j: int| 0 <= i < j < out@.len() implies text_le(
        move_name(out@[i]),
        move_name(out@[j]),
    ) by {
        lemma_name_order(out@[i], out@[j]);
    }
    out
}

} // verus!
