//! Reading and writing positions in Forsyth-Edwards Notation.
use vstd::prelude::*;
use vstd::string::StringSliceAdditionalSpecFns;
use crate::board::{
    Board, Position, BB, BK, BN, BP, BQ, BR, EMPTY, WB, WK, WN, WP, WQ, WR, extras_kept, zobrist_of,
};
use crate::text::{decimal_digits, push_char, push_decimal};
use crate::moves::{file_char, rank_char, write_square};

verus! {

/// Why a FEN string was refused; the checks run in this order.
#[derive(Debug, Clone, Copy, PartialEq, Eq)]
pub enum FenError {
    FieldCount,
    PiecePlacement,
    SideToMove,
    Castling,
    EnPassant,
    Halfmove,
    Fullmove,
}

/// A whitespace character, as `char::is_whitespace` defines it (the Unicode `White_Space`
/// property).
pub open spec fn is_space(c: char) -> bool {
    let u = c as u32;
    ||| 0x09 <= u <= 0x0D
    ||| u == 0x20
    ||| u == 0x85
    ||| u == 0xA0
    ||| u == 0x1680
    ||| 0x2000 <= u <= 0x200A
    ||| u == 0x2028
    ||| u == 0x2029
    ||| u == 0x202F
    ||| u == 0x205F
    ||| u == 0x3000
}

/// The fields of a string: its maximal runs of non-whitespace characters, in order.
pub open spec fn fields(s: Seq<char>) -> Seq<Seq<char>>
    decreases s.len(),
{
    if s.len() == 0 {
        Seq::empty()
    } else {
        let w = fields(s.drop_last());
        let c = s.last();
        if is_space(c) {
            w
        } else if s.len() >= 2 && !is_space(s[s.len() - 2]) {
            w.update(w.len() - 1, w.last().push(c))
        } else {
            w.push(seq![c])
        }
    }
}

/// The piece a FEN letter names, or 0 for any other character.
pub open spec fn piece_of_char(c: char) -> u8 {
    if c == 'P' {
        WP
    } else if c == 'N' {
        WN
    } else if c == 'B' {
        WB
    } else if c == 'R' {
        WR
    } else if c == 'Q' {
        WQ
    } else if c == 'K' {
        WK
    } else if c == 'p' {
        BP
    } else if c == 'n' {
        BN
    } else if c == 'b' {
        BB
    } else if c == 'r' {
        BR
    } else if c == 'q' {
        BQ
    } else if c == 'k' {
        BK
    } else {
        0
    }
}

/// The FEN letter of a piece.
pub open spec fn char_of_piece(p: u8) -> char {
    if p == WP {
        'P'
    } else if p == WN {
        'N'
    } else if p == WB {
        'B'
    } else if p == WR {
        'R'
    } else if p == WQ {
        'Q'
    } else if p == WK {
        'K'
    } else if p == BP {
        'p'
    } else if p == BN {
        'n'
    } else if p == BB {
        'b'
    } else if p == BR {
        'r'
    } else if p == BQ {
        'q'
    } else {
        'k'
    }
}

/// Where reading the piece placement field has got to: whether it is still valid, the
/// rank and file of the next square, and the squares filled so far.
pub struct Placement {
    pub ok: bool,
    pub rank: int,
    pub file: int,
    pub squares: Seq<u8>,
}

/// An empty board, with reading at the a8 square.
pub open spec fn placement_start() -> Placement {
    Placement { ok: true, rank: 7, file: 0, squares: Seq::new(64, |i: int| 0u8) }
}

/// A failed reading.
pub open spec fn placement_failed(st: Placement) -> Placement {
    Placement { ok: false, ..st }
}

/// Reading one character of the placement field: `/` ends a complete rank, a digit skips
/// that many empty squares (a rank can never come back from more than eight files), a
/// piece letter fills the next square.
pub open spec fn placement_step(st: Placement, c: char) -> Placement {
    if !st.ok {
        st
    } else if c == '/' {
        if st.file != 8 || st.rank == 0 {
            placement_failed(st)
        } else {
            Placement { rank: st.rank - 1, file: 0, ..st }
        }
    } else if '1' <= c && c <= '8' {
        let f = st.file + (c as u32 - 48);
        if f > 8 {
            placement_failed(st)
        } else {
            Placement { file: f, ..st }
        }
    } else if piece_of_char(c) != 0 {
        if st.file >= 8 {
            placement_failed(st)
        } else {
            Placement {
                file: st.file + 1,
                squares: st.squares.update(st.rank * 8 + st.file, piece_of_char(c)),
                ..st
            }
        }
    } else {
        placement_failed(st)
    }
}

/// Reading a run of characters from `st`.
pub open spec fn placement_run(st: Placement, s: Seq<char>) -> Placement
    decreases s.len(),
{
    if s.len() == 0 {
        st
    } else {
        placement_run(placement_step(st, s[0]), s.drop_first())
    }
}

/// The placement field describes all eight ranks, each of exactly eight squares.
pub open spec fn placement_ok(s: Seq<char>) -> bool {
    let st = placement_run(placement_start(), s);
    st.ok && st.rank == 0 && st.file == 8
}

/// The side to move a field names.
pub open spec fn side_of_field(s: Seq<char>) -> Option<u8> {
    if s == seq!['w'] {
        Some(0u8)
    } else if s == seq!['b'] {
        Some(1u8)
    } else {
        None
    }
}

/// The castling right a letter names.
pub open spec fn right_of_char(c: char) -> u8 {
    if c == 'K' {
        1
    } else if c == 'Q' {
        2
    } else if c == 'k' {
        4
    } else if c == 'q' {
        8
    } else {
        0
    }
}

/// The castling rights a run of letters names.
pub open spec fn rights_of(s: Seq<char>) -> Option<u8>
    decreases s.len(),
{
    if s.len() == 0 {
        Some(0u8)
    } else {
        match rights_of(s.drop_last()) {
            Some(c) => if right_of_char(s.last()) != 0 {
                Some(c | right_of_char(s.last()))
            } else {
                None
            },
            None => None,
        }
    }
}

/// The castling rights a field names: `-` for none.
pub open spec fn castling_of_field(s: Seq<char>) -> Option<u8> {
    if s == seq!['-'] {
        Some(0u8)
    } else {
        rights_of(s)
    }
}

/// The square two characters name: a file letter `a`..`h`, then a rank digit `1`..`8`.
pub open spec fn square_of_chars(s: Seq<char>) -> Option<u8> {
    if s.len() == 2 && 'a' <= s[0] && s[0] <= 'h' && '1' <= s[1] && s[1] <= '8' {
        Some(((s[1] as u32 - 49) * 8 + (s[0] as u32 - 97)) as u8)
    } else {
        None
    }
}

/// The en-passant square a field names: `-` for none (64).
pub open spec fn ep_of_field(s: Seq<char>) -> Option<u8> {
    if s == seq!['-'] {
        Some(64u8)
    } else {
        square_of_chars(s)
    }
}

/// A decimal digit character.
pub open spec fn is_digit(c: char) -> bool {
    '0' <= c && c <= '9'
}

/// Every character of `d` is a decimal digit.
pub open spec fn all_digits(d: Seq<char>) -> bool {
    forall|i: int| 0 <= i < d.len() ==> #[trigger] is_digit(d[i])
}

/// The value of a run of decimal digits.
pub open spec fn digits_value(s: Seq<char>) -> nat
    decreases s.len(),
{
    if s.len() == 0 {
        0
    } else {
        digits_value(s.drop_last()) * 10 + (s.last() as u32 - 48) as nat
    }
}

/// The number a field names as `u16`'s `from_str` reads it: an optional `+`, then at least
/// one decimal digit, with a value that fits in 16 bits.
pub open spec fn u16_of_field(s: Seq<char>) -> Option<u16> {
    let d = if s.len() > 0 && s[0] == '+' {
        s.drop_first()
    } else {
        s
    };
    if d.len() == 0 || !all_digits(d) || digits_value(d) > 65535 {
        None
    } else {
        Some(digits_value(d) as u16)
    }
}

/// The position a FEN string describes, or the first of its fields that is wrong.
pub open spec fn parse_fen(s: Seq<char>) -> Result<Position, FenError> {
    let f = fields(s);
    if f.len() != 6 {
        Err(FenError::FieldCount)
    } else if !placement_ok(f[0]) {
        Err(FenError::PiecePlacement)
    } else if side_of_field(f[1]) is None {
        Err(FenError::SideToMove)
    } else if castling_of_field(f[2]) is None {
        Err(FenError::Castling)
    } else if ep_of_field(f[3]) is None {
        Err(FenError::EnPassant)
    } else if u16_of_field(f[4]) is None {
        Err(FenError::Halfmove)
    } else if u16_of_field(f[5]) is None {
        Err(FenError::Fullmove)
    } else {
        let p = Position {
            mailbox: placement_run(placement_start(), f[0]).squares,
            side: side_of_field(f[1])->0,
            castling: castling_of_field(f[2])->0,
            ep: ep_of_field(f[3])->0,
            halfmove: u16_of_field(f[4])->0,
            fullmove: u16_of_field(f[5])->0,
            zobrist: 0,
            history: Seq::empty(),
        };
        Ok(Position { zobrist: zobrist_of(p), ..p })
    }
}

/// Whether `c` is whitespace, as `char::is_whitespace` decides it.
fn is_whitespace_char(c: char) -> (r: bool)
    ensures
        r == is_space(c),
{
    let u = c as u32;
    (0x09 <= u && u <= 0x0D) || u == 0x20 || u == 0x85 || u == 0xA0 || u == 0x1680 || (0x2000 <= u
        && u <= 0x200A) || u == 0x2028 || u == 0x2029 || u == 0x202F || u == 0x205F || u == 0x3000
}

fn piece_from_char(ch: char) -> (r: Option<u8>)
    ensures
        r == (if piece_of_char(ch) != 0 {
            Some(piece_of_char(ch))
        } else {
            None
        }),
{
    if ch == 'P' {
        Some(WP)
    } else if ch == 'N' {
        Some(WN)
    } else if ch == 'B' {
        Some(WB)
    } else if ch == 'R' {
        Some(WR)
    } else if ch == 'Q' {
        Some(WQ)
    } else if ch == 'K' {
        Some(WK)
    } else if ch == 'p' {
        Some(BP)
    } else if ch == 'n' {
        Some(BN)
    } else if ch == 'b' {
        Some(BB)
    } else if ch == 'r' {
        Some(BR)
    } else if ch == 'q' {
        Some(BQ)
    } else if ch == 'k' {
        Some(BK)
    } else {
        None
    }
}

fn piece_to_char(piece: u8) -> (c: char)
    requires
        1 <= piece <= 12,
    ensures
        c == char_of_piece(piece),
{
    if piece == WP {
        'P'
    } else if piece == WN {
        'N'
    } else if piece == WB {
        'B'
    } else if piece == WR {
        'R'
    } else if piece == WQ {
        'Q'
    } else if piece == WK {
        'K'
    } else if piece == BP {
        'p'
    } else if piece == BN {
        'n'
    } else if piece == BB {
        'b'
    } else if piece == BR {
        'r'
    } else if piece == BQ {
        'q'
    } else {
        'k'
    }
}

/// Reading `a` then `b` is reading `a` and going on with `b`.
pub proof fn lemma_run_concat(st: Placement, a: Seq<char>, b: Seq<char>)
    ensures
        placement_run(st, a + b) == placement_run(placement_run(st, a), b),
    decreases a.len(),
{
    if a.len() == 0 {
        assert(a + b =~= b);
    } else {
        assert((a + b).drop_first() =~= a.drop_first() + b);
        lemma_run_concat(placement_step(st, a[0]), a.drop_first(), b);
    }
}

/// A failed reading stays failed.
pub proof fn lemma_run_failed(st: Placement, a: Seq<char>)
    requires
        !st.ok,
    ensures
        placement_run(st, a) == st,
    decreases a.len(),
{
    if a.len() > 0 {
        lemma_run_failed(placement_step(st, a[0]), a.drop_first());
    }
}

/// Reading one more character is one more step.
pub proof fn lemma_run_push(st: Placement, a: Seq<char>, c: char)
    ensures
        placement_run(st, a.push(c)) == placement_step(placement_run(st, a), c),
{
    lemma_run_concat(st, a, seq![c]);
    assert(a.push(c) =~= a + seq![c]);
    let x = placement_run(st, a);
    assert(seq![c].drop_first() =~= Seq::<char>::empty());
    assert(seq![c][0] == c);
    assert(placement_run(placement_step(x, c), Seq::<char>::empty()) == placement_step(x, c));
}

/// A digit run's value does not shrink as digits are added.
pub(crate) proof fn lemma_value_prefix(d: Seq<char>, k: int)
    requires
        0 <= k <= d.len(),
        forall|i: int| 0 <= i < d.len() ==> #[trigger] is_digit(d[i]),
    ensures
        digits_value(d.subrange(0, k)) <= digits_value(d),
    decreases d.len(),
{
    if k < d.len() {
        let e = d.drop_last();
        assert(forall|i: int| 0 <= i < e.len() ==> #[trigger] is_digit(e[i]) ==> true);
        assert forall|i: int| 0 <= i < e.len() implies #[trigger] is_digit(e[i]) by {
            assert(is_digit(d[i]));
        }
        lemma_value_prefix(e, k);
        assert(e.subrange(0, k) =~= d.subrange(0, k));
    } else {
        assert(d.subrange(0, k) =~= d);
    }
}

/// The characters of a string, in order.
pub(crate) fn read_chars(s: &str) -> (v: Vec<char>)
    ensures
        v@ == s@,
{
    let n = s.unicode_len();
    let mut v: Vec<char> = Vec::new();
    let mut i: usize = 0;
    while i < n
        invariant
            n == s@.len(),
            i <= n,
            v@ == s@.subrange(0, i as int),
        decreases n - i,
    {
        let c = s.get_char(i);
        v.push(c);
        i += 1;
        proof {
            assert(v@ =~= s@.subrange(0, i as int));
        }
    }
    proof {
        assert(v@ =~= s@);
    }
    v
}

/// The start and end of each field of `s`.
fn split_fields(s: &Vec<char>) -> (b: Vec<(usize, usize)>)
    ensures
        b@.len() == fields(s@).len(),
        forall|k: int| #![trigger b@[k]] 0 <= k < b@.len() ==> {
            &&& b@[k].0 <= b@[k].1 <= s@.len()
            &&& s@.subrange(b@[k].0 as int, b@[k].1 as int) == fields(s@)[k]
        },
{
    let mut b: Vec<(usize, usize)> = Vec::new();
    let n = s.len();
    let mut i: usize = 0;
    while i < n
        invariant
            n == s@.len(),
            i <= n,
            b@.len() == fields(s@.subrange(0, i as int)).len(),
            forall|k: int| #![trigger b@[k]] 0 <= k < b@.len() ==> {
                &&& b@[k].0 < b@[k].1 <= i
                &&& s@.subrange(b@[k].0 as int, b@[k].1 as int) == fields(s@.subrange(0, i as int))[k]
            },
            (i > 0 && !is_space(s@[i - 1])) ==> b@.len() > 0 && b@[b@.len() - 1].1 == i,
        decreases n - i,
    {
        let ghost t = s@.subrange(0, i as int);
        let ghost t1 = s@.subrange(0, i + 1);
        let ghost w = fields(t);
        let c = s[i];
        proof {
            assert(t1.drop_last() =~= t);
            assert(t1.last() == c);
            if i > 0 {
                assert(t1[t1.len() - 2] == s@[i - 1]);
            }
        }
        let ghost b_old = b@;
        if is_whitespace_char(c) {
            proof {
                assert(fields(t1) == w);
            }
        } else if i > 0 && !is_whitespace_char(s[i - 1]) {
            let last = b.len() - 1;
            let start = b[last].0;
            proof {
                assert(b@[last as int].0 < b@[last as int].1);
                assert(s@.subrange(start as int, i + 1) =~= s@.subrange(start as int, i as int).push(c));
                assert(fields(t1) == w.update(w.len() - 1, w.last().push(c)));
            }
            b.set(last, (start, i + 1));
            proof {
                assert forall|k: int| #![trigger b@[k]] 0 <= k < b@.len() implies {
                    &&& b@[k].0 < b@[k].1 <= i + 1
                    &&& s@.subrange(b@[k].0 as int, b@[k].1 as int) == fields(t1)[k]
                } by {
                    if k != last {
                        assert(b_old[k] == b@[k]);
                    }
                }
            }
        } else {
            b.push((i, i + 1));
            proof {
                assert(s@.subrange(i as int, i + 1) =~= seq![c]);
                assert(fields(t1) == w.push(seq![c]));
                assert forall|k: int| #![trigger b@[k]] 0 <= k < b@.len() implies {
                    &&& b@[k].0 < b@[k].1 <= i + 1
                    &&& s@.subrange(b@[k].0 as int, b@[k].1 as int) == fields(t1)[k]
                } by {
                    if k < b_old.len() {
                        assert(b_old[k] == b@[k]);
                    }
                }
            }
        }
        i += 1;
        proof {
            assert(s@.subrange(0, i as int) =~= t1);
        }
    }
    proof {
        assert(s@.subrange(0, n as int) =~= s@);
    }
    b
}

/// Reads a number field as `u16`'s `from_str` does.
fn parse_u16(s: &Vec<char>, lo: usize, hi: usize) -> (r: Option<u16>)
    requires
        lo <= hi <= s@.len(),
    ensures
        r == u16_of_field(s@.subrange(lo as int, hi as int)),
{
    let ghost f = s@.subrange(lo as int, hi as int);
    let mut i = lo;
    if i < hi && s[i] == '+' {
        i += 1;
    }
    let start = i;
    let ghost d = s@.subrange(start as int, hi as int);
    proof {
        if f.len() > 0 && f[0] == '+' {
            assert(d =~= f.drop_first());
        } else {
            assert(d =~= f);
        }
        assert(u16_of_field(f) == (if d.len() == 0 || !all_digits(d) || digits_value(d) > 65535 {
            None
        } else {
            Some(digits_value(d) as u16)
        }));
    }
    if i == hi {
        return None;
    }
    let mut v: u32 = 0;
    while i < hi
        invariant
            start <= i <= hi <= s@.len(),
            d == s@.subrange(start as int, hi as int),
            f == s@.subrange(lo as int, hi as int),
            u16_of_field(f) == (if d.len() == 0 || !all_digits(d) || digits_value(d) > 65535 {
                None
            } else {
                Some(digits_value(d) as u16)
            }),
            forall|j: int| start <= j < i ==> #[trigger] is_digit(s@[j]),
            v == digits_value(s@.subrange(start as int, i as int)),
            v <= 65535,
        decreases hi - i,
    {
        let c = s[i];
        if !('0' <= c && c <= '9') {
            proof {
                assert(!is_digit(d[i - start]));
            }
            return None;
        }
        proof {
            assert(s@.subrange(start as int, i + 1).drop_last() =~= s@.subrange(start as int, i as int));
        }
        v = v * 10 + (c as u32 - 48);
        i += 1;
        if v > 65535 {
            proof {
                if all_digits(d) {
                    lemma_value_prefix(d, i - start);
                    assert(d.subrange(0, i - start) =~= s@.subrange(start as int, i as int));
                }
            }
            return None;
        }
    }
    proof {
        assert(s@.subrange(start as int, i as int) =~= d);
        assert forall|j: int| 0 <= j < d.len() implies #[trigger] is_digit(d[j]) by {
            assert(is_digit(s@[start + j]));
        }
    }
    Some(v as u16)
}

/// Adding a right keeps the rights below 16.
proof fn lemma_rights_or(c: u8, b: u8)
    by (bit_vector)
    requires
        c < 16,
        b == 1 || b == 2 || b == 4 || b == 8,
    ensures
        c | b < 16,
{
}

/// A run of castling letters that goes wrong stays wrong whatever follows.
proof fn lemma_rights_none(a: Seq<char>, b: Seq<char>)
    requires
        rights_of(a) is None,
    ensures
        rights_of(a + b) is None,
    decreases b.len(),
{
    if b.len() == 0 {
        assert(a + b =~= a);
    } else {
        lemma_rights_none(a, b.drop_last());
        assert((a + b).drop_last() =~= a + b.drop_last());
    }
}

/// Reads the side-to-move field.
fn parse_side(s: &Vec<char>, lo: usize, hi: usize) -> (r: Option<u8>)
    requires
        lo <= hi <= s@.len(),
    ensures
        r == side_of_field(s@.subrange(lo as int, hi as int)),
{
    let ghost f = s@.subrange(lo as int, hi as int);
    if hi - lo == 1 && s[lo] == 'w' {
        proof {
            assert(f =~= seq!['w']);
        }
        return Some(0);
    }
    if hi - lo == 1 && s[lo] == 'b' {
        proof {
            assert(f =~= seq!['b']);
            assert(seq!['w'][0] == 'w');
            assert(f != seq!['w']);
        }
        return Some(1);
    }
    proof {
        if f =~= seq!['w'] {
            assert(f[0] == 'w');
        }
        if f =~= seq!['b'] {
            assert(f[0] == 'b');
        }
    }
    None
}

/// Reads the castling field.
fn parse_castling(s: &Vec<char>, lo: usize, hi: usize) -> (r: Option<u8>)
    requires
        lo <= hi <= s@.len(),
    ensures
        r == castling_of_field(s@.subrange(lo as int, hi as int)),
        r matches Some(c) ==> c < 16,
{
    let ghost f = s@.subrange(lo as int, hi as int);
    if hi - lo == 1 && s[lo] == '-' {
        proof {
            assert(f =~= seq!['-']);
        }
        return Some(0);
    }
    proof {
        if f =~= seq!['-'] {
            assert(f[0] == '-');
        }
        assert(s@.subrange(lo as int, lo as int) =~= Seq::<char>::empty());
    }
    let mut c: u8 = 0;
    let mut i = lo;
    while i < hi
        invariant
            lo <= i <= hi <= s@.len(),
            f == s@.subrange(lo as int, hi as int),
            castling_of_field(f) == rights_of(f),
            rights_of(s@.subrange(lo as int, i as int)) == Some(c),
            c < 16,
        decreases hi - i,
    {
        let ch = s[i];
        let b: u8 = if ch == 'K' {
            1
        } else if ch == 'Q' {
            2
        } else if ch == 'k' {
            4
        } else if ch == 'q' {
            8
        } else {
            0
        };
        proof {
            assert(s@.subrange(lo as int, i + 1).drop_last() =~= s@.subrange(lo as int, i as int));
        }
        if b == 0 {
            proof {
                lemma_rights_none(s@.subrange(lo as int, i + 1), s@.subrange(i + 1, hi as int));
                assert(f =~= s@.subrange(lo as int, i + 1) + s@.subrange(i + 1, hi as int));
            }
            return None;
        }
        proof {
            lemma_rights_or(c, b);
        }
        c = c | b;
        i += 1;
    }
    proof {
        assert(s@.subrange(lo as int, hi as int) =~= f);
    }
    Some(c)
}

/// Reads the en-passant field.
fn parse_ep(s: &Vec<char>, lo: usize, hi: usize) -> (r: Option<u8>)
    requires
        lo <= hi <= s@.len(),
    ensures
        r == ep_of_field(s@.subrange(lo as int, hi as int)),
        r matches Some(e) ==> e <= 64,
{
    let ghost f = s@.subrange(lo as int, hi as int);
    if hi - lo == 1 && s[lo] == '-' {
        proof {
            assert(f =~= seq!['-']);
        }
        return Some(64);
    }
    proof {
        if f =~= seq!['-'] {
            assert(f[0] == '-');
        }
    }
    if hi - lo == 2 {
        let file = s[lo];
        let rank = s[lo + 1];
        if 'a' <= file && file <= 'h' && '1' <= rank && rank <= '8' {
            return Some(((rank as u32 - 49) * 8 + (file as u32 - 97)) as u8);
        }
    }
    None
}

/// The square named by two bytes: a file letter `a`..`h`, then a rank digit `1`..`8`.
pub open spec fn square_of_bytes(b: Seq<u8>) -> Option<u8> {
    if b.len() == 2 && 97 <= b[0] <= 104 && 49 <= b[1] <= 56 {
        Some(((b[1] - 49) * 8 + (b[0] - 97)) as u8)
    } else {
        None
    }
}

/// Reads a square name such as `e3`.
pub fn parse_square(s: &str) -> (r: Option<u8>)
    ensures
        r == square_of_bytes(s.spec_bytes()),
{
    let bytes = s.as_bytes();
    if bytes.len() != 2 {
        return None;
    }
    let file = bytes[0];
    let rank = bytes[1];
    if !(97 <= file && file <= 104) {
        return None;
    }
    if !(49 <= rank && rank <= 56) {
        return None;
    }
    let f = file - 97;
    let r = rank - 49;
    Some(r * 8 + f)
}

/// Fills an empty board from the piece placement field; returns whether the field is valid.
fn place_pieces(board: &mut Board, s: &Vec<char>, lo: usize, hi: usize) -> (ok: bool)
    requires
        old(board).wf(),
        lo <= hi <= s@.len(),
        forall|q: int| 0 <= q < 64 ==> #[trigger] old(board).mailbox@[q] == 0,
    ensures
        final(board).wf(),
        ok == placement_ok(s@.subrange(lo as int, hi as int)),
        ok ==> final(board).mailbox@ == placement_run(placement_start(), s@.subrange(lo as int, hi as int)).squares,
        final(board)@ == (Position { mailbox: final(board).mailbox@, ..old(board)@ }),
        extras_kept(*old(board), *final(board)),
{
    let ghost b0 = *board;
    let ghost f = s@.subrange(lo as int, hi as int);
    let mut rank: i32 = 7;
    let mut file: i32 = 0;
    let mut i = lo;
    proof {
        assert(s@.subrange(lo as int, lo as int) =~= Seq::<char>::empty());
        assert(board.mailbox@ =~= placement_start().squares);
    }
    while i < hi
        invariant
            lo <= i <= hi <= s@.len(),
            f == s@.subrange(lo as int, hi as int),
            placement_run(placement_start(), s@.subrange(lo as int, i as int)).ok,
            placement_run(placement_start(), s@.subrange(lo as int, i as int)).rank == rank,
            placement_run(placement_start(), s@.subrange(lo as int, i as int)).file == file,
            board.mailbox@ == placement_run(placement_start(), s@.subrange(lo as int, i as int)).squares,
            0 <= rank <= 7,
            0 <= file <= 8,
            board.wf(),
            board@ == (Position { mailbox: board.mailbox@, ..b0@ }),
            b0 == *old(board),
            extras_kept(b0, *board),
            forall|q: int| 0 <= q < 64 && (q / 8 < rank || (q / 8 == rank && q % 8 >= file)) ==> #[trigger] board.mailbox@[q] == 0,
        decreases hi - i,
    {
        let ch = s[i];
        let ghost st = placement_run(placement_start(), s@.subrange(lo as int, i as int));
        proof {
            lemma_run_push(placement_start(), s@.subrange(lo as int, i as int), ch);
            assert(s@.subrange(lo as int, i + 1) =~= s@.subrange(lo as int, i as int).push(ch));
            lemma_run_concat(placement_start(), s@.subrange(lo as int, i + 1), s@.subrange(i + 1, hi as int));
            assert(f =~= s@.subrange(lo as int, i + 1) + s@.subrange(i + 1, hi as int));
            lemma_run_failed(placement_failed(st), s@.subrange(i + 1, hi as int));
        }
        if ch == '/' {
            if file != 8 || rank == 0 {
                return false;
            }
            rank = rank - 1;
            file = 0;
        } else if '1' <= ch && ch <= '8' {
            let d = (ch as u32 - 48) as i32;
            if file + d > 8 {
                return false;
            }
            file = file + d;
        } else {
            match piece_from_char(ch) {
                None => {
                    return false;
                },
                Some(piece) => {
                    if file >= 8 {
                        return false;
                    }
                    let sq = (rank * 8 + file) as u8;
                    proof {
                        assert(board.mailbox@[sq as int] == 0);
                    }
                    board.put_piece(piece, sq);
                    file = file + 1;
                    proof {
                        assert(board.mailbox@ =~= st.squares.update(st.rank * 8 + st.file, piece_of_char(ch)));
                    }
                },
            }
        }
        i += 1;
    }
    proof {
        assert(s@.subrange(lo as int, hi as int) =~= f);
    }
    rank == 0 && file == 8
}

/// A board just read from text: no killer moves and no evaluation counters yet.
pub open spec fn fresh_extras(b: Board) -> bool {
    &&& b.material_mg == 0
    &&& b.material_eg == 0
    &&& b.pst_mg == 0
    &&& b.pst_eg == 0
    &&& forall|d: int, k: int| 0 <= d < 100 && 0 <= k < 2 ==> #[trigger] b.killers[d][k] is None
}

impl Board {
    /// Reads a position from a FEN string: piece placement, side to move, castling rights,
    /// en-passant square, halfmove clock and fullmove number, separated by whitespace.
    /// The hash is computed for the position read.
    pub fn from_fen(fen: &str) -> (r: Result<Board, FenError>)
        ensures
            match r {
                Ok(b) => b.wf() && parse_fen(fen@) == Ok::<Position, FenError>(b@) && fresh_extras(b),
                Err(e) => parse_fen(fen@) == Err::<Position, FenError>(e),
            },
    {
        let mut board = Self::empty();
        let chars = read_chars(fen);
        let parts = split_fields(&chars);
        let ghost fs = fields(fen@);
        if parts.len() != 6 {
            return Err(FenError::FieldCount);
        }
        let (lo0, hi0) = parts[0];
        let (lo1, hi1) = parts[1];
        let (lo2, hi2) = parts[2];
        let (lo3, hi3) = parts[3];
        let (lo4, hi4) = parts[4];
        let (lo5, hi5) = parts[5];
        proof {
            assert(parts@[0] == (lo0, hi0));
            assert(parts@[1] == (lo1, hi1));
            assert(parts@[2] == (lo2, hi2));
            assert(parts@[3] == (lo3, hi3));
            assert(parts@[4] == (lo4, hi4));
            assert(parts@[5] == (lo5, hi5));
        }
        if !place_pieces(&mut board, &chars, lo0, hi0) {
            return Err(FenError::PiecePlacement);
        }
        let side = match parse_side(&chars, lo1, hi1) {
            Some(sd) => sd,
            None => {
                return Err(FenError::SideToMove);
            },
        };
        let castling = match parse_castling(&chars, lo2, hi2) {
            Some(c) => c,
            None => {
                return Err(FenError::Castling);
            },
        };
        let ep = match parse_ep(&chars, lo3, hi3) {
            Some(e) => e,
            None => {
                return Err(FenError::EnPassant);
            },
        };
        let halfmove = match parse_u16(&chars, lo4, hi4) {
            Some(v) => v,
            None => {
                return Err(FenError::Halfmove);
            },
        };
        let fullmove = match parse_u16(&chars, lo5, hi5) {
            Some(v) => v,
            None => {
                return Err(FenError::Fullmove);
            },
        };
        board.side_to_move = side;
        board.castling = castling;
        board.ep_square = ep;
        board.halfmove_clock = halfmove;
        board.fullmove_number = fullmove;
        board.zobrist = board.compute_zobrist();
        Ok(board)
    }
}

/// The digit for a run of empty squares, if there is one.
pub open spec fn run_text(run: int) -> Seq<char> {
    if run > 0 {
        seq![((48 + run) as u8) as char]
    } else {
        Seq::empty()
    }
}

/// The text of the first `f` squares of rank `r`, and how many empty squares follow it
/// unwritten.
pub open spec fn rank_prefix(mb: Seq<u8>, r: int, f: int) -> (Seq<char>, int)
    decreases f,
{
    if f <= 0 {
        (Seq::empty(), 0)
    } else {
        let (t, run) = rank_prefix(mb, r, f - 1);
        let p = mb[r * 8 + f - 1];
        if p == 0 {
            (t, run + 1)
        } else {
            (t + run_text(run).push(char_of_piece(p)), 0)
        }
    }
}

/// The text of rank `r`: pieces by letter, runs of empty squares by their count.
pub open spec fn rank_text(mb: Seq<u8>, r: int) -> Seq<char> {
    rank_prefix(mb, r, 8).0 + run_text(rank_prefix(mb, r, 8).1)
}

/// The text of the top `k` ranks, from the eighth down, separated by `/`.
pub open spec fn placement_text(mb: Seq<u8>, k: int) -> Seq<char>
    decreases k,
{
    if k <= 0 {
        Seq::empty()
    } else {
        placement_text(mb, k - 1) + rank_text(mb, 8 - k) + (if k < 8 {
            seq!['/']
        } else {
            Seq::empty()
        })
    }
}

/// The castling field of a set of rights: `-`, or the letters of the rights held.
pub open spec fn castling_text(c: u8) -> Seq<char> {
    if c == 0 {
        seq!['-']
    } else {
        (if c & 1 != 0 {
            seq!['K']
        } else {
            Seq::empty()
        }) + (if c & 2 != 0 {
            seq!['Q']
        } else {
            Seq::empty()
        }) + (if c & 4 != 0 {
            seq!['k']
        } else {
            Seq::empty()
        }) + (if c & 8 != 0 {
            seq!['q']
        } else {
            Seq::empty()
        })
    }
}

/// The en-passant field: `-`, or the square's name.
pub open spec fn ep_text(ep: u8) -> Seq<char> {
    if ep == 64 {
        seq!['-']
    } else {
        seq![file_char(ep), rank_char(ep)]
    }
}

/// The FEN text of a position.
pub open spec fn fen_text(p: Position) -> Seq<char> {
    placement_text(p.mailbox, 8) + seq![' ', if p.side == 0 {
        'w'
    } else {
        'b'
    }, ' '] + castling_text(p.castling) + seq![' '] + ep_text(p.ep) + seq![' '] + decimal_digits(
        p.halfmove as nat,
    ) + seq![' '] + decimal_digits(p.fullmove as nat)
}

/// Appends the castling field.
fn write_castling(out: &mut String, c: u8)
    ensures
        final(out)@ == old(out)@ + castling_text(c),
{
    if c == 0 {
        push_char(out, '-');
    } else {
        if c & 1 != 0 {
            push_char(out, 'K');
        }
        if c & 2 != 0 {
            push_char(out, 'Q');
        }
        if c & 4 != 0 {
            push_char(out, 'k');
        }
        if c & 8 != 0 {
            push_char(out, 'q');
        }
    }
    proof {
        assert(out@ =~= old(out)@ + castling_text(c));
    }
}

/// Appends the en-passant field.
fn write_ep(out: &mut String, ep: u8)
    requires
        ep <= 64,
    ensures
        final(out)@ == old(out)@ + ep_text(ep),
{
    if ep == 64 {
        push_char(out, '-');
    } else {
        write_square(out, ep);
    }
    proof {
        assert(out@ =~= old(out)@ + ep_text(ep));
    }
}

impl Board {
    /// Appends the text of one rank.
    fn write_rank(&self, out: &mut String, rank: usize)
        requires
            self.wf(),
            rank < 8,
        ensures
            final(out)@ == old(out)@ + rank_text(self.mailbox@, rank as int),
    {
        let ghost mb = self.mailbox@;
        let ghost before = out@;
        let mut empty_run: u8 = 0;
        let mut file: usize = 0;
        proof {
            assert(out@ =~= before + rank_prefix(mb, rank as int, 0).0);
        }
        while file < 8
            invariant
                self.wf(),
                mb == self.mailbox@,
                rank < 8,
                file <= 8,
                out@ == before + rank_prefix(mb, rank as int, file as int).0,
                empty_run == rank_prefix(mb, rank as int, file as int).1,
                empty_run <= file,
            decreases 8 - file,
        {
            let piece = self.mailbox[rank * 8 + file];
            if piece == EMPTY {
                empty_run = empty_run + 1;
            } else {
                if empty_run != 0 {
                    push_char(out, (48u8 + empty_run) as char);
                }
                push_char(out, piece_to_char(piece));
                empty_run = 0;
                proof {
                    assert(out@ =~= before + (rank_prefix(mb, rank as int, file as int).0 + run_text(
                        rank_prefix(mb, rank as int, file as int).1,
                    ).push(char_of_piece(piece))));
                }
            }
            file += 1;
        }
        if empty_run != 0 {
            push_char(out, (48u8 + empty_run) as char);
        }
        proof {
            assert(out@ =~= before + rank_text(mb, rank as int));
        }
    }

    /// Appends the piece placement field.
    fn write_placement(&self, out: &mut String)
        requires
            self.wf(),
        ensures
            final(out)@ == old(out)@ + placement_text(self.mailbox@, 8),
    {
        let ghost mb = self.mailbox@;
        let ghost before = out@;
        let mut k: usize = 0;
        proof {
            assert(out@ =~= before + placement_text(mb, 0));
        }
        while k < 8
            invariant
                self.wf(),
                mb == self.mailbox@,
                k <= 8,
                out@ == before + placement_text(mb, k as int),
            decreases 8 - k,
        {
            let rank = 7 - k;
            self.write_rank(out, rank);
            if rank != 0 {
                push_char(out, '/');
            }
            k += 1;
            proof {
                assert(out@ =~= before + placement_text(mb, k as int));
            }
        }
    }

    /// The position in FEN.
    pub fn to_fen(self) -> (out: String)
        requires
            self.wf(),
        ensures
            out@ == fen_text(self@),
    {
        let mut out = String::new();
        self.write_placement(&mut out);
        push_char(&mut out, ' ');
        push_char(&mut out, if self.side_to_move == 0 { 'w' } else { 'b' });
        push_char(&mut out, ' ');
        write_castling(&mut out, self.castling);
        push_char(&mut out, ' ');
        write_ep(&mut out, self.ep_square);
        push_char(&mut out, ' ');
        push_decimal(&mut out, self.halfmove_clock as u64);
        push_char(&mut out, ' ');
        push_decimal(&mut out, self.fullmove_number as u64);
        proof {
            assert(out@ =~= fen_text(self@));
        }
        out
    }
}

/// The piece on a square of the starting position.
pub open spec fn start_piece(sq: int) -> u8 {
    let f = sq % 8;
    let back: u8 = if f == 0 || f == 7 {
        WR
    } else if f == 1 || f == 6 {
        WN
    } else if f == 2 || f == 5 {
        WB
    } else if f == 3 {
        WQ
    } else {
        WK
    };
    if sq < 8 {
        back
    } else if sq < 16 {
        WP
    } else if sq < 48 {
        EMPTY
    } else if sq < 56 {
        BP
    } else {
        (back + 6) as u8
    }
}

/// The starting position: white to move with every castling right.
pub open spec fn start_position() -> Position {
    let p = Position {
        mailbox: Seq::new(64, |i: int| start_piece(i)),
        side: 0,
        castling: 15,
        ep: 64,
        halfmove: 0,
        fullmove: 1,
        zobrist: 0,
        history: Seq::empty(),
    };
    Position { zobrist: zobrist_of(p), ..p }
}

fn start_piece_at(sq: u8) -> (p: u8)
    requires
        sq < 64,
    ensures
        p == start_piece(sq as int),
{
    let f = sq % 8;
    let back: u8 = if f == 0 || f == 7 {
        WR
    } else if f == 1 || f == 6 {
        WN
    } else if f == 2 || f == 5 {
        WB
    } else if f == 3 {
        WQ
    } else {
        WK
    };
    if sq < 8 {
        back
    } else if sq < 16 {
        WP
    } else if sq < 48 {
        EMPTY
    } else if sq < 56 {
        BP
    } else {
        back + 6
    }
}

impl Board {
    /// The starting position.
    pub fn startpos() -> (r: Self)
        ensures
            r.wf(),
            r@ == start_position(),
            fresh_extras(r),
    {
        let mut board = Self::empty();
        let mut sq: u8 = 0;
        while sq < 64
            invariant
                sq <= 64,
                board.wf(),
                forall|q: int| 0 <= q < sq ==> #[trigger] board.mailbox@[q] == start_piece(q),
                forall|q: int| sq <= q < 64 ==> #[trigger] board.mailbox@[q] == 0,
                board.side_to_move == 0,
                board.castling == 0,
                board.ep_square == 64,
                board.halfmove_clock == 0,
                board.fullmove_number == 1,
                board.zobrist == 0,
                board.history@ == Seq::<u64>::empty(),
                fresh_extras(board),
            decreases 64 - sq,
        {
            let p = start_piece_at(sq);
            if p != EMPTY {
                board.put_piece(p, sq);
            }
            sq += 1;
        }
        board.castling = 15;
        proof {
            assert(board.mailbox@ =~= Seq::new(64, |i: int| start_piece(i)));
        }
        board.zobrist = board.compute_zobrist();
        board
    }
}

impl Default for Board {
    fn default() -> (r: Self)
        ensures
            r.wf(),
            r@ == start_position(),
    {
        Self::startpos()
    }
}

} // verus!
