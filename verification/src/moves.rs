//! Moves packed into a `u32`, and the list that move generation fills.
use vstd::prelude::*;
use crate::text::push_char;

verus! {

pub const FLAG_CAPTURE: u32 = 0x0100_0000;
pub const FLAG_DOUBLE: u32 = 0x0200_0000;
pub const FLAG_EP: u32 = 0x0400_0000;
pub const FLAG_CASTLE: u32 = 0x0800_0000;
pub const FLAG_PROMOTION: u32 = 0x1000_0000;

/// A move: bits 0..6 from-square, 6..12 to-square, 12..16 moving piece,
/// 16..20 captured piece, 20..24 promotion piece, 24..32 flags.
#[derive(Debug, Clone, Copy, PartialEq, Eq, Structural)]
pub struct Move(u32);

impl View for Move {
    type V = u32;

    closed spec fn view(&self) -> u32 {
        self.0
    }
}

/// The packed encoding that `Move::new` produces.
pub open spec fn pack_move(from: u8, to: u8, piece: u8, captured: u8, promo: u8, flags: u32) -> u32 {
    (from as u32) | ((to as u32) << 6u32) | ((piece as u32) << 12u32) | ((captured as u32)
        << 16u32) | ((promo as u32) << 20u32) | flags
}

pub open spec fn m_from(m: u32) -> u8 {
    (m & 0x3Fu32) as u8
}

pub open spec fn m_to(m: u32) -> u8 {
    ((m >> 6u32) & 0x3Fu32) as u8
}

pub open spec fn m_piece(m: u32) -> u8 {
    ((m >> 12u32) & 0xFu32) as u8
}

pub open spec fn m_captured(m: u32) -> u8 {
    ((m >> 16u32) & 0xFu32) as u8
}

pub open spec fn m_promo(m: u32) -> u8 {
    ((m >> 20u32) & 0xFu32) as u8
}

pub open spec fn m_flags(m: u32) -> u32 {
    m & 0xFF00_0000u32
}

pub open spec fn m_is_capture(m: u32) -> bool {
    m_flags(m) & FLAG_CAPTURE != 0
}

pub open spec fn m_is_double(m: u32) -> bool {
    m_flags(m) & FLAG_DOUBLE != 0
}

pub open spec fn m_is_ep(m: u32) -> bool {
    m_flags(m) & FLAG_EP != 0
}

pub open spec fn m_is_castle(m: u32) -> bool {
    m_flags(m) & FLAG_CASTLE != 0
}

pub open spec fn m_is_promotion(m: u32) -> bool {
    m_flags(m) & FLAG_PROMOTION != 0
}

/// Flags that are a combination of the five flag bits.
pub open spec fn flags_ok(flags: u32) -> bool {
    flags & 0xE0FF_FFFFu32 == 0
}

/// When every field fits its slot, each field reads back as it was written.
pub proof fn lemma_pack_fields(from: u8, to: u8, piece: u8, captured: u8, promo: u8, flags: u32)
    requires
        from < 64,
        to < 64,
        piece < 16,
        captured < 16,
        promo < 16,
        flags_ok(flags),
    ensures
        m_from(pack_move(from, to, piece, captured, promo, flags)) == from,
        m_to(pack_move(from, to, piece, captured, promo, flags)) == to,
        m_piece(pack_move(from, to, piece, captured, promo, flags)) == piece,
        m_captured(pack_move(from, to, piece, captured, promo, flags)) == captured,
        m_promo(pack_move(from, to, piece, captured, promo, flags)) == promo,
        m_flags(pack_move(from, to, piece, captured, promo, flags)) == flags,
{
    let f = from as u32;
    let t = to as u32;
    let p = piece as u32;
    let c = captured as u32;
    let r = promo as u32;
    let x = f | (t << 6u32) | (p << 12u32) | (c << 16u32) | (r << 20u32) | flags;
    assert(x & 0x3Fu32 == f && (x >> 6u32) & 0x3Fu32 == t && (x >> 12u32) & 0xFu32 == p && (x
        >> 16u32) & 0xFu32 == c && (x >> 20u32) & 0xFu32 == r && x & 0xFF00_0000u32 == flags)
        by (bit_vector)
        requires
            f < 64,
            t < 64,
            p < 16,
            c < 16,
            r < 16,
            flags & 0xE0FF_FFFFu32 == 0,
            x == f | (t << 6u32) | (p << 12u32) | (c << 16u32) | (r << 20u32) | flags,
    ;
}

/// Every field of a packed move is in range of its slot.
pub proof fn lemma_fields_in_range(m: u32)
    ensures
        m_from(m) < 64,
        m_to(m) < 64,
        m_piece(m) < 16,
        m_captured(m) < 16,
        m_promo(m) < 16,
{
    assert(m & 0x3Fu32 < 64 && (m >> 6u32) & 0x3Fu32 < 64 && (m >> 12u32) & 0xFu32 < 16 && (m
        >> 16u32) & 0xFu32 < 16 && (m >> 20u32) & 0xFu32 < 16) by (bit_vector);
}

/// The algebraic name of a file, `a`..`h` for 0..7.
pub open spec fn file_char(sq: u8) -> char {
    ((97 + sq % 8) as u8) as char
}

/// The algebraic name of a rank, `1`..`8` for 0..7.
pub open spec fn rank_char(sq: u8) -> char {
    ((49 + sq / 8) as u8) as char
}

/// A piece code that can be promoted to (knight, bishop, rook or queen of either colour).
pub open spec fn valid_promo(piece: u8) -> bool {
    piece == 2 || piece == 3 || piece == 4 || piece == 5 || piece == 8 || piece == 9 || piece
        == 10 || piece == 11
}

/// The UCI letter of a promotion piece.
pub open spec fn promo_letter(piece: u8) -> char {
    if piece == 2 || piece == 8 {
        'n'
    } else if piece == 3 || piece == 9 {
        'b'
    } else if piece == 4 || piece == 10 {
        'r'
    } else {
        'q'
    }
}

/// The UCI text of a move: from-square, to-square, and the promotion letter if any.
pub open spec fn move_text(m: u32) -> Seq<char> {
    let base = seq![
        file_char(m_from(m)),
        rank_char(m_from(m)),
        file_char(m_to(m)),
        rank_char(m_to(m)),
    ];
    if m_is_promotion(m) {
        base.push(promo_letter(m_promo(m)))
    } else {
        base
    }
}

impl Move {
    pub fn new(from: u8, to: u8, piece: u8, captured: u8, promo: u8, flags: u32) -> (r: Self)
        ensures
            r@ == pack_move(from, to, piece, captured, promo, flags),
            from < 64 && to < 64 && piece < 16 && captured < 16 && promo < 16 && flags_ok(flags)
                ==> {
                &&& m_from(r@) == from
                &&& m_to(r@) == to
                &&& m_piece(r@) == piece
                &&& m_captured(r@) == captured
                &&& m_promo(r@) == promo
                &&& m_flags(r@) == flags
            },
    {
        proof {
            if from < 64 && to < 64 && piece < 16 && captured < 16 && promo < 16 && flags_ok(
                flags,
            ) {
                lemma_pack_fields(from, to, piece, captured, promo, flags);
            }
        }
        Move(
            (from as u32) | ((to as u32) << 6u32) | ((piece as u32) << 12u32) | ((captured as u32)
                << 16u32) | ((promo as u32) << 20u32) | flags,
        )
    }

    pub fn from(self) -> (r: u8)
        ensures
            r == m_from(self@),
            r < 64,
    {
        let x = self.0;
        proof { lemma_fields_in_range(x); }
        (x & 0x3F) as u8
    }

    pub fn to(self) -> (r: u8)
        ensures
            r == m_to(self@),
            r < 64,
    {
        let x = self.0;
        proof { lemma_fields_in_range(x); }
        ((x >> 6) & 0x3F) as u8
    }

    pub fn piece(self) -> (r: u8)
        ensures
            r == m_piece(self@),
            r < 16,
    {
        let x = self.0;
        proof { lemma_fields_in_range(x); }
        ((x >> 12) & 0xF) as u8
    }

    pub fn captured(self) -> (r: u8)
        ensures
            r == m_captured(self@),
            r < 16,
    {
        let x = self.0;
        proof { lemma_fields_in_range(x); }
        ((x >> 16) & 0xF) as u8
    }

    pub fn promo(self) -> (r: u8)
        ensures
            r == m_promo(self@),
            r < 16,
    {
        let x = self.0;
        proof { lemma_fields_in_range(x); }
        ((x >> 20) & 0xF) as u8
    }

    pub fn flags(self) -> (r: u32)
        ensures
            r == m_flags(self@),
    {
        self.0 & 0xFF00_0000
    }

    pub fn is_capture(self) -> (r: bool)
        ensures
            r == m_is_capture(self@),
    {
        self.flags() & FLAG_CAPTURE != 0
    }

    pub fn is_promotion(self) -> (r: bool)
        ensures
            r == m_is_promotion(self@),
    {
        self.flags() & FLAG_PROMOTION != 0
    }

    pub fn is_castle(self) -> (r: bool)
        ensures
            r == m_is_castle(self@),
    {
        self.flags() & FLAG_CASTLE != 0
    }

    pub fn is_ep(self) -> (r: bool)
        ensures
            r == m_is_ep(self@),
    {
        self.flags() & FLAG_EP != 0
    }

    pub fn is_double_push(self) -> (r: bool)
        ensures
            r == m_is_double(self@),
    {
        self.flags() & FLAG_DOUBLE != 0
    }

    /// The move in UCI notation, such as `e2e4` or `e7e8q`.
    pub fn to_string(&self) -> (s: String)
        requires
            m_is_promotion(self@) ==> valid_promo(m_promo(self@)),
        ensures
            s@ == move_text(self@),
    {
        let mut s = String::new();
        write_square(&mut s, self.from());
        write_square(&mut s, self.to());
        if self.is_promotion() {
            push_char(&mut s, promo_char(self.promo()));
        }
        s
    }
}

/// Appends the algebraic name of a square.
pub(crate) fn write_square(s: &mut String, sq: u8)
    requires
        sq < 64,
    ensures
        final(s)@ == old(s)@.push(file_char(sq)).push(rank_char(sq)),
{
    let file = (97u8 + (sq % 8)) as char;
    let rank = (49u8 + (sq / 8)) as char;
    push_char(s, file);
    push_char(s, rank);
}

/// The UCI letter of a promotion piece.
fn promo_char(piece: u8) -> (c: char)
    requires
        valid_promo(piece),
    ensures
        c == promo_letter(piece),
{
    if piece == 2 || piece == 8 {
        'n'
    } else if piece == 3 || piece == 9 {
        'b'
    } else if piece == 4 || piece == 10 {
        'r'
    } else {
        'q'
    }
}

/// The square of an algebraic file letter and rank digit, `rank * 8 + file`.
pub open spec fn sq_spec(file: char, rank: char) -> int {
    (((rank as u32) as u8) - 49) * 8 + (((file as u32) as u8) - 97)
}

/// The square named by a file letter and a rank digit: `sq('e', '4')` is 28.
pub fn sq(file: char, rank: char) -> (r: u8)
    requires
        (file as u32) as u8 >= 97,
        (rank as u32) as u8 >= 49,
        sq_spec(file, rank) <= 255,
    ensures
        r == sq_spec(file, rank),
{
    let f = (file as u32) as u8 - 97u8;
    let r = (rank as u32) as u8 - 49u8;
    r * 8 + f
}

/// A list of moves, in the order in which they were pushed.
#[derive(Debug, Clone, PartialEq, Eq)]
pub struct MoveList {
    moves: Vec<Move>,
}

impl View for MoveList {
    type V = Seq<Move>;

    closed spec fn view(&self) -> Seq<Move> {
        self.moves@
    }
}

impl MoveList {
    pub fn new() -> (r: Self)
        ensures
            r@ == Seq::<Move>::empty(),
    {
        MoveList { moves: Vec::with_capacity(256) }
    }

    pub fn push(&mut self, mv: Move)
        ensures
            final(self)@ == old(self)@.push(mv),
    {
        self.moves.push(mv);
    }

    pub fn len(&self) -> (r: usize)
        ensures
            r == self@.len(),
    {
        self.moves.len()
    }

    pub fn is_empty(&self) -> (r: bool)
        ensures
            r == (self@.len() == 0),
    {
        self.moves.len() == 0
    }

    pub fn as_slice(&self) -> (r: &[Move])
        ensures
            r@ == self@,
    {
        self.moves.as_slice()
    }

    pub fn as_mut_slice(&mut self) -> (r: &mut [Move])
        ensures
            r@ == old(self)@,
            final(r)@ == final(self)@,
    {
        self.moves.as_mut_slice()
    }

    /// Swaps the first entry equal to `mv` with the entry at the front; the list is unchanged
    /// when `mv` is not in it.
    pub fn move_to_front(&mut self, mv: Move)
        ensures
            (forall|i: int| 0 <= i < old(self)@.len() ==> #[trigger] old(self)@[i] != mv) ==> final(self)@ == old(self)@,
            (exists|i: int| 0 <= i < old(self)@.len() && #[trigger] old(self)@[i] == mv) ==> exists|i: int| {
                &&& 0 <= i < old(self)@.len()
                &&& old(self)@[i] == mv
                &&& forall|j: int| 0 <= j < i ==> #[trigger] old(self)@[j] != mv
                &&& final(self)@ == old(self)@.update(0, mv).update(i, old(self)@[0])
            },
    {
        let n = self.moves.len();
        let mut i: usize = 0;
        while i < n
            invariant
                n == self.moves@.len(),
                self.moves@ == old(self).moves@,
                i <= n,
                forall|j: int| 0 <= j < i ==> #[trigger] self.moves@[j] != mv,
            decreases n - i,
        {
            if self.moves[i] == mv {
                let first = self.moves[0];
                self.moves.set(0, mv);
                self.moves.set(i, first);
                return;
            }
            i += 1;
        }
    }

    /// The move at position `i`.
    pub fn get(&self, i: usize) -> (r: Move)
        requires
            i < self@.len(),
        ensures
            r == self@[i as int],
    {
        self.moves[i]
    }
}

} // verus!
