//! Writing a position in FEN and reading it back gives the position again.
use vstd::prelude::*;
use crate::board::{mailbox_ok, zobrist_of, Position};
use crate::fen::{
    all_digits, castling_of_field, castling_text, right_of_char, rights_of, char_of_piece, digits_value, ep_of_field, ep_text, fen_text, fields,
    is_digit, is_space, lemma_run_concat, parse_fen, piece_of_char, placement_run, placement_start, placement_step,
    placement_text, rank_prefix, rank_text, run_text, side_of_field, u16_of_field, Placement,
};
use crate::text::decimal_digits;

verus! {

/// A run of characters with no whitespace in it.
pub open spec fn no_space(w: Seq<char>) -> bool {
    forall|i: int| 0 <= i < w.len() ==> !is_space(#[trigger] w[i])
}

/// A word after text that ends in whitespace (or after nothing) adds one field.
proof fn lemma_fields_word(s: Seq<char>, w: Seq<char>)
    requires
        s.len() == 0 || is_space(s.last()),
        w.len() > 0,
        no_space(w),
    ensures
        fields(s + w) == fields(s).push(w),
    decreases w.len(),
{
    let v = w.drop_last();
    let c = w.last();
    assert((s + w).drop_last() =~= s + v);
    assert((s + w).last() == c);
    if v.len() == 0 {
        assert(s + v =~= s);
        assert(w =~= seq![c]);
    } else {
        lemma_fields_word(s, v);
        assert((s + w)[(s + w).len() - 2] == v.last());
        assert(v.push(c) =~= w);
    }
}

/// Whitespace at the end adds no field.
proof fn lemma_fields_space(s: Seq<char>)
    ensures
        fields(s.push(' ')) == fields(s),
{
    assert(s.push(' ').drop_last() =~= s);
}

/// The digits of a number are decimal digits, none of them whitespace, and at least one.
proof fn lemma_decimal_digits(n: nat)
    ensures
        decimal_digits(n).len() > 0,
        all_digits(decimal_digits(n)),
        no_space(decimal_digits(n)),
        digits_value(decimal_digits(n)) == n,
        decimal_digits(n)[0] != '+',
    decreases n,
{
    if n >= 10 {
        lemma_decimal_digits(n / 10);
        let d = decimal_digits(n);
        assert(d.drop_last() =~= decimal_digits(n / 10));
        assert((((48 + n % 10) as u8) as char) as u32 == 48 + n % 10);
        assert(d.last() == (((48 + n % 10) as u8) as char));
        assert(n == (n / 10) * 10 + n % 10);
        assert(digits_value(d) == digits_value(d.drop_last()) * 10 + (d.last() as u32 - 48) as nat);
        assert(digits_value(d.drop_last()) == n / 10);
        assert forall|i: int| 0 <= i < d.len() implies #[trigger] is_digit(d[i]) && !is_space(d[i]) by {
            if i < d.len() - 1 {
                assert(d[i] == decimal_digits(n / 10)[i]);
                assert(is_digit(decimal_digits(n / 10)[i]));
            }
        }
    } else {
        let d = decimal_digits(n);
        assert(d.drop_last() =~= Seq::<char>::empty());
        assert((((48 + n) as u8) as char) as u32 == 48 + n);
        assert(digits_value(d) == digits_value(d.drop_last()) * 10 + (d.last() as u32 - 48) as nat);
    }
}

/// A move counter read back from its digits.
proof fn lemma_counter(n: u16)
    ensures
        u16_of_field(decimal_digits(n as nat)) == Some(n),
{
    lemma_decimal_digits(n as nat);
}

/// A piece letter names its piece again, and is neither whitespace, `/` nor a digit.
proof fn lemma_piece_char(p: u8)
    requires
        1 <= p <= 12,
    ensures
        piece_of_char(char_of_piece(p)) == p,
        !is_space(char_of_piece(p)),
        char_of_piece(p) != '/',
        !('1' <= char_of_piece(p) && char_of_piece(p) <= '8'),
{
}

/// Reading one character is one step.
proof fn lemma_run_one(st: Placement, c: char)
    ensures
        placement_run(st, seq![c]) == placement_step(st, c),
{
    assert(seq![c].drop_first() =~= Seq::<char>::empty());
    assert(placement_run(placement_step(st, c), Seq::<char>::empty()) == placement_step(st, c));
}

/// The digit of a run of one to eight empty squares.
proof fn lemma_run_digit(run: int)
    requires
        1 <= run <= 8,
    ensures
        run_text(run).len() == 1,
        '1' <= run_text(run)[0] && run_text(run)[0] <= '8',
        run_text(run)[0] as u32 - 48 == run,
        !is_space(run_text(run)[0]),
        run_text(run)[0] != '/',
{
    assert((((48 + run) as u8) as char) as u32 == 48 + run);
}

/// Reading the text of the first `f` squares of rank `r` from the start of that rank fills
/// the squares written so far with their pieces and leaves the rest of the board alone.
proof fn lemma_rank_prefix(mb: Seq<u8>, r: int, f: int, st: Placement)
    requires
        mailbox_ok(mb),
        0 <= r < 8,
        0 <= f <= 8,
        st.ok,
        st.rank == r,
        st.file == 0,
        st.squares.len() == 64,
        forall|j: int| 0 <= j < 8 ==> #[trigger] st.squares[r * 8 + j] == 0,
    ensures
        ({
            let pr = rank_prefix(mb, r, f);
            let q = placement_run(st, pr.0);
            &&& 0 <= pr.1 <= f
            &&& q.ok && q.rank == r && q.file == f - pr.1 && q.squares.len() == 64
            &&& forall|j: int| 0 <= j < 8 ==> #[trigger] q.squares[r * 8 + j] == (if j < f - pr.1 {
                mb[r * 8 + j]
            } else {
                0
            })
            &&& forall|i: int| 0 <= i < 64 && (i < r * 8 || i >= r * 8 + 8) ==> #[trigger] q.squares[i] == st.squares[i]
            &&& forall|j: int| f - pr.1 <= j < f ==> #[trigger] mb[r * 8 + j] == 0
            &&& no_space(pr.0)
            &&& forall|i: int| 0 <= i < pr.0.len() ==> pr.0[i] != '/'
        }),
    decreases f,
{
    if f > 0 {
        lemma_rank_prefix(mb, r, f - 1, st);
        let (t, run) = rank_prefix(mb, r, f - 1);
        let q0 = placement_run(st, t);
        let p = mb[r * 8 + f - 1];
        if p != 0 {
            let c = char_of_piece(p);
            lemma_piece_char(p);
            let rt = run_text(run);
            assert(rt.push(c) =~= rt + seq![c]);
            lemma_run_concat(st, t, rt.push(c));
            lemma_run_concat(q0, rt, seq![c]);
            let q1 = placement_run(q0, rt);
            if run > 0 {
                lemma_run_digit(run);
                assert(rt =~= seq![rt[0]]);
                lemma_run_one(q0, rt[0]);
                assert(q1.file == f - 1);
            } else {
                assert(q1 == q0);
            }
            lemma_run_one(q1, c);
            let q = placement_step(q1, c);
            assert(q.file == f);
            assert forall|j: int| 0 <= j < 8 implies #[trigger] q.squares[r * 8 + j] == (if j < f {
                mb[r * 8 + j]
            } else {
                0
            }) by {
                assert(q.squares[r * 8 + j] == q1.squares.update(r * 8 + f - 1, p)[r * 8 + j]);
            }
            let nt = t + rt.push(c);
            assert forall|i: int| 0 <= i < nt.len() implies !is_space(#[trigger] nt[i]) && nt[i] != '/' by {
                if i >= t.len() + rt.len() {
                    assert(nt[i] == c);
                } else if i >= t.len() {
                    lemma_run_digit(run);
                    assert(nt[i] == rt[0]);
                } else {
                    assert(nt[i] == t[i]);
                }
            }
        }
    }
}

/// Reading the text of rank `r` from its start fills the rank with its pieces.
proof fn lemma_rank_text(mb: Seq<u8>, r: int, st: Placement)
    requires
        mailbox_ok(mb),
        0 <= r < 8,
        st.ok,
        st.rank == r,
        st.file == 0,
        st.squares.len() == 64,
        forall|j: int| 0 <= j < 8 ==> #[trigger] st.squares[r * 8 + j] == 0,
    ensures
        ({
            let q = placement_run(st, rank_text(mb, r));
            &&& q.ok && q.rank == r && q.file == 8 && q.squares.len() == 64
            &&& forall|j: int| 0 <= j < 8 ==> #[trigger] q.squares[r * 8 + j] == mb[r * 8 + j]
            &&& forall|i: int| 0 <= i < 64 && (i < r * 8 || i >= r * 8 + 8) ==> #[trigger] q.squares[i] == st.squares[i]
            &&& rank_text(mb, r).len() > 0
            &&& no_space(rank_text(mb, r))
            &&& forall|i: int| 0 <= i < rank_text(mb, r).len() ==> rank_text(mb, r)[i] != '/'
        }),
{
    lemma_rank_prefix(mb, r, 8, st);
    let (t, run) = rank_prefix(mb, r, 8);
    let q0 = placement_run(st, t);
    lemma_run_concat(st, t, run_text(run));
    let rt = run_text(run);
    let q = placement_run(q0, rt);
    if run > 0 {
        lemma_run_digit(run);
        assert(rt =~= seq![rt[0]]);
        lemma_run_one(q0, rt[0]);
    } else {
        assert(q == q0);
    }
    let w = t + rt;
    assert forall|i: int| 0 <= i < w.len() implies !is_space(#[trigger] w[i]) && w[i] != '/' by {
        if i >= t.len() {
            lemma_run_digit(run);
            assert(w[i] == rt[0]);
        } else {
            assert(w[i] == t[i]);
        }
    }
    if w.len() == 0 {
        assert(run == 0);
        assert(t.len() == 0);
        // A rank whose text is empty would have no squares at all.
        assert(false) by {
            if mb[r * 8 + 7] != 0 {
                assert(rank_prefix(mb, r, 8).1 == 0);
            }
        }
    }
}

/// Reading the text of the top `k` ranks fills those ranks and leaves reading at the start
/// of the next one (or at the end of the first rank once all eight are read).
proof fn lemma_placement_text(mb: Seq<u8>, k: int)
    requires
        mailbox_ok(mb),
        0 <= k <= 8,
    ensures
        ({
            let q = placement_run(placement_start(), placement_text(mb, k));
            &&& q.ok && q.squares.len() == 64
            &&& k < 8 ==> q.rank == 7 - k && q.file == 0
            &&& k == 8 ==> q.rank == 0 && q.file == 8
            &&& forall|i: int| 0 <= i < 64 ==> #[trigger] q.squares[i] == (if i >= (8 - k) * 8 {
                mb[i]
            } else {
                0
            })
            &&& no_space(placement_text(mb, k))
            &&& k > 0 ==> placement_text(mb, k).len() > 0
        }),
    decreases k,
{
    if k > 0 {
        lemma_placement_text(mb, k - 1);
        let r = 8 - k;
        let a = placement_text(mb, k - 1);
        let st = placement_run(placement_start(), a);
        assert forall|j: int| 0 <= j < 8 implies #[trigger] st.squares[r * 8 + j] == 0 by {
            assert(st.squares[r * 8 + j] == (if r * 8 + j >= (8 - (k - 1)) * 8 {
                mb[r * 8 + j]
            } else {
                0
            }));
        }
        lemma_rank_text(mb, r, st);
        let b = rank_text(mb, r);
        let tail: Seq<char> = if k < 8 {
            seq!['/']
        } else {
            Seq::empty()
        };
        assert(placement_text(mb, k) == a + b + tail);
        lemma_run_concat(placement_start(), a, b);
        lemma_run_concat(placement_start(), a + b, tail);
        let q1 = placement_run(st, b);
        if k < 8 {
            lemma_run_one(q1, '/');
        } else {
            assert(placement_run(q1, tail) == q1);
        }
        let q = placement_run(placement_start(), placement_text(mb, k));
        assert forall|i: int| 0 <= i < 64 implies #[trigger] q.squares[i] == (if i >= (8 - k) * 8 {
            mb[i]
        } else {
            0
        }) by {
            assert(q.squares[i] == q1.squares[i]);
            if r * 8 <= i < r * 8 + 8 {
                assert(q1.squares[r * 8 + (i - r * 8)] == mb[r * 8 + (i - r * 8)]);
            } else {
                assert(q1.squares[i] == st.squares[i]);
            }
        }
        let w = a + b + tail;
        assert forall|i: int| 0 <= i < w.len() implies !is_space(#[trigger] w[i]) by {
            if i < a.len() {
                assert(w[i] == a[i]);
            } else if i < a.len() + b.len() {
                assert(w[i] == b[i - a.len()]);
            } else {
                assert(w[i] == '/');
            }
        }
    }
}

/// How the castling rights build up letter by letter.
proof fn lemma_rights_bits(c: u8)
    by (bit_vector)
    requires
        c < 16,
    ensures
        c & 1 != 0 ==> 0u8 | 1u8 == c & 1,
        c & 1 == 0 ==> 0u8 == c & 1,
        c & 2 != 0 ==> (c & 1) | 2u8 == c & 3,
        c & 2 == 0 ==> c & 1 == c & 3,
        c & 4 != 0 ==> (c & 3) | 4u8 == c & 7,
        c & 4 == 0 ==> c & 3 == c & 7,
        c & 8 != 0 ==> (c & 7) | 8u8 == c,
        c & 8 == 0 ==> c & 7 == c,
{
}

/// Adding an optional castling letter.
proof fn lemma_rights_step(s: Seq<char>, x: char, on: bool, v: u8)
    requires
        rights_of(s) == Some(v),
        right_of_char(x) != 0,
    ensures
        rights_of(s + (if on {
            seq![x]
        } else {
            Seq::<char>::empty()
        })) == Some(if on {
            v | right_of_char(x)
        } else {
            v
        }),
{
    if on {
        assert((s + seq![x]).drop_last() =~= s);
    } else {
        assert(s + Seq::<char>::empty() =~= s);
    }
}

/// The castling field of a set of rights names those rights.
proof fn lemma_castling_field(c: u8)
    requires
        c < 16,
    ensures
        castling_of_field(castling_text(c)) == Some(c),
        castling_text(c).len() > 0,
        no_space(castling_text(c)),
{
    if c != 0 {
        lemma_rights_bits(c);
        let e = Seq::<char>::empty();
        let a = if c & 1 != 0 { seq!['K'] } else { e };
        let b = if c & 2 != 0 { seq!['Q'] } else { e };
        let d = if c & 4 != 0 { seq!['k'] } else { e };
        let g = if c & 8 != 0 { seq!['q'] } else { e };
        assert(e + a =~= a);
        lemma_rights_step(e, 'K', c & 1 != 0, 0);
        lemma_rights_step(a, 'Q', c & 2 != 0, c & 1);
        lemma_rights_step(a + b, 'k', c & 4 != 0, c & 3);
        lemma_rights_step(a + b + d, 'q', c & 8 != 0, c & 7);
        let t = castling_text(c);
        assert(t == a + b + d + g);
        assert(t != seq!['-']) by {
            if t == seq!['-'] {
                assert(t[0] == '-');
                assert(t[0] == 'K' || t[0] == 'Q' || t[0] == 'k' || t[0] == 'q') by {
                    assert(t.len() > 0);
                }
            }
        }
        assert forall|i: int| 0 <= i < t.len() implies !is_space(#[trigger] t[i]) by {
            assert(t[i] == 'K' || t[i] == 'Q' || t[i] == 'k' || t[i] == 'q') by {
                if i < a.len() {
                    assert(t[i] == a[i]);
                } else if i < a.len() + b.len() {
                    assert(t[i] == b[i - a.len()]);
                } else if i < a.len() + b.len() + d.len() {
                    assert(t[i] == d[i - a.len() - b.len()]);
                } else {
                    assert(t[i] == g[i - a.len() - b.len() - d.len()]);
                }
            }
        }
        assert(t.len() > 0) by {
            if t.len() == 0 {
                assert(a.len() == 0 && b.len() == 0 && d.len() == 0 && g.len() == 0);
            }
        }
    }
}

/// The en-passant field of a square (or of none) names it.
proof fn lemma_ep_field(ep: u8)
    requires
        ep <= 64,
    ensures
        ep_of_field(ep_text(ep)) == Some(ep),
        ep_text(ep).len() > 0,
        no_space(ep_text(ep)),
{
    if ep < 64 {
        let f = ((97 + ep % 8) as u8) as char;
        let r = ((49 + ep / 8) as u8) as char;
        assert(f as u32 == 97 + ep % 8);
        assert(r as u32 == 49 + ep / 8);
        assert(ep == (ep / 8) * 8 + ep % 8);
    }
}

/// Reading back the FEN text of a position gives that position: the same pieces, side to
/// move, castling rights, en-passant square and move counters, with the hash computed from
/// them and no history of earlier positions.
pub proof fn lemma_fen_round_trip(p: Position)
    requires
        mailbox_ok(p.mailbox),
        p.side <= 1,
        p.castling < 16,
        p.ep <= 64,
    ensures
        parse_fen(fen_text(p)) == Ok::<Position, crate::fen::FenError>(
            Position { zobrist: zobrist_of(p), history: Seq::empty(), ..p },
        ),
{
    let mb = p.mailbox;
    lemma_placement_text(mb, 8);
    lemma_castling_field(p.castling);
    lemma_ep_field(p.ep);
    lemma_decimal_digits(p.halfmove as nat);
    lemma_decimal_digits(p.fullmove as nat);
    lemma_counter(p.halfmove);
    lemma_counter(p.fullmove);
    let sc = if p.side == 0 {
        'w'
    } else {
        'b'
    };
    let pl = placement_text(mb, 8);
    let c = castling_text(p.castling);
    let e = ep_text(p.ep);
    let h = decimal_digits(p.halfmove as nat);
    let f = decimal_digits(p.fullmove as nat);
    let side = seq![sc];
    assert(no_space(side));
    let t1 = pl;
    let t2 = t1.push(' ');
    let t3 = t2 + side;
    let t4 = t3.push(' ');
    let t5 = t4 + c;
    let t6 = t5.push(' ');
    let t7 = t6 + e;
    let t8 = t7.push(' ');
    let t9 = t8 + h;
    let t10 = t9.push(' ');
    let t11 = t10 + f;
    assert(fen_text(p) =~= t11);
    let empty = Seq::<char>::empty();
    assert(empty + pl =~= pl);
    lemma_fields_word(empty, pl);
    lemma_fields_space(t1);
    lemma_fields_word(t2, side);
    lemma_fields_space(t3);
    lemma_fields_word(t4, c);
    lemma_fields_space(t5);
    lemma_fields_word(t6, e);
    lemma_fields_space(t7);
    lemma_fields_word(t8, h);
    lemma_fields_space(t9);
    lemma_fields_word(t10, f);
    let fs = fields(t11);
    assert(fs =~= seq![pl, side, c, e, h, f]);
    let q = placement_run(placement_start(), pl);
    assert(q.squares =~= mb);
    assert(side_of_field(side) == Some(p.side));
}

} // verus!
