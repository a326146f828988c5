//! Writing a position as a FEN record and reading the record back gives
//! the position again (without its move history).
use vstd::prelude::*;
use super::fen::{
    fen_spec, fen_rest, fen_text, board_text, rank_text, empties_text, digit_char, dec_text, castle_text,
    piece_char_spec, piece_code_spec, board_from, castle_from, digits_val, parse_uint, word_bounds, word,
    has_word, skip_ws, word_end, is_ws, empty_board,
};
use super::position::{PosView, decode, valid_code, EMPTY_MAILBOX, lemma_decode_code, hash_parts};
use super::types::{Color, sq_name_spec, parse_sq_spec};
use super::fen::FenError;
use vstd::utf8::{is_ascii_chars, encode_utf8};

verus! {

/// The bytes of a text of ASCII characters.
pub open spec fn bytes_of(t: Seq<char>) -> Seq<u8> {
    Seq::new(t.len(), |i: int| t[i] as u8)
}

/// The board as read so far: the squares of the ranks above `r` and of the
/// first `f` files of rank `r` as in `mb`, the others empty.
pub open spec fn partial(mb: Seq<u8>, r: int, f: int) -> Seq<u8> {
    Seq::new(64, |i: int| if i / 8 > r || (i / 8 == r && i % 8 < f) { mb[i] } else { EMPTY_MAILBOX })
}

/// A board of 64 valid square codes.
pub open spec fn board_ok(mb: Seq<u8>) -> bool {
    mb.len() == 64 && forall|i: int| 0 <= i < 64 ==> #[trigger] valid_code(mb[i])
}

/// The letter of a piece reads back as the piece's code.
proof fn lemma_piece_letter(raw: u8)
    requires
        valid_code(raw),
        decode(raw) is Some,
    ensures
        piece_code_spec(piece_char_spec(decode(raw).unwrap().0, decode(raw).unwrap().1) as u8) == Some(raw),
        piece_char_spec(decode(raw).unwrap().0, decode(raw).unwrap().1) as u8 != 47,
        !(48 <= piece_char_spec(decode(raw).unwrap().0, decode(raw).unwrap().1) as u8 <= 57),
{
    lemma_decode_code(raw);
}

/// Reading the text of rank `r` from file `f` on, with `em` empty squares
/// pending, fills in the rest of the rank.
proof fn lemma_rank(b: Seq<u8>, j: int, e: int, mb: Seq<u8>, r: int, f: int, em: int)
    requires
        board_ok(mb),
        0 <= r <= 7,
        0 <= em <= f <= 8,
        forall|k: int| f - em <= k < f ==> #[trigger] mb[r * 8 + k] == EMPTY_MAILBOX,
        0 <= j,
        j + rank_text(mb, r, f, em).len() <= e <= b.len(),
        b.subrange(j, j + rank_text(mb, r, f, em).len()) == bytes_of(rank_text(mb, r, f, em)),
    ensures
        board_from(b, j, e, r, f - em, partial(mb, r, f)) == board_from(
            b,
            j + rank_text(mb, r, f, em).len(),
            e,
            r,
            8,
            partial(mb, r, 8),
        ),
    decreases 8 - f,
{
    let t = rank_text(mb, r, f, em);
    if f >= 8 {
        assert(partial(mb, r, f) =~= partial(mb, r, 8));
        if em > 0 {
            assert(t == seq![digit_char(em)]);
            assert(b[j] == bytes_of(t)[0]);
            assert(b[j] == 48 + em);
            assert(board_from(b, j, e, r, f - em, partial(mb, r, f)) == board_from(b, j + 1, e, r, 8, partial(mb, r, f)));
        }
    } else {
        let sq = r * 8 + f;
        assert(valid_code(mb[sq]));
        match decode(mb[sq]) {
            None => {
                assert(mb[sq] == EMPTY_MAILBOX);
                assert(partial(mb, r, f) =~= partial(mb, r, f + 1));
                assert forall|k: int| (f + 1) - (em + 1) <= k < f + 1 implies #[trigger] mb[r * 8 + k] == EMPTY_MAILBOX by {
                    if k < f {
                        assert(mb[r * 8 + k] == EMPTY_MAILBOX);
                    }
                }
                lemma_rank(b, j, e, mb, r, f + 1, em + 1);
            },
            Some((c, p)) => {
                let pc = piece_char_spec(c, p);
                let rest = rank_text(mb, r, f + 1, 0);
                assert(t == empties_text(em) + seq![pc] + rest);
                let n = empties_text(em).len() as int;
                lemma_piece_letter(mb[sq]);
                let j1 = j + n;
                if em > 0 {
                    assert(b[j] == bytes_of(t)[0]);
                    assert(b[j] == 48 + em);
                }
                assert(b[j1] == bytes_of(t)[n]);
                assert(b[j1] == pc as u8);
                assert(partial(mb, r, f)[sq] == EMPTY_MAILBOX);
                assert(partial(mb, r, f).update(sq, mb[sq]) =~= partial(mb, r, f + 1));
                if em > 0 {
                    assert(board_from(b, j, e, r, f - em, partial(mb, r, f)) == board_from(b, j1, e, r, f, partial(mb, r, f)));
                }
                assert(board_from(b, j1, e, r, f, partial(mb, r, f)) == board_from(b, j1 + 1, e, r, f + 1, partial(mb, r, f + 1)));
                assert(b.subrange(j1 + 1, j1 + 1 + rest.len()) =~= bytes_of(rest)) by {
                    assert forall|k: int| 0 <= k < rest.len() implies b.subrange(j1 + 1, j1 + 1 + rest.len())[k] == bytes_of(rest)[k] by {
                        assert(b[j1 + 1 + k] == bytes_of(t)[n + 1 + k]);
                    }
                }
                lemma_rank(b, j1 + 1, e, mb, r, f + 1, 0);
            },
        }
    }
}

/// Reading the board field from rank `r` down fills in the whole board.
proof fn lemma_board(b: Seq<u8>, j: int, mb: Seq<u8>, r: int)
    requires
        board_ok(mb),
        0 <= r <= 7,
        0 <= j,
        j + board_text(mb, r).len() <= b.len(),
        b.subrange(j, j + board_text(mb, r).len()) == bytes_of(board_text(mb, r)),
    ensures
        board_from(b, j, j + board_text(mb, r).len(), r, 0, partial(mb, r, 0)) == Ok::<Seq<u8>, super::fen::FenError>(mb),
    decreases r,
{
    let e = j + board_text(mb, r).len();
    let rt = rank_text(mb, r, 0, 0);
    if r <= 0 {
        assert(board_text(mb, r) == rt);
        lemma_rank(b, j, e, mb, r, 0, 0);
        assert(partial(mb, 0, 8) =~= mb);
    } else {
        let rest = board_text(mb, r - 1);
        assert(board_text(mb, r) == rt + seq!['/'] + rest);
        assert(b.subrange(j, j + rt.len()) =~= bytes_of(rt)) by {
            assert forall|k: int| 0 <= k < rt.len() implies b.subrange(j, j + rt.len())[k] == bytes_of(rt)[k] by {
                assert(b[j + k] == bytes_of(board_text(mb, r))[k]);
            }
        }
        lemma_rank(b, j, e, mb, r, 0, 0);
        let j1 = j + rt.len();
        assert(b[j1] == bytes_of(board_text(mb, r))[rt.len() as int]);
        assert(b[j1] == 47);
        assert(partial(mb, r, 8) =~= partial(mb, r - 1, 0));
        assert(b.subrange(j1 + 1, j1 + 1 + rest.len()) =~= bytes_of(rest)) by {
            assert forall|k: int| 0 <= k < rest.len() implies b.subrange(j1 + 1, j1 + 1 + rest.len())[k] == bytes_of(rest)[k] by {
                assert(b[j1 + 1 + k] == bytes_of(board_text(mb, r))[rt.len() + 1 + k]);
            }
        }
        lemma_board(b, j1 + 1, mb, r - 1);
    }
}


/// Every character is printable and not a space.
pub open spec fn graphic(t: Seq<char>) -> bool {
    forall|i: int| 0 <= i < t.len() ==> '!' <= #[trigger] t[i] <= '~'
}

proof fn lemma_graphic_concat(a: Seq<char>, b: Seq<char>)
    requires
        graphic(a),
        graphic(b),
    ensures
        graphic(a + b),
{
    assert forall|i: int| 0 <= i < (a + b).len() implies '!' <= #[trigger] (a + b)[i] <= '~' by {
        if i < a.len() {
            assert((a + b)[i] == a[i]);
        } else {
            assert((a + b)[i] == b[i - a.len()]);
        }
    }
}

proof fn lemma_rank_graphic(mb: Seq<u8>, r: int, f: int, em: int)
    requires
        board_ok(mb),
        0 <= r <= 7,
        0 <= em <= f <= 8,
    ensures
        graphic(rank_text(mb, r, f, em)),
    decreases 8 - f,
{
    let e = empties_text(em);
    assert(graphic(e)) by {
        if em > 0 {
            assert(e == seq![digit_char(em)]);
        } else {
            assert(e =~= Seq::<char>::empty());
        }
    }
    if f < 8 {
        let sq = r * 8 + f;
        match decode(mb[sq]) {
            None => {
                lemma_rank_graphic(mb, r, f + 1, em + 1);
            },
            Some((c, p)) => {
                lemma_rank_graphic(mb, r, f + 1, 0);
                let pc = seq![piece_char_spec(c, p)];
                assert(graphic(pc));
                lemma_graphic_concat(e, pc);
                lemma_graphic_concat(e + pc, rank_text(mb, r, f + 1, 0));
            },
        }
    }
}

proof fn lemma_board_graphic(mb: Seq<u8>, r: int)
    requires
        board_ok(mb),
        0 <= r <= 7,
    ensures
        graphic(board_text(mb, r)),
    decreases r,
{
    lemma_rank_graphic(mb, r, 0, 0);
    if r > 0 {
        lemma_board_graphic(mb, r - 1);
        lemma_graphic_concat(rank_text(mb, r, 0, 0), seq!['/']);
        lemma_graphic_concat(rank_text(mb, r, 0, 0) + seq!['/'], board_text(mb, r - 1));
    }
}

proof fn lemma_dec_graphic(n: nat)
    ensures
        graphic(dec_text(n)),
        dec_text(n).len() > 0,
    decreases n,
{
    if n >= 10 {
        lemma_dec_graphic(n / 10);
        lemma_graphic_concat(dec_text(n / 10), seq![digit_char((n % 10) as int)]);
        assert(dec_text(n) == dec_text(n / 10) + seq![digit_char((n % 10) as int)]);
    }
}

/// Decimal digits read back as their number.
proof fn lemma_dec_digits(n: nat)
    ensures
        digits_val(bytes_of(dec_text(n))) == Some(n as int),
        bytes_of(dec_text(n))[0] != 43,
    decreases n,
{
    let d = bytes_of(dec_text(n));
    if n >= 10 {
        lemma_dec_digits(n / 10);
        lemma_dec_graphic(n / 10);
        assert(d.drop_last() =~= bytes_of(dec_text(n / 10)));
        assert(d.last() == 48 + n % 10);
        assert(d[0] == bytes_of(dec_text(n / 10))[0]);
    }
}

/// The castling field reads back as the rights.
proof fn lemma_castle_bits(c: u8)
    requires
        c < 16,
    ensures
        ({
            let a1 = if c & 1 != 0 { 0u8 | 1u8 } else { 0u8 };
            let a2 = if c & 2 != 0 { a1 | 2u8 } else { a1 };
            let a3 = if c & 4 != 0 { a2 | 4u8 } else { a2 };
            let a4 = if c & 8 != 0 { a3 | 8u8 } else { a3 };
            &&& a4 == c
            &&& (c == 0 <==> (c & 1 == 0 && c & 2 == 0 && c & 4 == 0 && c & 8 == 0))
            &&& 0u8 | 0u8 == 0u8
        }),
{
    assert(c < 16 ==> ({
        let a1 = if c & 1 != 0 { 0u8 | 1u8 } else { 0u8 };
        let a2 = if c & 2 != 0 { a1 | 2u8 } else { a1 };
        let a3 = if c & 4 != 0 { a2 | 4u8 } else { a2 };
        let a4 = if c & 8 != 0 { a3 | 8u8 } else { a3 };
        &&& a4 == c
        &&& (c == 0 <==> (c & 1 == 0 && c & 2 == 0 && c & 4 == 0 && c & 8 == 0))
        &&& 0u8 | 0u8 == 0u8
    })) by (bit_vector);
}

/// Reading a field byte by byte splits at any point.
proof fn lemma_castle_split(b: Seq<u8>, s: int, m: int, e: int, acc: u8)
    requires
        s <= m <= e,
    ensures
        castle_from(b, s, e, acc) == castle_from(b, m, e, castle_from(b, s, m, acc)),
    decreases m - s,
{
    if s < m {
        let c = b[s];
        let bitv: u8 = if c == 75 { 1 } else if c == 81 { 2 } else if c == 107 { 4 } else if c == 113 { 8 } else { 0 };
        lemma_castle_split(b, s + 1, m, e, acc | bitv);
    }
}


/// A word of printable bytes from `s` to `e`, ended by whitespace or the
/// end of the text.
proof fn lemma_word_at(b: Seq<u8>, s: int, e: int)
    requires
        0 <= s < e <= b.len(),
        forall|k: int| s <= k < e ==> !is_ws(#[trigger] b[k]),
        e == b.len() || is_ws(b[e]),
    ensures
        skip_ws(b, s) == s,
        word_end(b, s) == e,
    decreases e - s,
{
    assert(!is_ws(b[s]));
    if s + 1 < e {
        lemma_word_at(b, s + 1, e);
    } else {
        assert(word_end(b, s + 1) == e);
    }
}

/// One separating space before a word.
proof fn lemma_skip_space(b: Seq<u8>, i: int)
    requires
        0 <= i,
        i + 1 < b.len(),
        is_ws(b[i]),
        !is_ws(b[i + 1]),
    ensures
        skip_ws(b, i) == i + 1,
{
    assert(skip_ws(b, i) == skip_ws(b, i + 1));
}

/// Bytes of printable characters are no whitespace and no `+`.
proof fn lemma_graphic_bytes(t: Seq<char>)
    requires
        graphic(t),
    ensures
        forall|k: int| 0 <= k < t.len() ==> !is_ws(#[trigger] bytes_of(t)[k]),
{
    assert forall|k: int| 0 <= k < t.len() implies !is_ws(#[trigger] bytes_of(t)[k]) by {
        assert('!' <= t[k] <= '~');
    }
}

/// Word `k` of `b` is the bytes from `s` to `e`, following the previous
/// word after one space.
proof fn lemma_next_word(b: Seq<u8>, k: nat, s: int, e: int)
    requires
        k >= 1,
        word_bounds(b, (k - 1) as nat).1 == s - 1,
        1 <= s < e <= b.len(),
        is_ws(b[s - 1]),
        forall|i: int| s <= i < e ==> !is_ws(#[trigger] b[i]),
        e == b.len() || is_ws(b[e]),
    ensures
        word_bounds(b, k) == (s, e),
        has_word(b, k),
        word(b, k) == b.subrange(s, e),
{
    lemma_skip_space(b, s - 1);
    lemma_word_at(b, s, e);
}

/// The en-passant field reads back as the square.
proof fn lemma_ep_field(ep: u32)
    requires
        ep <= 64,
    ensures
        ({
            let t = if ep == 64 { seq!['-'] } else { sq_name_spec(ep as int) };
            &&& graphic(t)
            &&& t.len() > 0
            &&& (if bytes_of(t) == seq![45u8] { Some(64u32) } else { parse_sq_spec(bytes_of(t)) }) == Some(ep)
        }),
{
    if ep < 64 {
        let t = sq_name_spec(ep as int);
        assert(bytes_of(t).len() == 2);
        assert(bytes_of(t)[0] == 97 + ep % 8);
        assert(bytes_of(t)[1] == 49 + ep / 8);
        assert(bytes_of(t) != seq![45u8]);
    } else {
        assert(bytes_of(seq!['-']) =~= seq![45u8]);
    }
}

/// The castling field is printable and reads back as the rights.
proof fn lemma_castle_field(b: Seq<u8>, s: int, c: u8)
    requires
        c < 16,
        0 <= s,
        s + castle_text(c).len() <= b.len(),
        b.subrange(s, s + castle_text(c).len()) == bytes_of(castle_text(c)),
    ensures
        graphic(castle_text(c)),
        castle_text(c).len() > 0,
        castle_from(b, s, s + castle_text(c).len(), 0) == c,
{
    lemma_castle_bits(c);
    let tk = if c & 1 != 0 { seq!['K'] } else { Seq::<char>::empty() };
    let tq = if c & 2 != 0 { seq!['Q'] } else { Seq::<char>::empty() };
    let tk2 = if c & 4 != 0 { seq!['k'] } else { Seq::<char>::empty() };
    let tq2 = if c & 8 != 0 { seq!['q'] } else { Seq::<char>::empty() };
    let t = tk + tq + tk2 + tq2;
    let e = s + castle_text(c).len();
    if c == 0 {
        assert(t.len() == 0);
        assert(castle_text(c) == seq!['-']);
        assert(b.subrange(s, e)[0] == b[s]);
        assert(bytes_of(castle_text(c))[0] == 45);
        assert(b[s] == 45);
        assert(castle_from(b, s, e, 0) == castle_from(b, s + 1, e, 0u8 | 0u8));
    } else {
        assert(t.len() > 0);
        assert(castle_text(c) == t);
        assert(graphic(t)) by {
            assert forall|i: int| 0 <= i < t.len() implies '!' <= #[trigger] t[i] <= '~' by {
                if i < tk.len() {
                } else if i < tk.len() + tq.len() {
                } else if i < tk.len() + tq.len() + tk2.len() {
                } else {
                }
            }
        }
        let m1 = s + tk.len();
        let m2 = m1 + tq.len();
        let m3 = m2 + tk2.len();
        lemma_castle_split(b, s, m1, e, 0);
        lemma_castle_split(b, m1, m2, e, castle_from(b, s, m1, 0));
        lemma_castle_split(b, m2, m3, e, castle_from(b, m1, m2, castle_from(b, s, m1, 0)));
        assert forall|i: int| 0 <= i < t.len() implies #[trigger] b[s + i] == t[i] as u8 by {
            assert(b.subrange(s, e)[i] == b[s + i]);
            assert(bytes_of(t)[i] == t[i] as u8);
        }
        if c & 1 != 0 {
            assert(b[s + 0] == t[0] as u8);
            assert(b[s] == 75);
            assert(castle_from(b, s, m1, 0) == castle_from(b, s + 1, m1, 0u8 | 1u8));
        }
        let a1 = castle_from(b, s, m1, 0);
        if c & 2 != 0 {
            assert(b[s + tk.len()] == t[tk.len() as int] as u8);
            assert(b[m1] == 81);
            assert(castle_from(b, m1, m2, a1) == castle_from(b, m1 + 1, m2, a1 | 2u8));
        }
        let a2 = castle_from(b, m1, m2, a1);
        if c & 4 != 0 {
            assert(b[s + (tk.len() + tq.len())] == t[(tk.len() + tq.len()) as int] as u8);
            assert(b[m2] == 107);
            assert(castle_from(b, m2, m3, a2) == castle_from(b, m2 + 1, m3, a2 | 4u8));
        }
        let a3 = castle_from(b, m2, m3, a2);
        if c & 8 != 0 {
            assert(b[s + (tk.len() + tq.len() + tk2.len())] == t[(tk.len() + tq.len() + tk2.len()) as int] as u8);
            assert(b[m3] == 113);
            assert(castle_from(b, m3, e, a3) == castle_from(b, m3 + 1, e, a3 | 8u8));
        }
    }
}


/// The en-passant field.
pub open spec fn ep_text(ep: u32) -> Seq<char> {
    if ep == 64 { seq!['-'] } else { sq_name_spec(ep as int) }
}

/// The side-to-move letter.
pub open spec fn side_char(c: Color) -> char {
    if c == Color::White { 'w' } else { 'b' }
}

/// Every character is printable (space included).
pub open spec fn printable(t: Seq<char>) -> bool {
    forall|i: int| 0 <= i < t.len() ==> ' ' <= #[trigger] t[i] <= '~'
}

proof fn lemma_printable_concat(a: Seq<char>, b: Seq<char>)
    requires
        printable(a),
        printable(b),
    ensures
        printable(a + b),
{
    assert forall|i: int| 0 <= i < (a + b).len() implies ' ' <= #[trigger] (a + b)[i] <= '~' by {
        if i < a.len() {
            assert((a + b)[i] == a[i]);
        } else {
            assert((a + b)[i] == b[i - a.len()]);
        }
    }
}

proof fn lemma_graphic_printable(a: Seq<char>)
    requires
        graphic(a),
    ensures
        printable(a),
{
    assert forall|i: int| 0 <= i < a.len() implies ' ' <= #[trigger] a[i] <= '~' by {
        assert('!' <= a[i] <= '~');
    }
}

/// The record is printable, hence ASCII, and its UTF-8 encoding is its
/// bytes.
proof fn lemma_fen_ascii(v: PosView)
    requires
        v.wf(),
    ensures
        is_ascii_chars(fen_text(v)),
        encode_utf8(fen_text(v)) == bytes_of(fen_text(v)),
{
    let mb = v.mailbox;
    assert(board_ok(mb));
    lemma_board_graphic(mb, 7);
    lemma_dec_graphic(v.halfmove_clock as nat);
    lemma_dec_graphic(v.fullmove as nat);
    lemma_ep_field(v.ep_square);
    lemma_castle_bits(v.castling);
    let p2 = castle_text(v.castling);
    assert(graphic(p2)) by {
        let bb = bytes_of(p2);
        assert(bb.subrange(0, p2.len() as int) =~= bytes_of(p2));
        lemma_castle_field(bb, 0, v.castling);
    }
    let sp = seq![' ', side_char(v.side), ' '];
    assert(printable(sp));
    assert(printable(seq![' ']));
    lemma_graphic_printable(board_text(mb, 7));
    lemma_graphic_printable(p2);
    lemma_graphic_printable(ep_text(v.ep_square));
    lemma_graphic_printable(dec_text(v.halfmove_clock as nat));
    lemma_graphic_printable(dec_text(v.fullmove as nat));
    let t1 = board_text(mb, 7) + sp;
    lemma_printable_concat(board_text(mb, 7), sp);
    let t2 = t1 + p2;
    lemma_printable_concat(t1, p2);
    let t3 = t2 + seq![' '];
    lemma_printable_concat(t2, seq![' ']);
    let t4 = t3 + ep_text(v.ep_square);
    lemma_printable_concat(t3, ep_text(v.ep_square));
    let t5 = t4 + seq![' '];
    lemma_printable_concat(t4, seq![' ']);
    let t6 = t5 + dec_text(v.halfmove_clock as nat);
    lemma_printable_concat(t5, dec_text(v.halfmove_clock as nat));
    let t7 = t6 + seq![' '];
    lemma_printable_concat(t6, seq![' ']);
    let t = t7 + dec_text(v.fullmove as nat);
    lemma_printable_concat(t7, dec_text(v.fullmove as nat));
    assert(fen_text(v) == t);
    assert(is_ascii_chars(t)) by {
        assert forall|i: int| 0 <= i < t.len() implies '\0' <= #[trigger] t[i] <= '\u{7f}' by {
            assert(' ' <= t[i] <= '~');
        }
    }
    vstd::utf8::is_ascii_chars_encode_utf8(t);
    assert(encode_utf8(t) =~= bytes_of(t));
}

/// Where the fields of the record stand: the board from 0, then a space,
/// the side letter and a space, then the castling field, the en-passant
/// field and the two clocks, each after one space.
pub open spec fn fen_layout(v: PosView, t: Seq<char>) -> bool {
    let p0 = board_text(v.mailbox, 7);
    let p2 = castle_text(v.castling);
    let p3 = ep_text(v.ep_square);
    let p4 = dec_text(v.halfmove_clock as nat);
    let p5 = dec_text(v.fullmove as nat);
    let e0 = p0.len() as int;
    let o2 = e0 + 3;
    let o3 = o2 + p2.len() + 1;
    let o4 = o3 + p3.len() + 1;
    let o5 = o4 + p4.len() + 1;
    &&& t.len() == o5 + p5.len()
    &&& forall|i: int| 0 <= i < e0 ==> #[trigger] t[i] == p0[i]
    &&& t[e0] == ' ' && t[e0 + 1] == side_char(v.side) && t[e0 + 2] == ' '
    &&& forall|i: int| 0 <= i < p2.len() ==> #[trigger] t[o2 + i] == p2[i]
    &&& t[o3 - 1] == ' '
    &&& forall|i: int| 0 <= i < p3.len() ==> #[trigger] t[o3 + i] == p3[i]
    &&& t[o4 - 1] == ' '
    &&& forall|i: int| 0 <= i < p4.len() ==> #[trigger] t[o4 + i] == p4[i]
    &&& t[o5 - 1] == ' '
    &&& forall|i: int| 0 <= i < p5.len() ==> #[trigger] t[o5 + i] == p5[i]
}

proof fn lemma_fen_layout(v: PosView)
    ensures
        fen_layout(v, fen_text(v)),
{
    let p0 = board_text(v.mailbox, 7);
    let p2 = castle_text(v.castling);
    let p3 = ep_text(v.ep_square);
    let p4 = dec_text(v.halfmove_clock as nat);
    let p5 = dec_text(v.fullmove as nat);
    let t1 = p0 + seq![' ', side_char(v.side), ' '];
    let t2 = t1 + p2;
    let t3 = t2 + seq![' '];
    let t4 = t3 + p3;
    let t5 = t4 + seq![' '];
    let t6 = t5 + p4;
    let t7 = t6 + seq![' '];
    let t = t7 + p5;
    assert(fen_text(v) == t);
    assert forall|i: int| 0 <= i < p0.len() implies #[trigger] t[i] == p0[i] by {
        assert(t[i] == t7[i]);
        assert(t7[i] == t6[i]);
        assert(t6[i] == t5[i]);
        assert(t5[i] == t4[i]);
        assert(t4[i] == t3[i]);
        assert(t3[i] == t2[i]);
        assert(t2[i] == t1[i]);
    }
    let o2 = t1.len() as int;
    assert forall|i: int| 0 <= i < p2.len() implies #[trigger] t[o2 + i] == p2[i] by {
        assert(t[o2 + i] == t7[o2 + i]);
        assert(t7[o2 + i] == t6[o2 + i]);
        assert(t6[o2 + i] == t5[o2 + i]);
        assert(t5[o2 + i] == t4[o2 + i]);
        assert(t4[o2 + i] == t3[o2 + i]);
        assert(t3[o2 + i] == t2[o2 + i]);
    }
    let o3 = t3.len() as int;
    assert forall|i: int| 0 <= i < p3.len() implies #[trigger] t[o3 + i] == p3[i] by {
        assert(t[o3 + i] == t7[o3 + i]);
        assert(t7[o3 + i] == t6[o3 + i]);
        assert(t6[o3 + i] == t5[o3 + i]);
        assert(t5[o3 + i] == t4[o3 + i]);
    }
    let o4 = t5.len() as int;
    assert forall|i: int| 0 <= i < p4.len() implies #[trigger] t[o4 + i] == p4[i] by {
        assert(t[o4 + i] == t7[o4 + i]);
        assert(t7[o4 + i] == t6[o4 + i]);
    }
    let o5 = t7.len() as int;
    assert forall|i: int| 0 <= i < p5.len() implies #[trigger] t[o5 + i] == p5[i] by {
    }
    let e0 = p0.len() as int;
    assert(t[e0] == t1[e0]);
    assert(t[e0 + 1] == t1[e0 + 1]);
    assert(t[e0 + 2] == t1[e0 + 2]);
    assert(t[o3 - 1] == t3[o3 - 1]);
    assert(t[o4 - 1] == t5[o4 - 1]);
    assert(t[o5 - 1] == t7[o5 - 1]);
}

/// The position that reading a record back gives: `v` without its history.
pub open spec fn without_history(v: PosView) -> PosView {
    PosView {
        mailbox: v.mailbox,
        side: v.side,
        castling: v.castling,
        ep_square: v.ep_square,
        halfmove_clock: v.halfmove_clock,
        fullmove: v.fullmove,
        zobrist: v.zobrist,
        history: seq![],
    }
}

/// Writing a consistent position as a FEN record and reading the record
/// back gives the position again, without its move history: the record
/// is ASCII, and `fen_spec` of its bytes is the position.
pub proof fn lemma_fen_roundtrip(v: PosView)
    requires
        v.wf(),
    ensures
        is_ascii_chars(fen_text(v)),
        encode_utf8(fen_text(v)) == bytes_of(fen_text(v)),
        fen_spec(encode_utf8(fen_text(v))) == Ok::<PosView, FenError>(without_history(v)),
{
    lemma_fen_ascii(v);
    lemma_fen_read(v);
}

/// The words of the record's bytes are its fields.
proof fn lemma_fen_words(v: PosView)
    requires
        v.wf(),
    ensures
        ({
            let b = bytes_of(fen_text(v));
            let p0 = board_text(v.mailbox, 7);
            let p2 = castle_text(v.castling);
            let e0 = p0.len() as int;
            let o2 = e0 + 3;
            let e2 = o2 + p2.len();
            &&& has_word(b, 0) && has_word(b, 1) && has_word(b, 2) && has_word(b, 3)
            &&& has_word(b, 4) && has_word(b, 5)
            &&& word_bounds(b, 0) == (0int, e0)
            &&& word_bounds(b, 2) == (o2, e2)
            &&& b.subrange(0, e0) == bytes_of(p0)
            &&& b.subrange(o2, e2) == bytes_of(p2)
            &&& e2 <= b.len()
            &&& word(b, 1) == seq![side_char(v.side) as u8]
            &&& word(b, 3) == bytes_of(ep_text(v.ep_square))
            &&& word(b, 4) == bytes_of(dec_text(v.halfmove_clock as nat))
            &&& word(b, 5) == bytes_of(dec_text(v.fullmove as nat))
        }),
{
    let mb = v.mailbox;
    assert(board_ok(mb));
    let t = fen_text(v);
    lemma_fen_layout(v);
    let p0 = board_text(mb, 7);
    let p2 = castle_text(v.castling);
    let p3 = ep_text(v.ep_square);
    let p4 = dec_text(v.halfmove_clock as nat);
    let p5 = dec_text(v.fullmove as nat);
    lemma_board_graphic(mb, 7);
    lemma_dec_graphic(v.halfmove_clock as nat);
    lemma_dec_graphic(v.fullmove as nat);
    lemma_ep_field(v.ep_square);
    assert(p0 == rank_text(mb, 7, 0, 0) + seq!['/'] + board_text(mb, 6));
    let b = bytes_of(t);
    let e0 = p0.len() as int;
    let o2 = e0 + 3;
    let e2 = o2 + p2.len();
    let o3 = e2 + 1;
    let e3 = o3 + p3.len();
    let o4 = e3 + 1;
    let e4 = o4 + p4.len();
    let o5 = e4 + 1;
    let n = t.len() as int;
    assert(b.subrange(o2, e2) =~= bytes_of(p2));
    lemma_castle_field(b, o2, v.castling);
    lemma_graphic_bytes(p0);
    lemma_graphic_bytes(p2);
    lemma_graphic_bytes(p3);
    lemma_graphic_bytes(p4);
    lemma_graphic_bytes(p5);
    assert forall|i: int| 0 <= i < e0 implies !is_ws(#[trigger] b[i]) by {
        assert(b[i] == bytes_of(p0)[i]);
    }
    assert forall|i: int| o2 <= i < e2 implies !is_ws(#[trigger] b[i]) by {
        assert(t[o2 + (i - o2)] == p2[i - o2]);
        assert(b[i] == bytes_of(p2)[i - o2]);
    }
    assert forall|i: int| o3 <= i < e3 implies !is_ws(#[trigger] b[i]) by {
        assert(t[o3 + (i - o3)] == p3[i - o3]);
        assert(b[i] == bytes_of(p3)[i - o3]);
    }
    assert forall|i: int| o4 <= i < e4 implies !is_ws(#[trigger] b[i]) by {
        assert(t[o4 + (i - o4)] == p4[i - o4]);
        assert(b[i] == bytes_of(p4)[i - o4]);
    }
    assert forall|i: int| o5 <= i < n implies !is_ws(#[trigger] b[i]) by {
        assert(t[o5 + (i - o5)] == p5[i - o5]);
        assert(b[i] == bytes_of(p5)[i - o5]);
    }
    assert(b[e0] == 32);
    assert(!is_ws(b[e0 + 1]));
    assert(b[e0 + 2] == 32);
    assert(b[e2] == 32);
    assert(b[e3] == 32);
    assert(b[e4] == 32);
    lemma_word_at(b, 0, e0);
    assert(word_bounds(b, 0) == (0int, e0));
    lemma_next_word(b, 1, e0 + 1, e0 + 2);
    lemma_next_word(b, 2, o2, e2);
    lemma_next_word(b, 3, o3, e3);
    lemma_next_word(b, 4, o4, e4);
    lemma_next_word(b, 5, o5, n);
    assert(b.subrange(0, e0) =~= bytes_of(p0));
    assert(word(b, 1) =~= seq![side_char(v.side) as u8]);
    assert(word(b, 3) =~= bytes_of(p3));
    assert(word(b, 4) =~= bytes_of(p4));
    assert(word(b, 5) =~= bytes_of(p5));
}

/// Reading the bytes of the record.
proof fn lemma_fen_read(v: PosView)
    requires
        v.wf(),
    ensures
        fen_spec(bytes_of(fen_text(v))) == Ok::<PosView, FenError>(without_history(v)),
{
    lemma_fen_words(v);
    lemma_read_fields(v, bytes_of(fen_text(v)));
}

/// Reading a record whose fields are those of `v`.
proof fn lemma_read_fields(v: PosView, b: Seq<u8>)
    requires
        v.wf(),
        ({
            let p0 = board_text(v.mailbox, 7);
            let p2 = castle_text(v.castling);
            let e0 = p0.len() as int;
            let o2 = e0 + 3;
            let e2 = o2 + p2.len();
            &&& has_word(b, 0) && has_word(b, 1) && has_word(b, 2) && has_word(b, 3)
            &&& has_word(b, 4) && has_word(b, 5)
            &&& word_bounds(b, 0) == (0int, e0)
            &&& word_bounds(b, 2) == (o2, e2)
            &&& b.subrange(0, e0) == bytes_of(p0)
            &&& b.subrange(o2, e2) == bytes_of(p2)
            &&& e2 <= b.len()
            &&& word(b, 1) == seq![side_char(v.side) as u8]
            &&& word(b, 3) == bytes_of(ep_text(v.ep_square))
            &&& word(b, 4) == bytes_of(dec_text(v.halfmove_clock as nat))
            &&& word(b, 5) == bytes_of(dec_text(v.fullmove as nat))
        }),
    ensures
        fen_spec(b) == Ok::<PosView, FenError>(without_history(v)),
{
    let mb = v.mailbox;
    assert(board_ok(mb));
    let p0 = board_text(mb, 7);
    let p2 = castle_text(v.castling);
    let e0 = p0.len() as int;
    let o2 = e0 + 3;
    lemma_castle_field(b, o2, v.castling);
    assert(castle_from(b, o2, o2 + p2.len(), 0) == v.castling);
    lemma_board(b, 0, mb, 7);
    assert(partial(mb, 7, 0) =~= empty_board());
    assert(board_from(b, 0, e0, 7, 0, empty_board()) == Ok::<Seq<u8>, FenError>(mb));
    lemma_ep_field(v.ep_square);
    lemma_dec_digits(v.halfmove_clock as nat);
    lemma_dec_digits(v.fullmove as nat);
    assert(parse_uint(word(b, 4), 255) == Some(v.halfmove_clock as int));
    assert(parse_uint(word(b, 5), 65535) == Some(v.fullmove as int));
    assert(word(b, 1) == seq![119u8] || word(b, 1) == seq![98u8]);
    assert('w' as u8 == 119u8);
    assert('b' as u8 == 98u8);
    if v.side == Color::White {
        assert(word(b, 1) == seq![119u8]);
    } else {
        assert(word(b, 1) == seq![98u8]);
        assert(word(b, 1)[0] == 98u8);
        assert(word(b, 1) != seq![119u8]);
    }
    assert(v.zobrist == hash_parts(mb, v.castling, v.ep_square, v.side));
    assert(fen_rest(b, mb) == Ok::<PosView, FenError>(without_history(v)));
}

} // verus!
