//! Forsyth-Edwards Notation: reading a position from text, writing it back,
//! and the consistency check of a position's redundant data.
use vstd::prelude::*;
use super::bitboard::{Bitboard, sq_in, group_bb};
use super::position::{
    Position, PosView, code_of, decode, valid_code, hash_parts, board_hash, pawn_hash,
    EMPTY_MAILBOX, lemma_code_decode, lemma_decode_code,
};
use super::types::{Color, Piece, Square, parse_sq_bytes, parse_sq_spec, file_char, rank_char, file_of, rank_of, squares, color_of_idx, piece_of_idx, CASTLE_WK, CASTLE_WQ, CASTLE_BK, CASTLE_BQ};
use super::zobrist::{castling_key, ep_key, side_key};
use crate::strutil::push_char;
use vstd::string::StringSliceAdditionalSpecFns;

verus! {

/// Whitespace that separates the fields of a FEN record.
pub open spec fn is_ws(c: u8) -> bool {
    c == 32 || (9 <= c && c <= 13)
}

/// First index at or after `i` that is not whitespace (or the end).
pub open spec fn skip_ws(b: Seq<u8>, i: int) -> int
    decreases b.len() - i,
{
    if 0 <= i < b.len() && is_ws(b[i]) {
        skip_ws(b, i + 1)
    } else {
        i
    }
}

/// First index at or after `i` that is whitespace (or the end).
pub open spec fn word_end(b: Seq<u8>, i: int) -> int
    decreases b.len() - i,
{
    if 0 <= i < b.len() && !is_ws(b[i]) {
        word_end(b, i + 1)
    } else {
        i
    }
}

/// Start and end of the `k`-th whitespace-separated word (both at the end of
/// the text when there are fewer words).
pub open spec fn word_bounds(b: Seq<u8>, k: nat) -> (int, int)
    decreases k,
{
    let from = if k == 0 { 0 } else { word_bounds(b, (k - 1) as nat).1 };
    let s = skip_ws(b, from);
    (s, word_end(b, s))
}

/// The `k`-th word.
pub open spec fn word(b: Seq<u8>, k: nat) -> Seq<u8> {
    b.subrange(word_bounds(b, k).0, word_bounds(b, k).1)
}

/// The text has a `k`-th word.
pub open spec fn has_word(b: Seq<u8>, k: nat) -> bool {
    word_bounds(b, k).0 < b.len()
}

/// Why a FEN record was refused.
#[derive(PartialEq, Eq, Structural, Clone, Copy)]
pub enum FenError {
    MissingBoard,
    MissingSide,
    MissingCastling,
    MissingEp,
    /// A byte of the board field that is neither a piece letter, a digit nor `/`.
    UnknownChar(u8),
    /// A piece placed off the board or on a square already holding one.
    BadSquare,
    InvalidSide,
    InvalidEp,
}

/// The text of an error.
pub open spec fn fen_err_msg(e: FenError) -> Seq<char> {
    match e {
        FenError::MissingBoard => "missing board"@,
        FenError::MissingSide => "missing side"@,
        FenError::MissingCastling => "missing castling"@,
        FenError::MissingEp => "missing ep"@,
        FenError::UnknownChar(c) => "unknown FEN char: "@.push(c as char),
        FenError::BadSquare => "piece off the board or on an occupied square"@,
        FenError::InvalidSide => "invalid side"@,
        FenError::InvalidEp => "invalid ep square"@,
    }
}

/// The mailbox code of a piece letter.
pub open spec fn piece_code_spec(c: u8) -> Option<u8> {
    if c == 80 { Some(0) }            // P
    else if c == 78 { Some(1) }       // N
    else if c == 66 { Some(2) }       // B
    else if c == 82 { Some(3) }       // R
    else if c == 81 { Some(4) }       // Q
    else if c == 75 { Some(5) }       // K
    else if c == 112 { Some(8) }      // p
    else if c == 110 { Some(9) }      // n
    else if c == 98 { Some(10) }      // b
    else if c == 114 { Some(11) }     // r
    else if c == 113 { Some(12) }     // q
    else if c == 107 { Some(13) }     // k
    else { None }
}

/// The mailbox after reading the board field from index `j` to `e`, with the
/// current rank (-1 once below the board) and file (at most 64).
pub open spec fn board_from(b: Seq<u8>, j: int, e: int, rank: int, file: int, mb: Seq<u8>) -> Result<Seq<u8>, FenError>
    decreases e - j,
{
    if j >= e {
        Ok(mb)
    } else {
        let c = b[j];
        if c == 47 {
            board_from(b, j + 1, e, if rank > 0 { rank - 1 } else { -1 }, 0, mb)
        } else if 48 <= c <= 57 {
            let f = file + (c - 48);
            board_from(b, j + 1, e, rank, if f > 64 { 64 } else { f }, mb)
        } else {
            match piece_code_spec(c) {
                None => Err(FenError::UnknownChar(c)),
                Some(code) => {
                    let sq = rank * 8 + file;
                    if rank < 0 || sq >= 64 || mb[sq] != EMPTY_MAILBOX {
                        Err(FenError::BadSquare)
                    } else {
                        board_from(b, j + 1, e, rank, if file + 1 > 64 { 64 } else { file + 1 }, mb.update(sq, code))
                    }
                },
            }
        }
    }
}

/// The empty board.
pub open spec fn empty_board() -> Seq<u8> {
    Seq::new(64, |i: int| EMPTY_MAILBOX)
}

/// Castling rights named by the bytes from `j` to `e` (other bytes ignored).
pub open spec fn castle_from(b: Seq<u8>, j: int, e: int, acc: u8) -> u8
    decreases e - j,
{
    if j >= e {
        acc
    } else {
        let c = b[j];
        let bitv: u8 = if c == 75 { 1 } else if c == 81 { 2 } else if c == 107 { 4 } else if c == 113 { 8 } else { 0 };
        castle_from(b, j + 1, e, acc | bitv)
    }
}

/// Value of a nonempty run of decimal digits.
pub open spec fn digits_val(d: Seq<u8>) -> Option<int>
    decreases d.len(),
{
    if d.len() == 0 {
        None
    } else {
        let c = d.last();
        if c < 48 || c > 57 {
            None
        } else if d.len() == 1 {
            Some(c - 48)
        } else {
            match digits_val(d.drop_last()) {
                None => None,
                Some(v) => Some(v * 10 + (c - 48)),
            }
        }
    }
}

/// An unsigned number written in decimal with an optional `+`, at most `max`.
pub open spec fn parse_uint(d: Seq<u8>, max: int) -> Option<int> {
    let ds = if d.len() > 0 && d[0] == 43 { d.drop_first() } else { d };
    match digits_val(ds) {
        Some(v) => if v <= max { Some(v) } else { None },
        None => None,
    }
}

/// The position with board `mb` and the side, castling, en-passant and
/// clock fields of the record, or why they are refused.
pub open spec fn fen_rest(b: Seq<u8>, mb: Seq<u8>) -> Result<PosView, FenError> {
    let side_w = word(b, 1);
    if side_w != seq![119u8] && side_w != seq![98u8] {
        Err(FenError::InvalidSide)
    } else {
        let side = if side_w == seq![119u8] { Color::White } else { Color::Black };
        let (s2, e2) = word_bounds(b, 2);
        let castling = castle_from(b, s2, e2, 0);
        let ep_w = word(b, 3);
        let ep: Option<Square> = if ep_w == seq![45u8] { Some(64) } else { parse_sq_spec(ep_w) };
        match ep {
            None => Err(FenError::InvalidEp),
            Some(ep) => {
                let hm = if has_word(b, 4) {
                    match parse_uint(word(b, 4), 255) { Some(v) => v, None => 0 }
                } else {
                    0
                };
                let fm = if has_word(b, 5) {
                    match parse_uint(word(b, 5), 65535) { Some(v) => v, None => 1 }
                } else {
                    1
                };
                Ok(PosView {
                    mailbox: mb,
                    side,
                    castling,
                    ep_square: ep,
                    halfmove_clock: hm as u8,
                    fullmove: fm as u16,
                    zobrist: hash_parts(mb, castling, ep, side),
                    history: seq![],
                })
            },
        }
    }
}

/// The position a FEN record describes, or why it is refused.
pub open spec fn fen_spec(b: Seq<u8>) -> Result<PosView, FenError> {
    if !has_word(b, 0) {
        Err(FenError::MissingBoard)
    } else if !has_word(b, 1) {
        Err(FenError::MissingSide)
    } else if !has_word(b, 2) {
        Err(FenError::MissingCastling)
    } else if !has_word(b, 3) {
        Err(FenError::MissingEp)
    } else {
        let (s0, e0) = word_bounds(b, 0);
        match board_from(b, s0, e0, 7, 0, empty_board()) {
            Err(e) => Err(e),
            Ok(mb) => fen_rest(b, mb),
        }
    }
}

} // verus!

verus! {

fn skip_ws_at(b: &[u8], i: usize) -> (r: usize)
    requires
        i <= b@.len(),
    ensures
        r == skip_ws(b@, i as int),
        i <= r <= b@.len(),
{
    let mut k = i;
    while k < b.len() && (b[k] == 32 || (9 <= b[k] && b[k] <= 13))
        invariant
            i <= k <= b@.len(),
            skip_ws(b@, k as int) == skip_ws(b@, i as int),
        decreases b@.len() - k,
    {
        k += 1;
    }
    k
}

fn word_end_at(b: &[u8], i: usize) -> (r: usize)
    requires
        i <= b@.len(),
    ensures
        r == word_end(b@, i as int),
        i <= r <= b@.len(),
{
    let mut k = i;
    while k < b.len() && !(b[k] == 32 || (9 <= b[k] && b[k] <= 13))
        invariant
            i <= k <= b@.len(),
            word_end(b@, k as int) == word_end(b@, i as int),
        decreases b@.len() - k,
    {
        k += 1;
    }
    k
}

/// Bounds of the word that follows index `from`.
pub fn next_word(b: &[u8], from: usize) -> (r: (usize, usize))
    requires
        from <= b@.len(),
    ensures
        r.0 == skip_ws(b@, from as int),
        r.1 == word_end(b@, r.0 as int),
        from <= r.0 <= r.1 <= b@.len(),
{
    let s = skip_ws_at(b, from);
    let e = word_end_at(b, s);
    (s, e)
}

/// The color and kind of a piece letter.
fn piece_of_char(c: u8) -> (r: Option<(Color, Piece)>)
    ensures
        match piece_code_spec(c) {
            None => r is None,
            Some(code) => r is Some && code_of(r.unwrap().0, r.unwrap().1) == code,
        },
{
    match c {
        80 => Some((Color::White, Piece::Pawn)),
        78 => Some((Color::White, Piece::Knight)),
        66 => Some((Color::White, Piece::Bishop)),
        82 => Some((Color::White, Piece::Rook)),
        81 => Some((Color::White, Piece::Queen)),
        75 => Some((Color::White, Piece::King)),
        112 => Some((Color::Black, Piece::Pawn)),
        110 => Some((Color::Black, Piece::Knight)),
        98 => Some((Color::Black, Piece::Bishop)),
        114 => Some((Color::Black, Piece::Rook)),
        113 => Some((Color::Black, Piece::Queen)),
        107 => Some((Color::Black, Piece::King)),
        _ => None,
    }
}

/// Places the pieces of the board field `b[s..e]` on `pos`.
fn read_board(b: &[u8], s: usize, e: usize, pos: &mut Position) -> (r: Result<(), FenError>)
    requires
        s <= e <= b@.len(),
        old(pos).wf_board(),
        old(pos).mailbox@ == empty_board(),
        old(pos).zobrist == board_hash(old(pos).mailbox@, 64),
        old(pos).pawn_zobrist == pawn_hash(old(pos).mailbox@, 64),
    ensures
        match board_from(b@, s as int, e as int, 7, 0, empty_board()) {
            Ok(mb) => r is Ok && final(pos).mailbox@ == mb,
            Err(err) => r == Err::<(), FenError>(err),
        },
        final(pos).wf_board(),
        final(pos).zobrist == board_hash(final(pos).mailbox@, 64),
        final(pos).pawn_zobrist == pawn_hash(final(pos).mailbox@, 64),
        final(pos).side == old(pos).side,
        final(pos).castling == old(pos).castling,
        final(pos).ep_square == old(pos).ep_square,
        final(pos).halfmove_clock == old(pos).halfmove_clock,
        final(pos).fullmove == old(pos).fullmove,
        final(pos).history == old(pos).history,
{
    let mut rank: i32 = 7;
    let mut file: i32 = 0;
    let mut j = s;
    let ghost target = board_from(b@, s as int, e as int, 7, 0, empty_board());
    while j < e
        invariant
            s <= j <= e <= b@.len(),
            -1 <= rank <= 7,
            0 <= file <= 64,
            pos.wf_board(),
            pos.mailbox@.len() == 64,
            pos.zobrist == board_hash(pos.mailbox@, 64),
            pos.pawn_zobrist == pawn_hash(pos.mailbox@, 64),
            board_from(b@, j as int, e as int, rank as int, file as int, pos.mailbox@) == target,
            target == board_from(b@, s as int, e as int, 7, 0, empty_board()),
            pos.side == old(pos).side,
            pos.castling == old(pos).castling,
            pos.ep_square == old(pos).ep_square,
            pos.halfmove_clock == old(pos).halfmove_clock,
            pos.fullmove == old(pos).fullmove,
            pos.history == old(pos).history,
        decreases e - j,
    {
        let c = b[j];
        if c == 47 {
            rank = if rank > 0 { rank - 1 } else { -1 };
            file = 0;
        } else if 48 <= c && c <= 57 {
            let f = file + (c - 48) as i32;
            file = if f > 64 { 64 } else { f };
        } else {
            match piece_of_char(c) {
                None => {
                    assert(board_from(b@, j as int, e as int, rank as int, file as int, pos.mailbox@) == Err::<Seq<u8>, FenError>(FenError::UnknownChar(c)));
                    return Err(FenError::UnknownChar(c));
                },
                Some((color, piece)) => {
                    if rank < 0 || rank * 8 + file >= 64 {
                        assert(board_from(b@, j as int, e as int, rank as int, file as int, pos.mailbox@) == Err::<Seq<u8>, FenError>(FenError::BadSquare));
                        return Err(FenError::BadSquare);
                    }
                    let sq = (rank * 8 + file) as u32;
                    if pos.mailbox[sq as usize] != EMPTY_MAILBOX {
                        return Err(FenError::BadSquare);
                    }
                    let ghost z0 = pos.zobrist;
                    let ghost pz0 = pos.pawn_zobrist;
                    let ghost mb0 = pos.mailbox@;
                    proof {
                        assert(pos.at(sq as int) is None);
                    }
                    pos.place_piece(color, piece, sq);
                    proof {
                        let h0 = board_hash(mb0, 64);
                        let h1 = board_hash(pos.mailbox@, 64);
                        let p0 = pawn_hash(mb0, 64);
                        let p1 = pawn_hash(pos.mailbox@, 64);
                        let z1 = pos.zobrist;
                        let pz1 = pos.pawn_zobrist;
                        assert((z1 ^ h1 == z0 ^ h0 && z0 == h0 ==> z1 == h1) && (pz1 ^ p1 == pz0 ^ p0 && pz0 == p0 ==> pz1 == p1)) by (bit_vector);
                    }
                    file = if file + 1 > 64 { 64 } else { file + 1 };
                },
            }
        }
        j += 1;
    }
    Ok(())
}

/// Castling rights named by `b[s..e]`.
fn read_castling(b: &[u8], s: usize, e: usize) -> (r: u8)
    requires
        s <= e <= b@.len(),
    ensures
        r == castle_from(b@, s as int, e as int, 0),
        r < 16,
{
    let mut castling = 0u8;
    let mut j = s;
    while j < e
        invariant
            s <= j <= e <= b@.len(),
            castling < 16,
            castle_from(b@, j as int, e as int, castling) == castle_from(b@, s as int, e as int, 0),
        decreases e - j,
    {
        let c = b[j];
        let bitv: u8 = if c == 75 { CASTLE_WK } else if c == 81 { CASTLE_WQ } else if c == 107 { CASTLE_BK } else if c == 113 { CASTLE_BQ } else { 0 };
        assert(castling < 16 && bitv < 16 ==> castling | bitv < 16) by (bit_vector);
        castling = castling | bitv;
        j += 1;
    }
    castling
}

} // verus!

verus! {

pub proof fn lemma_digits_nonneg(ds: Seq<u8>)
    ensures
        digits_val(ds) is Some ==> digits_val(ds).unwrap() >= 0,
    decreases ds.len(),
{
    if ds.len() > 1 {
        lemma_digits_nonneg(ds.drop_last());
    }
}

/// A value read from a prefix of a run of digits is at most the value of
/// the whole run, and a prefix that is not all digits spoils the run.
pub proof fn lemma_digits_prefix(ds: Seq<u8>, i: int)
    requires
        1 <= i <= ds.len(),
    ensures
        digits_val(ds) is Some ==> digits_val(ds.take(i)) is Some && 0 <= digits_val(ds.take(i)).unwrap() <= digits_val(ds).unwrap(),
    decreases ds.len(),
{
    lemma_digits_nonneg(ds);
    lemma_digits_nonneg(ds.take(i));
    if i < ds.len() {
        lemma_digits_prefix(ds.drop_last(), i);
        assert(ds.drop_last().take(i) =~= ds.take(i));
    } else {
        assert(ds.take(i) =~= ds);
    }
}

/// Reads an unsigned decimal number (optional `+`) from `b[s..e]` that is at
/// most `max`.
fn parse_uint_at(b: &[u8], s: usize, e: usize, max: u32) -> (r: Option<u32>)
    requires
        s <= e <= b@.len(),
        max <= 65535,
    ensures
        match parse_uint(b@.subrange(s as int, e as int), max as int) {
            Some(v) => 0 <= v <= max && r == Some(v as u32),
            None => r is None,
        },
{
    let ghost d = b@.subrange(s as int, e as int);
    let mut k = s;
    if k < e && b[k] == 43 {
        k += 1;
    }
    let k0 = k;
    let ghost ds = b@.subrange(k0 as int, e as int);
    assert(ds == (if d.len() > 0 && d[0] == 43 { d.drop_first() } else { d }));
    if k == e {
        assert(ds.len() == 0);
        return None;
    }
    let mut v: u32 = 0;
    while k < e
        invariant
            s <= k0 <= k <= e <= b@.len(),
            k0 < e,
            d == b@.subrange(s as int, e as int),
            ds == b@.subrange(k0 as int, e as int),
            ds == (if d.len() > 0 && d[0] == 43 { d.drop_first() } else { d }),
            max <= 65535,
            v <= max,
            k == k0 ==> v == 0,
            k > k0 ==> digits_val(ds.take(k - k0)) == Some(v as int),
        decreases e - k,
    {
        let c = b[k];
        let ghost i = k - k0;
        assert(ds.take(i + 1).last() == c);
        assert(ds.take(i + 1).drop_last() =~= ds.take(i));
        if c < 48 || c > 57 {
            proof {
                assert(digits_val(ds.take(i + 1)) is None);
                lemma_digits_prefix(ds, i + 1);
            }
            return None;
        }
        let nv = v * 10 + (c - 48) as u32;
        proof {
            assert(digits_val(ds.take(i + 1)) == Some(nv as int));
        }
        if nv > max {
            proof {
                lemma_digits_prefix(ds, i + 1);
            }
            return None;
        }
        v = nv;
        k += 1;
    }
    assert(ds.take(e - k0) =~= ds);
    proof {
        lemma_digits_nonneg(ds);
    }
    Some(v)
}

/// The square named by the first two bytes of `b[s..e]`.
pub fn parse_sq_at(b: &[u8], s: usize, e: usize) -> (r: Option<Square>)
    requires
        s <= e <= b@.len(),
    ensures
        r == parse_sq_spec(b@.subrange(s as int, e as int)),
        r matches Some(sq) ==> sq < 64,
{
    if e - s < 2 {
        return None;
    }
    let f = b[s];
    let r = b[s + 1];
    if f < 97 || f > 104 || r < 49 || r > 56 {
        return None;
    }
    Some(((r - 49) as u32) * 8 + (f - 97) as u32)
}

/// Reads a position from the bytes of a FEN record.
pub fn from_fen_bytes(b: &[u8]) -> (r: Result<Position, FenError>)
    ensures
        match fen_spec(b@) {
            Ok(v) => r is Ok && r->Ok_0@ == v && r->Ok_0.wf(),
            Err(err) => r is Err && r->Err_0 == err,
        },
{
    let (s0, e0) = next_word(b, 0);
    assert((s0 as int, e0 as int) == word_bounds(b@, 0));
    if s0 >= b.len() {
        return Err(FenError::MissingBoard);
    }
    let (s1, e1) = next_word(b, e0);
    assert((s1 as int, e1 as int) == word_bounds(b@, 1));
    if s1 >= b.len() {
        return Err(FenError::MissingSide);
    }
    let (s2, e2) = next_word(b, e1);
    assert((s2 as int, e2 as int) == word_bounds(b@, 2));
    if s2 >= b.len() {
        return Err(FenError::MissingCastling);
    }
    let (s3, e3) = next_word(b, e2);
    assert((s3 as int, e3 as int) == word_bounds(b@, 3));
    if s3 >= b.len() {
        return Err(FenError::MissingEp);
    }
    let (s4, e4) = next_word(b, e3);
    assert((s4 as int, e4 as int) == word_bounds(b@, 4));
    let (s5, e5) = next_word(b, e4);
    assert((s5 as int, e5 as int) == word_bounds(b@, 5));

    let mut pos = Position::new();
    proof {
        assert forall|i: int| 0 <= i < 64 implies pos.mailbox@[i] == EMPTY_MAILBOX by {
            assert(pos.at(i) is None);
            assert(valid_code(pos.mailbox@[i]));
            super::position::lemma_decode_none(pos.mailbox@[i]);
        }
        assert(pos.mailbox@ =~= empty_board());
    }
    match read_board(b, s0, e0, &mut pos) {
        Err(err) => {
            return Err(err);
        },
        Ok(()) => {},
    }
    match read_rest(b, e0, &mut pos) {
        Err(err) => Err(err),
        Ok(()) => Ok(pos),
    }
}

/// The side to move named by the word `b[s..e]`.
fn read_side(b: &[u8], s: usize, e: usize) -> (r: Option<Color>)
    requires
        s <= e <= b@.len(),
    ensures
        ({
            let w = b@.subrange(s as int, e as int);
            r == if w == seq![119u8] {
                Some(Color::White)
            } else if w == seq![98u8] {
                Some(Color::Black)
            } else {
                None
            }
        }),
{
    let ghost w = b@.subrange(s as int, e as int);
    assert(w.len() == e - s);
    if e - s == 1 {
        assert(w[0] == b@[s as int]);
        if b[s] == 119 {
            assert(w =~= seq![119u8]);
            return Some(Color::White);
        }
        if b[s] == 98 {
            assert(w =~= seq![98u8]);
            return Some(Color::Black);
        }
        assert(w != seq![119u8] && w != seq![98u8]);
    } else {
        assert(w != seq![119u8] && w != seq![98u8]);
    }
    None
}

/// The en-passant field `b[s..e]`: `-` for none (64), else a square name.
fn read_ep(b: &[u8], s: usize, e: usize) -> (r: Option<u32>)
    requires
        s <= e <= b@.len(),
    ensures
        ({
            let w = b@.subrange(s as int, e as int);
            r == if w == seq![45u8] { Some(64u32) } else { parse_sq_spec(w) }
        }),
        r matches Some(sq) ==> sq <= 64,
{
    let ghost w = b@.subrange(s as int, e as int);
    assert(w.len() == e - s);
    if e - s == 1 && b[s] == 45 {
        assert(w =~= seq![45u8]);
        return Some(squares::NONE);
    }
    assert(w != seq![45u8]) by {
        if e - s == 1 {
            assert(w[0] == b@[s as int]);
        }
    }
    parse_sq_at(b, s, e)
}

/// A clock field: its value if the word exists and reads as a number up to
/// `max`, else `default`.
fn read_clock(b: &[u8], s: usize, e: usize, max: u32, default: u32) -> (r: u32)
    requires
        s <= e <= b@.len(),
        max <= 65535,
        default <= max,
    ensures
        r == if s < b@.len() {
            match parse_uint(b@.subrange(s as int, e as int), max as int) {
                Some(v) => v,
                None => default as int,
            }
        } else {
            default as int
        },
        r <= max,
{
    if s < b.len() {
        match parse_uint_at(b, s, e, max) {
            Some(v) => v,
            None => default,
        }
    } else {
        default
    }
}

/// Reads side to move, castling rights, en-passant square and clocks into a
/// position whose board is read.
fn read_rest(b: &[u8], e0: usize, pos: &mut Position) -> (r: Result<(), FenError>)
    requires
        e0 == word_bounds(b@, 0).1,
        e0 <= b@.len(),
        old(pos).wf_board(),
        old(pos).mailbox@.len() == 64,
        old(pos).zobrist == board_hash(old(pos).mailbox@, 64),
        old(pos).pawn_zobrist == pawn_hash(old(pos).mailbox@, 64),
        old(pos).history@.len() == 0,
    ensures
        match fen_rest(b@, old(pos).mailbox@) {
            Ok(v) => r is Ok && final(pos)@ == v && final(pos).wf(),
            Err(err) => r is Err && r->Err_0 == err,
        },
{
    let ghost mb = pos.mailbox@;
    let ghost h = board_hash(mb, 64);
    let (s1, e1) = next_word(b, e0);
    let (s2, e2) = next_word(b, e1);
    let (s3, e3) = next_word(b, e2);
    let (s4, e4) = next_word(b, e3);
    let (s5, e5) = next_word(b, e4);
    assert((s1 as int, e1 as int) == word_bounds(b@, 1));
    assert((s2 as int, e2 as int) == word_bounds(b@, 2));
    assert((s3 as int, e3 as int) == word_bounds(b@, 3));
    assert((s4 as int, e4 as int) == word_bounds(b@, 4));
    assert((s5 as int, e5 as int) == word_bounds(b@, 5));

    let side = match read_side(b, s1, e1) {
        None => {
            return Err(FenError::InvalidSide);
        },
        Some(c) => c,
    };
    let castling = read_castling(b, s2, e2);
    let ep = match read_ep(b, s3, e3) {
        None => {
            return Err(FenError::InvalidEp);
        },
        Some(sq) => sq,
    };
    let hm = read_clock(b, s4, e4, 255, 0);
    let fm = read_clock(b, s5, e5, 65535, 1);
    let sk: u64 = if side == Color::Black { side_key() } else { 0 };
    let ck = castling_key(castling);
    let ek: u64 = if ep != squares::NONE { ep_key(file_of(ep)) } else { 0 };
    let z = pos.zobrist ^ sk ^ ck ^ ek;
    proof {
        assert(h ^ sk ^ ck ^ ek == h ^ ck ^ ek ^ sk) by (bit_vector);
    }
    pos.side = side;
    pos.castling = castling;
    pos.ep_square = ep;
    pos.halfmove_clock = hm as u8;
    pos.fullmove = fm as u16;
    pos.zobrist = z;
    proof {
        assert(pos@.history =~= seq![]);
    }
    Ok(())
}

} // verus!

verus! {

/// The message of a refused FEN record.
fn fen_err_string(e: FenError) -> (s: String)
    ensures
        s@ == fen_err_msg(e),
{
    match e {
        FenError::MissingBoard => "missing board".to_owned(),
        FenError::MissingSide => "missing side".to_owned(),
        FenError::MissingCastling => "missing castling".to_owned(),
        FenError::MissingEp => "missing ep".to_owned(),
        FenError::UnknownChar(c) => {
            let mut s = "unknown FEN char: ".to_owned();
            push_char(&mut s, c as char);
            s
        },
        FenError::BadSquare => "piece off the board or on an occupied square".to_owned(),
        FenError::InvalidSide => "invalid side".to_owned(),
        FenError::InvalidEp => "invalid ep square".to_owned(),
    }
}

impl Position {
    /// Reads a position from a FEN record: board, side to move, castling
    /// rights, en-passant square, and the two clocks when present.
    pub fn from_fen(fen: &str) -> (r: Result<Self, String>)
        ensures
            match fen_spec(fen.spec_bytes()) {
                Ok(v) => r is Ok && r->Ok_0@ == v && r->Ok_0.wf(),
                Err(e) => r is Err && r->Err_0@ == fen_err_msg(e),
            },
    {
        match from_fen_bytes(fen.as_bytes()) {
            Ok(p) => Ok(p),
            Err(e) => Err(fen_err_string(e)),
        }
    }
}

} // verus!

verus! {

/// The FEN record of the initial position.
pub open spec fn start_fen() -> Seq<u8> {
    "rnbqkbnr/pppppppp/8/8/8/8/PPPPPPPP/RNBQKBNR w KQkq - 0 1".spec_bytes()
}

impl Position {
    /// The initial position, read from its FEN record.
    pub fn startpos() -> (p: Self)
        ensures
            fen_spec(start_fen()) is Ok ==> p@ == fen_spec(start_fen())->Ok_0 && p.wf(),
    {
        match Position::from_fen("rnbqkbnr/pppppppp/8/8/8/8/PPPPPPPP/RNBQKBNR w KQkq - 0 1") {
            Ok(p) => p,
            Err(_) => Position::new(),
        }
    }
}

} // verus!

verus! {

/// The letter of a piece (upper case for white).
pub open spec fn piece_char_spec(c: Color, p: Piece) -> char {
    let lower = match p {
        Piece::Pawn => 'p',
        Piece::Knight => 'n',
        Piece::Bishop => 'b',
        Piece::Rook => 'r',
        Piece::Queen => 'q',
        Piece::King => 'k',
    };
    if c == Color::White { ((lower as int) - 32) as char } else { lower }
}

/// The decimal digit of `n` (for `0 <= n < 10`).
pub open spec fn digit_char(n: int) -> char {
    (48 + n) as char
}

/// A count of empty squares, written only when positive.
pub open spec fn empties_text(empty: int) -> Seq<char> {
    if empty > 0 { seq![digit_char(empty)] } else { seq![] }
}

/// The text of the squares of `rank` from `file` on, with `empty` empty
/// squares pending before them.
pub open spec fn rank_text(mb: Seq<u8>, rank: int, file: int, empty: int) -> Seq<char>
    decreases 8 - file,
{
    if file >= 8 {
        empties_text(empty)
    } else {
        match decode(mb[rank * 8 + file]) {
            None => rank_text(mb, rank, file + 1, empty + 1),
            Some((c, p)) => empties_text(empty) + seq![piece_char_spec(c, p)] + rank_text(mb, rank, file + 1, 0),
        }
    }
}

/// The board field from `rank` down to the first rank.
pub open spec fn board_text(mb: Seq<u8>, rank: int) -> Seq<char>
    decreases rank,
{
    if rank <= 0 {
        rank_text(mb, 0, 0, 0)
    } else {
        rank_text(mb, rank, 0, 0) + seq!['/'] + board_text(mb, rank - 1)
    }
}

/// The board field from rank `r - 1` down (nothing once `r` is 0).
pub open spec fn board_rest(mb: Seq<u8>, r: int) -> Seq<char> {
    if r <= 0 { seq![] } else { board_text(mb, r - 1) }
}

/// The castling field.
pub open spec fn castle_text(c: u8) -> Seq<char> {
    let t = (if c & 1 != 0 { seq!['K'] } else { seq![] }) + (if c & 2 != 0 { seq!['Q'] } else { seq![] })
        + (if c & 4 != 0 { seq!['k'] } else { seq![] }) + (if c & 8 != 0 { seq!['q'] } else { seq![] });
    if t.len() == 0 { seq!['-'] } else { t }
}

/// A number in decimal.
pub open spec fn dec_text(n: nat) -> Seq<char>
    decreases n,
{
    if n < 10 {
        seq![digit_char(n as int)]
    } else {
        dec_text(n / 10).push(digit_char((n % 10) as int))
    }
}

/// The FEN record of a position.
pub open spec fn fen_text(v: PosView) -> Seq<char> {
    board_text(v.mailbox, 7) + seq![' ', if v.side == Color::White { 'w' } else { 'b' }, ' ']
        + castle_text(v.castling) + seq![' ']
        + (if v.ep_square == 64 { seq!['-'] } else { super::types::sq_name_spec(v.ep_square as int) })
        + seq![' '] + dec_text(v.halfmove_clock as nat) + seq![' '] + dec_text(v.fullmove as nat)
}

fn piece_char(c: Color, p: Piece) -> (r: char)
    ensures
        r == piece_char_spec(c, p),
{
    match (c, p) {
        (Color::White, Piece::Pawn) => 'P',
        (Color::White, Piece::Knight) => 'N',
        (Color::White, Piece::Bishop) => 'B',
        (Color::White, Piece::Rook) => 'R',
        (Color::White, Piece::Queen) => 'Q',
        (Color::White, Piece::King) => 'K',
        (Color::Black, Piece::Pawn) => 'p',
        (Color::Black, Piece::Knight) => 'n',
        (Color::Black, Piece::Bishop) => 'b',
        (Color::Black, Piece::Rook) => 'r',
        (Color::Black, Piece::Queen) => 'q',
        (Color::Black, Piece::King) => 'k',
    }
}

fn digit(n: u32) -> (r: char)
    requires
        n < 10,
    ensures
        r == digit_char(n as int),
{
    ((48 + n) as u8) as char
}

/// Appends `n` in decimal.
pub fn push_dec(s: &mut String, n: u32)
    ensures
        final(s)@ == old(s)@ + dec_text(n as nat),
    decreases n,
{
    if n >= 10 {
        push_dec(s, n / 10);
    }
    push_char(s, digit(n % 10));
    proof {
        if n >= 10 {
            assert(dec_text(n as nat) == dec_text((n / 10) as nat).push(digit_char((n % 10) as int)));
        }
    }
}

/// Appends the text of one rank.
fn push_rank_text(pos: &Position, rank: u32, fen: &mut String)
    requires
        rank < 8,
    ensures
        final(fen)@ == old(fen)@ + rank_text(pos.mailbox@, rank as int, 0, 0),
{
    let ghost mb = pos.mailbox@;
    let ghost fen0 = fen@;
    let mut empty: u32 = 0;
    let mut file: u32 = 0;
    while file < 8
        invariant
            rank < 8,
            file <= 8,
            empty <= file,
            mb == pos.mailbox@,
            mb.len() == 64,
            fen@ + rank_text(mb, rank as int, file as int, empty as int) == fen0 + rank_text(mb, rank as int, 0, 0),
        decreases 8 - file,
    {
        let sq = rank * 8 + file;
        match pos.piece_at(sq) {
            None => {
                empty += 1;
            },
            Some((c, p)) => {
                let ghost f1 = fen@;
                let ghost e0 = empty as int;
                if empty > 0 {
                    push_char(fen, digit(empty));
                }
                push_char(fen, piece_char(c, p));
                empty = 0;
                proof {
                    assert(fen@ =~= f1 + empties_text(e0) + seq![piece_char_spec(c, p)]);
                    assert(fen@ + rank_text(mb, rank as int, file + 1, 0) =~= f1 + (empties_text(e0) + seq![piece_char_spec(c, p)] + rank_text(mb, rank as int, file + 1, 0)));
                }
            },
        }
        file += 1;
    }
    let ghost f2 = fen@;
    if empty > 0 {
        push_char(fen, digit(empty));
    }
    assert(fen@ =~= f2 + empties_text(empty as int));
}

/// Appends the board field.
fn push_board_text(pos: &Position, fen: &mut String)
    ensures
        final(fen)@ == old(fen)@ + board_text(pos.mailbox@, 7),
{
    let ghost mb = pos.mailbox@;
    let ghost start = fen@;
    let mut r: u32 = 8;
    while r > 0
        invariant
            r <= 8,
            mb == pos.mailbox@,
            fen@ + board_rest(mb, r as int) == start + board_text(mb, 7),
        decreases r,
    {
        let rank = r - 1;
        let ghost fen0 = fen@;
        push_rank_text(pos, rank, fen);
        if rank > 0 {
            push_char(fen, '/');
        }
        proof {
            if rank > 0 {
                assert(board_rest(mb, r as int) == rank_text(mb, rank as int, 0, 0) + seq!['/'] + board_rest(mb, rank as int));
                assert(fen@ + board_rest(mb, rank as int) =~= fen0 + board_rest(mb, r as int));
            } else {
                assert(board_rest(mb, r as int) == rank_text(mb, 0, 0, 0));
                assert(fen@ + board_rest(mb, rank as int) =~= fen0 + board_rest(mb, r as int));
            }
        }
        r -= 1;
    }
    assert(fen@ =~= start + board_text(mb, 7));
}

/// Appends the castling field.
fn push_castle_text(fen: &mut String, c: u8)
    ensures
        final(fen)@ == old(fen)@ + castle_text(c),
{
    let ghost fc = fen@;
    if c & CASTLE_WK != 0 {
        push_char(fen, 'K');
    }
    if c & CASTLE_WQ != 0 {
        push_char(fen, 'Q');
    }
    if c & CASTLE_BK != 0 {
        push_char(fen, 'k');
    }
    if c & CASTLE_BQ != 0 {
        push_char(fen, 'q');
    }
    if c & 15 == 0 {
        push_char(fen, '-');
    }
    proof {
        assert((c & 1 == 0 && c & 2 == 0 && c & 4 == 0 && c & 8 == 0) == (c & 15 == 0)) by (bit_vector);
        assert(fen@ =~= fc + castle_text(c));
    }
}

impl Position {
    /// Writes the position as a FEN record.
    pub fn to_fen(&self) -> (fen: String)
        requires
            self.ep_square <= 64,
        ensures
            fen@ == fen_text(self@),
    {
        let mut fen = String::new();
        push_board_text(self, &mut fen);
        let ghost fb = fen@;
        push_char(&mut fen, ' ');
        push_char(&mut fen, if self.side == Color::White { 'w' } else { 'b' });
        push_char(&mut fen, ' ');
        push_castle_text(&mut fen, self.castling);
        let ghost fe = fen@;
        push_char(&mut fen, ' ');
        if self.ep_square == squares::NONE {
            push_char(&mut fen, '-');
        } else {
            push_char(&mut fen, file_char(file_of(self.ep_square)));
            push_char(&mut fen, rank_char(rank_of(self.ep_square)));
        }
        let ghost fh = fen@;
        push_char(&mut fen, ' ');
        push_dec(&mut fen, self.halfmove_clock as u32);
        push_char(&mut fen, ' ');
        push_dec(&mut fen, self.fullmove as u32);
        proof {
            let ep_t = if self.ep_square == 64 { seq!['-'] } else { super::types::sq_name_spec(self.ep_square as int) };
            assert(fh =~= fe + seq![' '] + ep_t);
            assert(fen@ =~= fen_text(self@));
        }
        fen
    }
}

} // verus!
