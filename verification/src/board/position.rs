//! The position: piece bitboards, a mailbox, side to move, castling
//! rights, en-passant square, clocks, Zobrist hashes and the undo history.
use vstd::prelude::*;
use super::attacks::{
    bishop_attacks, king_attacks, knight_attacks, pawn_attacks, rook_attacks, knight_att, king_att,
    pawn_att, rook_spec, bishop_spec,
};
use super::bitboard::{Bitboard, sq_in, bit, bit_spec, lsb, lsb_spec, lemma_lsb, group_bb, lemma_bb_ext};
use super::moves::{Move, FLAG_QUIET, FLAG_DOUBLE_PUSH, FLAG_CASTLE_KS, FLAG_CASTLE_QS, FLAG_CAPTURE, FLAG_EP};
use super::types::{
    Color, Piece, Square, color_of_idx, piece_of_idx, file_of, squares, CASTLE_WK, CASTLE_WQ,
    CASTLE_BK, CASTLE_BQ,
};
use super::zobrist::{
    piece_key, castling_key, ep_key, side_key, piece_key_spec, castling_key_spec, ep_key_spec,
    side_key_spec,
};

verus! {

/// History state for unmake_move.
#[derive(Clone, Copy)]
pub struct Irreversible {
    pub castling: u8,
    pub ep_square: u32,  // squares::NONE if absent
    pub halfmove_clock: u8,
    pub zobrist: u64,
    pub captured_piece: Option<Piece>,
}

pub struct Position {
    /// [color][piece] bitboards
    pub pieces: [[Bitboard; 6]; 2],
    pub occupancy: [Bitboard; 2],
    pub all: Bitboard,
    pub side: Color,
    pub castling: u8,
    pub ep_square: u32,  // squares::NONE if absent
    pub halfmove_clock: u8,
    pub fullmove: u16,
    pub zobrist: u64,
    pub pawn_zobrist: u64,
    /// Piece on each square, encoded as color << 3 | piece, or 0xFF for empty.
    pub mailbox: [u8; 64],
    pub history: Vec<Irreversible>,
}

pub const EMPTY_MAILBOX: u8 = 0xFF;

/// The mailbox byte of a piece.
pub open spec fn code_of(c: Color, p: Piece) -> u8 {
    (c.idx() * 8 + p.idx()) as u8
}

/// The piece a mailbox byte stands for.
pub open spec fn decode(raw: u8) -> Option<(Color, Piece)> {
    if raw == 0xFF || raw % 8 >= 6 {
        None
    } else {
        Some((if raw / 8 == 0 { Color::White } else { Color::Black }, piece_of_idx((raw % 8) as int)))
    }
}

pub open spec fn valid_code(raw: u8) -> bool {
    raw == 0xFF || (raw < 16 && raw % 8 < 6)
}

/// The key contributed by the content of square `s`.
pub open spec fn sq_key(raw: u8, s: int) -> u64 {
    match decode(raw) {
        None => 0,
        Some((c, p)) => piece_key_spec(c, p, s),
    }
}

/// The key contributed to the pawn hash (pawns and kings only).
pub open spec fn pawn_sq_key(raw: u8, s: int) -> u64 {
    match decode(raw) {
        Some((c, p)) => if p == Piece::Pawn || p == Piece::King {
            piece_key_spec(c, p, s)
        } else {
            0
        },
        None => 0,
    }
}

/// XOR of the keys of the pieces on the first `n` squares.
#[verifier::opaque]
pub open spec fn board_hash(mb: Seq<u8>, n: nat) -> u64
    decreases n,
{
    if n == 0 {
        0
    } else {
        board_hash(mb, (n - 1) as nat) ^ sq_key(mb[n - 1], n - 1)
    }
}

/// XOR of the keys of the pawns and kings on the first `n` squares.
#[verifier::opaque]
pub open spec fn pawn_hash(mb: Seq<u8>, n: nat) -> u64
    decreases n,
{
    if n == 0 {
        0
    } else {
        pawn_hash(mb, (n - 1) as nat) ^ pawn_sq_key(mb[n - 1], n - 1)
    }
}

/// The hash of a board with the given castling rights, en-passant square
/// and side to move.
pub open spec fn hash_parts(mb: Seq<u8>, castling: u8, ep: u32, side: Color) -> u64 {
    board_hash(mb, 64) ^ castling_key_spec(castling as int) ^ (if ep != 64 {
        ep_key_spec(ep as int % 8)
    } else {
        0u64
    }) ^ (if side == Color::Black {
        side_key_spec()
    } else {
        0u64
    })
}

/// The abstract content of a position: everything but the derived
/// bitboards and pawn hash.
pub struct PosView {
    pub mailbox: Seq<u8>,
    pub side: Color,
    pub castling: u8,
    pub ep_square: u32,
    pub halfmove_clock: u8,
    pub fullmove: u16,
    pub zobrist: u64,
    pub history: Seq<Irreversible>,
}

impl PosView {
    pub open spec fn at(self, s: int) -> Option<(Color, Piece)> {
        decode(self.mailbox[s])
    }

    /// The hash of a position computed from scratch.
    pub open spec fn full_hash(self) -> u64 {
        hash_parts(self.mailbox, self.castling, self.ep_square, self.side)
    }

    /// Consistency of the abstract content: valid bytes, castling rights and
    /// en-passant square in range, and the hash equal to the one computed
    /// from scratch.
    pub open spec fn wf(self) -> bool {
        &&& self.mailbox.len() == 64
        &&& forall|s: int| 0 <= s < 64 ==> #[trigger] valid_code(self.mailbox[s])
        &&& self.castling < 16
        &&& self.ep_square <= 64
        &&& self.zobrist == self.full_hash()
    }
}

impl View for Position {
    type V = PosView;

    open spec fn view(&self) -> PosView {
        PosView {
            mailbox: self.mailbox@,
            side: self.side,
            castling: self.castling,
            ep_square: self.ep_square,
            halfmove_clock: self.halfmove_clock,
            fullmove: self.fullmove,
            zobrist: self.zobrist,
            history: self.history@,
        }
    }
}

impl Position {
    pub open spec fn at(&self, s: int) -> Option<(Color, Piece)> {
        decode(self.mailbox[s])
    }

    /// The bitboards agree with the mailbox.
    pub open spec fn wf_board(&self) -> bool {
        &&& forall|s: int| 0 <= s < 64 ==> #[trigger] valid_code(self.mailbox[s])
        &&& forall|c: int, p: int, s: int|
            0 <= c < 2 && 0 <= p < 6 ==> #[trigger] sq_in(self.pieces[c][p], s) == (0 <= s < 64
                && self.at(s) == Some((color_of_idx(c), piece_of_idx(p))))
        &&& forall|c: int, s: int|
            0 <= c < 2 ==> #[trigger] sq_in(self.occupancy[c], s) == (0 <= s < 64 && self.at(s)
                is Some && self.at(s).unwrap().0 == color_of_idx(c))
        &&& forall|s: int| #[trigger] sq_in(self.all, s) == (0 <= s < 64 && self.at(s) is Some)
    }

    /// Full consistency: bitboards, abstract content and pawn hash.
    pub open spec fn wf(&self) -> bool {
        &&& self.wf_board()
        &&& self@.wf()
        &&& self.pawn_zobrist == pawn_hash(self.mailbox@, 64)
    }
}

/// A mailbox byte splits into its color (high bits) and piece (low three bits).
pub proof fn lemma_byte_split(raw: u8)
    ensures
        raw >> 3u8 == raw / 8,
        raw & 7 == raw % 8,
{
    assert(raw >> 3u8 == raw / 8 && raw & 7 == raw % 8) by (bit_vector);
}

/// The low two bits of a move's flags.
pub proof fn lemma_low_bits(flags: u16)
    ensures
        flags & 3 == flags % 4,
{
    assert(flags & 3 == flags % 4) by (bit_vector);
}

pub proof fn lemma_xor_facts(a: u64, b: u64, c: u64)
    ensures
        (a ^ b) ^ c == a ^ (b ^ c),
        a ^ b == b ^ a,
        a ^ 0 == a,
        a ^ a == 0,
{
    assert((a ^ b) ^ c == a ^ (b ^ c) && a ^ b == b ^ a && a ^ 0 == a && a ^ a == 0) by (bit_vector);
}

/// Changing the byte of one square changes the board hash by the keys of
/// the old and the new content.
pub proof fn lemma_board_hash_update(mb: Seq<u8>, s: int, v: u8, n: nat)
    requires
        0 <= s < mb.len(),
        n <= mb.len(),
    ensures
        board_hash(mb.update(s, v), n) == if s < n {
            board_hash(mb, n) ^ sq_key(mb[s], s) ^ sq_key(v, s)
        } else {
            board_hash(mb, n)
        },
        pawn_hash(mb.update(s, v), n) == if s < n {
            pawn_hash(mb, n) ^ pawn_sq_key(mb[s], s) ^ pawn_sq_key(v, s)
        } else {
            pawn_hash(mb, n)
        },
    decreases n,
{
    reveal(board_hash);
    reveal(pawn_hash);
    if n > 0 {
        lemma_board_hash_update(mb, s, v, (n - 1) as nat);
        let m = (n - 1) as int;
        let h = board_hash(mb, (n - 1) as nat);
        let ph = pawn_hash(mb, (n - 1) as nat);
        if s < m {
            lemma_xor_facts(h ^ sq_key(mb[s], s), sq_key(v, s), sq_key(mb[m], m));
            lemma_xor_facts(h, sq_key(mb[s], s), sq_key(mb[m], m));
            lemma_xor_facts(h ^ sq_key(mb[m], m), sq_key(mb[s], s), sq_key(v, s));
            lemma_xor_facts(h, sq_key(mb[m], m), sq_key(mb[s], s));
            lemma_xor_facts(sq_key(mb[m], m), sq_key(mb[s], s), 0);
            lemma_xor_facts(h, sq_key(mb[s], s) ^ sq_key(mb[m], m), sq_key(v, s));
            lemma_xor_facts(h, sq_key(mb[m], m) ^ sq_key(mb[s], s), sq_key(v, s));
            lemma_xor_facts(h ^ sq_key(mb[s], s), sq_key(mb[m], m), sq_key(v, s));
            lemma_xor_facts(sq_key(mb[m], m), sq_key(v, s), 0);
            lemma_xor_facts(ph ^ pawn_sq_key(mb[s], s), pawn_sq_key(v, s), pawn_sq_key(mb[m], m));
            lemma_xor_facts(ph, pawn_sq_key(mb[s], s), pawn_sq_key(mb[m], m));
            lemma_xor_facts(ph ^ pawn_sq_key(mb[m], m), pawn_sq_key(mb[s], s), pawn_sq_key(v, s));
            lemma_xor_facts(ph, pawn_sq_key(mb[m], m), pawn_sq_key(mb[s], s));
            lemma_xor_facts(pawn_sq_key(mb[m], m), pawn_sq_key(mb[s], s), 0);
            lemma_xor_facts(ph, pawn_sq_key(mb[s], s) ^ pawn_sq_key(mb[m], m), pawn_sq_key(v, s));
            lemma_xor_facts(ph, pawn_sq_key(mb[m], m) ^ pawn_sq_key(mb[s], s), pawn_sq_key(v, s));
            lemma_xor_facts(ph ^ pawn_sq_key(mb[s], s), pawn_sq_key(mb[m], m), pawn_sq_key(v, s));
            lemma_xor_facts(pawn_sq_key(mb[m], m), pawn_sq_key(v, s), 0);
        } else if s == m {
            lemma_xor_facts(h, sq_key(mb[s], s), sq_key(mb[s], s));
            lemma_xor_facts(sq_key(mb[s], s), sq_key(mb[s], s), 0);
            lemma_xor_facts(h, 0, 0);
            lemma_xor_facts(h ^ sq_key(mb[s], s), sq_key(mb[s], s), sq_key(v, s));
            lemma_xor_facts(h, sq_key(mb[s], s) ^ sq_key(mb[s], s), sq_key(v, s));
            lemma_xor_facts(ph, pawn_sq_key(mb[s], s), pawn_sq_key(mb[s], s));
            lemma_xor_facts(pawn_sq_key(mb[s], s), pawn_sq_key(mb[s], s), 0);
            lemma_xor_facts(ph, 0, 0);
            lemma_xor_facts(ph ^ pawn_sq_key(mb[s], s), pawn_sq_key(mb[s], s), pawn_sq_key(v, s));
            lemma_xor_facts(ph, pawn_sq_key(mb[s], s) ^ pawn_sq_key(mb[s], s), pawn_sq_key(v, s));
        }
    }
}

} // verus!

verus! {

pub proof fn lemma_code_decode(c: Color, p: Piece)
    ensures
        decode(code_of(c, p)) == Some((c, p)),
        valid_code(code_of(c, p)),
        code_of(c, p) != 0xFF,
{
}

/// A bitboard is nonzero exactly when it holds a square.
pub proof fn lemma_nonzero(x: u64)
    ensures
        (x != 0) == (exists|t: int| 0 <= t < 64 && #[trigger] sq_in(x, t)),
{
    broadcast use group_bb;
    if x != 0 {
        lemma_lsb(x);
        assert(sq_in(x, lsb_spec(x) as int));
    } else {
        if exists|t: int| 0 <= t < 64 && #[trigger] sq_in(x, t) {
            let t = choose|t: int| 0 <= t < 64 && #[trigger] sq_in(x, t);
            assert(!sq_in(0u64, t));
        }
    }
}

/// Square `sq` is attacked by a piece of color `c`, judged on the bitboards.
pub open spec fn attacked_spec(pos: &Position, sq: int, c: Color) -> bool {
    let ci = c.idx();
    exists|t: int|
        0 <= t < 64 && #[trigger] sq_in(pos.occupancy[ci], t) && {
            ||| sq_in(pos.pieces[ci][0], t) && pawn_att(sq, c.opp(), t)
            ||| sq_in(pos.pieces[ci][1], t) && knight_att(sq, t)
            ||| sq_in(pos.pieces[ci][5], t) && king_att(sq, t)
            ||| (sq_in(pos.pieces[ci][2], t) || sq_in(pos.pieces[ci][4], t)) && sq_in(
                bishop_spec(sq, pos.all),
                t,
            )
            ||| (sq_in(pos.pieces[ci][3], t) || sq_in(pos.pieces[ci][4], t)) && sq_in(
                rook_spec(sq, pos.all),
                t,
            )
        }
}

impl Position {
    pub fn new() -> (p: Self)
        ensures
            p.wf_board(),
            p.pawn_zobrist == pawn_hash(p.mailbox@, 64),
            p.side == Color::White,
            p.castling == 0,
            p.ep_square == 64,
            p.halfmove_clock == 0,
            p.fullmove == 1,
            p.history@.len() == 0,
            forall|s: int| 0 <= s < 64 ==> #[trigger] p.at(s) is None,
            p.zobrist == board_hash(p.mailbox@, 64),
    {
        broadcast use group_bb;
        let p = Position {
            pieces: [[0; 6]; 2],
            occupancy: [0; 2],
            all: 0,
            side: Color::White,
            castling: 0,
            ep_square: squares::NONE,
            halfmove_clock: 0,
            fullmove: 1,
            zobrist: 0,
            pawn_zobrist: 0,
            mailbox: [EMPTY_MAILBOX; 64],
            history: Vec::with_capacity(512),
        };
        proof {
            lemma_empty_hash(p.mailbox@, 64);
        }
        p
    }

    /// Place a piece on an empty square, updating all data structures.
    pub(crate) fn place_piece(&mut self, color: Color, piece: Piece, sq: Square)
        requires
            old(self).wf_board(),
            sq < 64,
            old(self).at(sq as int) is None,
        ensures
            final(self).wf_board(),
            final(self).mailbox@ == old(self).mailbox@.update(sq as int, code_of(color, piece)),
            final(self).zobrist ^ board_hash(final(self).mailbox@, 64) == old(self).zobrist
                ^ board_hash(old(self).mailbox@, 64),
            final(self).pawn_zobrist ^ pawn_hash(final(self).mailbox@, 64) == old(self).pawn_zobrist
                ^ pawn_hash(old(self).mailbox@, 64),
            final(self).side == old(self).side,
            final(self).castling == old(self).castling,
            final(self).ep_square == old(self).ep_square,
            final(self).halfmove_clock == old(self).halfmove_clock,
            final(self).fullmove == old(self).fullmove,
            final(self).history == old(self).history,
    {
        broadcast use group_bb;
        let ghost old_mb = self.mailbox@;
        let bb = bit(sq);
        let ci = color.index();
        let pi = piece.index();
        self.pieces[ci][pi] = self.pieces[ci][pi] | bb;
        self.occupancy[ci] = self.occupancy[ci] | bb;
        self.all = self.all | bb;
        let code = ((ci as u8) << 3u8) | (pi as u8);
        assert(code == code_of(color, piece)) by {
            let c8 = ci as u8;
            let p8 = pi as u8;
            assert(c8 < 2 && p8 < 6 ==> (c8 << 3u8) | p8 == c8 * 8 + p8) by (bit_vector);
        }
        self.mailbox[sq as usize] = code;
        let k = piece_key(color, piece, sq);
        self.zobrist ^= k;
        if piece == Piece::Pawn || piece == Piece::King {
            self.pawn_zobrist ^= k;
        }
        proof {
            lemma_code_decode(color, piece);
            lemma_board_hash_update(old_mb, sq as int, code, 64);
            let h = board_hash(old_mb, 64);
            let ph = pawn_hash(old_mb, 64);
            let z = old(self).zobrist;
            let pz = old(self).pawn_zobrist;
            lemma_xor_facts(z, k, h ^ 0 ^ k);
            lemma_xor_facts(h, 0, k);
            lemma_xor_facts(h, 0, 0);
            lemma_xor_facts(k, h, k);
            lemma_xor_facts(h, k, k);
            lemma_xor_facts(k, 0, 0);
            lemma_xor_facts(z, h, 0);
            let pk = pawn_sq_key(code, sq as int);
            lemma_xor_facts(ph, 0, pk);
            lemma_xor_facts(ph, 0, 0);
            lemma_xor_facts(pz, pk, ph ^ pk);
            lemma_xor_facts(pk, ph, pk);
            lemma_xor_facts(ph, pk, pk);
            lemma_xor_facts(pz, ph, 0);
            lemma_xor_facts(pz, 0, ph);
            assert forall|s: int| 0 <= s < 64 implies #[trigger] valid_code(self.mailbox[s]) by {
                if s != sq {
                    assert(self.mailbox[s] == old(self).mailbox[s]);
                }
            }
        }
    }

    /// Remove a piece from the board.
    fn remove_piece(&mut self, color: Color, piece: Piece, sq: Square)
        requires
            old(self).wf_board(),
            sq < 64,
            old(self).at(sq as int) == Some((color, piece)),
        ensures
            final(self).wf_board(),
            final(self).mailbox@ == old(self).mailbox@.update(sq as int, EMPTY_MAILBOX),
            final(self).zobrist ^ board_hash(final(self).mailbox@, 64) == old(self).zobrist
                ^ board_hash(old(self).mailbox@, 64),
            final(self).pawn_zobrist ^ pawn_hash(final(self).mailbox@, 64) == old(self).pawn_zobrist
                ^ pawn_hash(old(self).mailbox@, 64),
            final(self).side == old(self).side,
            final(self).castling == old(self).castling,
            final(self).ep_square == old(self).ep_square,
            final(self).halfmove_clock == old(self).halfmove_clock,
            final(self).fullmove == old(self).fullmove,
            final(self).history == old(self).history,
    {
        broadcast use group_bb;
        let ghost old_mb = self.mailbox@;
        let bb = bit(sq);
        let ci = color.index();
        let pi = piece.index();
        self.pieces[ci][pi] = self.pieces[ci][pi] ^ bb;
        self.occupancy[ci] = self.occupancy[ci] ^ bb;
        self.all = self.all ^ bb;
        self.mailbox[sq as usize] = EMPTY_MAILBOX;
        let k = piece_key(color, piece, sq);
        self.zobrist ^= k;
        if piece == Piece::Pawn || piece == Piece::King {
            self.pawn_zobrist ^= k;
        }
        proof {
            lemma_board_hash_update(old_mb, sq as int, EMPTY_MAILBOX, 64);
            assert(sq_key(old_mb[sq as int], sq as int) == k);
            let h = board_hash(old_mb, 64);
            let ph = pawn_hash(old_mb, 64);
            let z = old(self).zobrist;
            let pz = old(self).pawn_zobrist;
            lemma_xor_facts(h, k, 0);
            lemma_xor_facts(z, k, h ^ k);
            lemma_xor_facts(k, h, k);
            lemma_xor_facts(h, k, k);
            lemma_xor_facts(k, 0, 0);
            lemma_xor_facts(z, h, 0);
            let pk = pawn_sq_key(old_mb[sq as int], sq as int);
            lemma_xor_facts(ph, pk, 0);
            lemma_xor_facts(pz, pk, ph ^ pk);
            lemma_xor_facts(pk, ph, pk);
            lemma_xor_facts(ph, pk, pk);
            lemma_xor_facts(pz, ph, 0);
            lemma_xor_facts(pz, 0, ph);
            assert forall|s: int| 0 <= s < 64 implies #[trigger] valid_code(self.mailbox[s]) by {
                if s != sq {
                    assert(self.mailbox[s] == old(self).mailbox[s]);
                }
            }
        }
    }

    fn move_piece(&mut self, color: Color, piece: Piece, from: Square, to: Square)
        requires
            old(self).wf_board(),
            from < 64,
            to < 64,
            old(self).at(from as int) == Some((color, piece)),
            old(self).at(to as int) is None,
        ensures
            final(self).wf_board(),
            final(self).mailbox@ == old(self).mailbox@.update(from as int, EMPTY_MAILBOX).update(
                to as int,
                code_of(color, piece),
            ),
            final(self).zobrist ^ board_hash(final(self).mailbox@, 64) == old(self).zobrist
                ^ board_hash(old(self).mailbox@, 64),
            final(self).pawn_zobrist ^ pawn_hash(final(self).mailbox@, 64) == old(self).pawn_zobrist
                ^ pawn_hash(old(self).mailbox@, 64),
            final(self).side == old(self).side,
            final(self).castling == old(self).castling,
            final(self).ep_square == old(self).ep_square,
            final(self).halfmove_clock == old(self).halfmove_clock,
            final(self).fullmove == old(self).fullmove,
            final(self).history == old(self).history,
    {
        self.remove_piece(color, piece, from);
        self.place_piece(color, piece, to);
    }

    pub fn piece_at(&self, sq: Square) -> (r: Option<(Color, Piece)>)
        requires
            sq < 64,
        ensures
            r == self.at(sq as int),
    {
        let raw = self.mailbox[sq as usize];
        if raw == EMPTY_MAILBOX {
            return None;
        }
        proof {
            lemma_byte_split(raw);
        }
        let color = if raw >> 3 == 0 { Color::White } else { Color::Black };
        let piece = Piece::from_u8(raw & 7)?;
        Some((color, piece))
    }

    pub fn king_sq(&self, color: Color) -> (r: Square)
        requires
            self.wf_board(),
        ensures
            r == lsb_spec(self.pieces[color.idx()][5]),
            (exists|s: int| 0 <= s < 64 && self.at(s) == Some((color, Piece::King))) ==> r < 64
                && self.at(r as int) == Some((color, Piece::King)),
    {
        broadcast use group_bb;
        let r = lsb(self.pieces[color.index()][Piece::King.index()]);
        proof {
            if exists|s: int| 0 <= s < 64 && self.at(s) == Some((color, Piece::King)) {
                let s = choose|s: int| 0 <= s < 64 && self.at(s) == Some((color, Piece::King));
                assert(sq_in(self.pieces[color.idx()][5], s));
            }
        }
        r
    }

    /// Is `sq` attacked by `attacker`?
    pub fn is_attacked(&self, sq: Square, attacker: Color) -> (r: bool)
        requires
            self.wf_board(),
            sq < 64,
        ensures
            r == attacked_spec(self, sq as int, attacker),
    {
        broadcast use group_bb;
        let ai = attacker.index();
        let occ = self.all;
        let a = pawn_attacks(sq, attacker.flip().index()) & self.pieces[ai][0];
        let b = knight_attacks(sq) & self.pieces[ai][1];
        let c = king_attacks(sq) & self.pieces[ai][5];
        let d = bishop_attacks(sq, occ) & (self.pieces[ai][2] | self.pieces[ai][4]);
        let e = rook_attacks(sq, occ) & (self.pieces[ai][3] | self.pieces[ai][4]);
        proof {
            lemma_nonzero(a);
            lemma_nonzero(b);
            lemma_nonzero(c);
            lemma_nonzero(d);
            lemma_nonzero(e);
            let ci = attacker.idx();
            assert forall|t: int, p: int| 0 <= p < 6 && #[trigger] sq_in(self.pieces[ci][p], t)
                implies sq_in(self.occupancy[ci], t) by {
                assert(self.at(t) == Some((color_of_idx(ci), piece_of_idx(p))));
            }
            assert(attacker.opp() == (if attacker.opp().idx() == 0 { Color::White } else { Color::Black }));
            assert forall|t: int| 0 <= t < 64 implies
                (sq_in(a, t) == (sq_in(self.pieces[ci][0], t) && pawn_att(sq as int, attacker.opp(), t)))
                && (sq_in(b, t) == (sq_in(self.pieces[ci][1], t) && knight_att(sq as int, t)))
                && (sq_in(c, t) == (sq_in(self.pieces[ci][5], t) && king_att(sq as int, t)))
                && (sq_in(d, t) == ((sq_in(self.pieces[ci][2], t) || sq_in(self.pieces[ci][4], t)) && sq_in(bishop_spec(sq as int, occ), t)))
                && (sq_in(e, t) == ((sq_in(self.pieces[ci][3], t) || sq_in(self.pieces[ci][4], t)) && sq_in(rook_spec(sq as int, occ), t))) by {
            }
        }
        if a != 0 {
            return true;
        }
        if b != 0 {
            return true;
        }
        if c != 0 {
            return true;
        }
        if d != 0 {
            return true;
        }
        if e != 0 {
            return true;
        }
        proof {
            if attacked_spec(self, sq as int, attacker) {
                let ci = attacker.idx();
                let t = choose|t: int|
                    0 <= t < 64 && #[trigger] sq_in(self.occupancy[ci], t) && {
                        ||| sq_in(self.pieces[ci][0], t) && pawn_att(sq as int, attacker.opp(), t)
                        ||| sq_in(self.pieces[ci][1], t) && knight_att(sq as int, t)
                        ||| sq_in(self.pieces[ci][5], t) && king_att(sq as int, t)
                        ||| (sq_in(self.pieces[ci][2], t) || sq_in(self.pieces[ci][4], t)) && sq_in(
                            bishop_spec(sq as int, self.all),
                            t,
                        )
                        ||| (sq_in(self.pieces[ci][3], t) || sq_in(self.pieces[ci][4], t)) && sq_in(
                            rook_spec(sq as int, self.all),
                            t,
                        )
                    };
                assert(sq_in(a, t) || sq_in(b, t) || sq_in(c, t) || sq_in(d, t) || sq_in(e, t));
            }
        }
        false
    }

    pub fn in_check(&self) -> (r: bool)
        requires
            self.wf_board(),
            exists|s: int| 0 <= s < 64 && self.at(s) == Some((self.side, Piece::King)),
        ensures
            r == attacked_spec(self, lsb_spec(self.pieces[self.side.idx()][5]) as int, self.side.opp()),
    {
        let ksq = self.king_sq(self.side);
        self.is_attacked(ksq, self.side.flip())
    }
}

/// The hash of an empty board is zero.
pub proof fn lemma_empty_hash(mb: Seq<u8>, n: nat)
    requires
        n <= mb.len(),
        forall|s: int| 0 <= s < n ==> mb[s] == 0xFF,
    ensures
        board_hash(mb, n) == 0,
        pawn_hash(mb, n) == 0,
    decreases n,
{
    reveal(board_hash);
    reveal(pawn_hash);
    if n > 0 {
        lemma_empty_hash(mb, (n - 1) as nat);
        lemma_xor_facts(0, 0, 0);
    }
}

} // verus!

verus! {

/// Castling rights kept when a piece moves from or to `sq`.
pub open spec fn crm_spec(sq: int) -> u8 {
    if sq == 4 {
        0xFC
    } else if sq == 7 {
        0xFE
    } else if sq == 0 {
        0xFD
    } else if sq == 60 {
        0xF3
    } else if sq == 63 {
        0xFB
    } else if sq == 56 {
        0xF7
    } else {
        0xFF
    }
}

/// Castling rights mask per square: if king or rook moves from/to this
/// square, the rights that it guards are revoked.
pub fn castling_rights_mask(sq: Square) -> (m: u8)
    ensures
        m == crm_spec(sq as int),
{
    assert(0xFFu8 & !(1u8 | 2u8) == 0xFCu8 && 0xFFu8 & !1u8 == 0xFEu8 && 0xFFu8 & !2u8 == 0xFDu8
        && 0xFFu8 & !(4u8 | 8u8) == 0xF3u8 && 0xFFu8 & !4u8 == 0xFBu8 && 0xFFu8 & !8u8 == 0xF7u8) by (bit_vector);
    if sq == squares::E1 {
        0xFF & !(CASTLE_WK | CASTLE_WQ)
    } else if sq == squares::H1 {
        0xFF & !CASTLE_WK
    } else if sq == squares::A1 {
        0xFF & !CASTLE_WQ
    } else if sq == squares::E8 {
        0xFF & !(CASTLE_BK | CASTLE_BQ)
    } else if sq == squares::H8 {
        0xFF & !CASTLE_BK
    } else if sq == squares::A8 {
        0xFF & !CASTLE_BQ
    } else {
        0xFF
    }
}

/// Bits of a rights byte after masking, and the bits of each mask.
proof fn lemma_rights_bits(c: u8, x: u8, y: u8)
    ensures
        (c & (x & y)) & 1u8 == (if x & 1u8 == 0 || y & 1u8 == 0 { 0u8 } else { c & 1u8 }),
        (c & (x & y)) & 2u8 == (if x & 2u8 == 0 || y & 2u8 == 0 { 0u8 } else { c & 2u8 }),
        (c & (x & y)) & 4u8 == (if x & 4u8 == 0 || y & 4u8 == 0 { 0u8 } else { c & 4u8 }),
        (c & (x & y)) & 8u8 == (if x & 8u8 == 0 || y & 8u8 == 0 { 0u8 } else { c & 8u8 }),
        0xFCu8 & 1u8 == 0u8,
        0xFCu8 & 2u8 == 0u8,
        0xFCu8 & 4u8 == 4u8,
        0xFCu8 & 8u8 == 8u8,
        0xFEu8 & 1u8 == 0u8,
        0xFEu8 & 2u8 == 2u8,
        0xFEu8 & 4u8 == 4u8,
        0xFEu8 & 8u8 == 8u8,
        0xFDu8 & 1u8 == 1u8,
        0xFDu8 & 2u8 == 0u8,
        0xFDu8 & 4u8 == 4u8,
        0xFDu8 & 8u8 == 8u8,
        0xF3u8 & 1u8 == 1u8,
        0xF3u8 & 2u8 == 2u8,
        0xF3u8 & 4u8 == 0u8,
        0xF3u8 & 8u8 == 0u8,
        0xFBu8 & 1u8 == 1u8,
        0xFBu8 & 2u8 == 2u8,
        0xFBu8 & 4u8 == 0u8,
        0xFBu8 & 8u8 == 8u8,
        0xF7u8 & 1u8 == 1u8,
        0xF7u8 & 2u8 == 2u8,
        0xF7u8 & 4u8 == 4u8,
        0xF7u8 & 8u8 == 0u8,
        0xFFu8 & 1u8 == 1u8,
        0xFFu8 & 2u8 == 2u8,
        0xFFu8 & 4u8 == 4u8,
        0xFFu8 & 8u8 == 8u8,
{
    assert((c & (x & y)) & 1u8 == (if x & 1u8 == 0 || y & 1u8 == 0 { 0u8 } else { c & 1u8 })
        && (c & (x & y)) & 2u8 == (if x & 2u8 == 0 || y & 2u8 == 0 { 0u8 } else { c & 2u8 })
        && (c & (x & y)) & 4u8 == (if x & 4u8 == 0 || y & 4u8 == 0 { 0u8 } else { c & 4u8 })
        && (c & (x & y)) & 8u8 == (if x & 8u8 == 0 || y & 8u8 == 0 { 0u8 } else { c & 8u8 })
        && 0xFCu8 & 1u8 == 0u8
        && 0xFCu8 & 2u8 == 0u8
        && 0xFCu8 & 4u8 == 4u8
        && 0xFCu8 & 8u8 == 8u8
        && 0xFEu8 & 1u8 == 0u8
        && 0xFEu8 & 2u8 == 2u8
        && 0xFEu8 & 4u8 == 4u8
        && 0xFEu8 & 8u8 == 8u8
        && 0xFDu8 & 1u8 == 1u8
        && 0xFDu8 & 2u8 == 0u8
        && 0xFDu8 & 4u8 == 4u8
        && 0xFDu8 & 8u8 == 8u8
        && 0xF3u8 & 1u8 == 1u8
        && 0xF3u8 & 2u8 == 2u8
        && 0xF3u8 & 4u8 == 0u8
        && 0xF3u8 & 8u8 == 0u8
        && 0xFBu8 & 1u8 == 1u8
        && 0xFBu8 & 2u8 == 2u8
        && 0xFBu8 & 4u8 == 0u8
        && 0xFBu8 & 8u8 == 8u8
        && 0xF7u8 & 1u8 == 1u8
        && 0xF7u8 & 2u8 == 2u8
        && 0xF7u8 & 4u8 == 4u8
        && 0xF7u8 & 8u8 == 0u8
        && 0xFFu8 & 1u8 == 1u8
        && 0xFFu8 & 2u8 == 2u8
        && 0xFFu8 & 4u8 == 4u8
        && 0xFFu8 & 8u8 == 8u8) by (bit_vector);
}

/// Which castling rights a move removes: White's kingside right (bit 1)
/// goes exactly when the move leaves or lands on e1 or h1, White's
/// queenside right (bit 2) on e1 or a1, Black's kingside right (bit 4) on
/// e8 or h8, Black's queenside right (bit 8) on e8 or a8; every other
/// right is kept.
pub proof fn lemma_move_castling_rights(v: PosView, m: Move)
    ensures
        ({
            let c = v.make_view(m).castling;
            let f = m.from_spec();
            let t = m.to_spec();
            &&& c & 1 == (if f == 4 || t == 4 || f == 7 || t == 7 { 0u8 } else { v.castling & 1 })
            &&& c & 2 == (if f == 4 || t == 4 || f == 0 || t == 0 { 0u8 } else { v.castling & 2 })
            &&& c & 4 == (if f == 60 || t == 60 || f == 63 || t == 63 { 0u8 } else { v.castling & 4 })
            &&& c & 8 == (if f == 60 || t == 60 || f == 56 || t == 56 { 0u8 } else { v.castling & 8 })
        }),
{
    lemma_rights_bits(v.castling, crm_spec(m.from_spec()), crm_spec(m.to_spec()));
}

/// The piece a promotion flag promotes to.
pub open spec fn promo_of(flags: int) -> Piece {
    piece_of_idx(flags % 4 + 1)
}

/// The squares the rook moves from and to in a castling move.
pub open spec fn castle_rook(us: Color, kingside: bool) -> (int, int) {
    if kingside {
        if us == Color::White { (7, 5) } else { (63, 61) }
    } else {
        if us == Color::White { (0, 3) } else { (56, 59) }
    }
}

/// The square of the pawn taken en passant by a pawn landing on `to`.
pub open spec fn ep_victim(us: Color, to: int) -> int {
    if us == Color::White { to - 8 } else { to + 8 }
}

impl PosView {
    /// The move can be made on this position: the mover is ours, the target
    /// fits the flag, the squares a castling or en-passant capture touches hold
    /// what they must, and the clocks do not overflow.
    pub open spec fn move_ok(self, mv: Move) -> bool {
        let from = mv.from_spec();
        let to = mv.to_spec();
        let fl = mv.flags_spec();
        let us = self.side;
        let them = us.opp();
        &&& self.at(from) is Some
        &&& self.at(from).unwrap().0 == us
        &&& self.halfmove_clock < 255
        &&& (them == Color::White ==> self.fullmove < 65535)
        &&& fl != 6 && fl != 7
        &&& (fl == 0 ==> self.at(to) is None)
        &&& (fl == 1 ==> self.at(from).unwrap().1 == Piece::Pawn && self.at(to) is None && (us
            == Color::White ==> to >= 8) && (us == Color::Black ==> to < 56))
        &&& (fl == 2 || fl == 3 ==> {
            let (rf, rt) = castle_rook(us, fl == 2);
            &&& self.at(from).unwrap().1 == Piece::King
            &&& self.at(to) is None
            &&& rf != to
            &&& rt != to
            &&& self.at(rf) == Some((us, Piece::Rook))
            &&& (rt == from || self.at(rt) is None)
        })
        &&& (fl == 4 ==> self.at(to) is Some && self.at(to).unwrap().0 == them)
        &&& (fl == 5 ==> {
            &&& self.at(from).unwrap().1 == Piece::Pawn
            &&& self.at(to) is None
            &&& (us == Color::White ==> to >= 8)
            &&& (us == Color::Black ==> to < 56)
            &&& self.at(ep_victim(us, to)) == Some((them, Piece::Pawn))
        })
        &&& (8 <= fl < 12 ==> self.at(from).unwrap().1 == Piece::Pawn && self.at(to) is None)
        &&& (12 <= fl ==> self.at(from).unwrap().1 == Piece::Pawn && self.at(to) is Some
            && self.at(to).unwrap().0 == them)
    }

    /// The board after the move.
    pub open spec fn mailbox_after(self, mv: Move) -> Seq<u8> {
        let from = mv.from_spec();
        let to = mv.to_spec();
        let fl = mv.flags_spec();
        let us = self.side;
        let mb = self.mailbox;
        let moving = self.at(from).unwrap().1;
        if fl == 2 || fl == 3 {
            let (rf, rt) = castle_rook(us, fl == 2);
            mb.update(from, EMPTY_MAILBOX).update(to, code_of(us, Piece::King)).update(
                rf,
                EMPTY_MAILBOX,
            ).update(rt, code_of(us, Piece::Rook))
        } else if fl == 5 {
            mb.update(ep_victim(us, to), EMPTY_MAILBOX).update(from, EMPTY_MAILBOX).update(
                to,
                code_of(us, Piece::Pawn),
            )
        } else if fl >= 8 {
            mb.update(from, EMPTY_MAILBOX).update(to, code_of(us, promo_of(fl)))
        } else {
            mb.update(from, EMPTY_MAILBOX).update(to, code_of(us, moving))
        }
    }

    /// The piece the move captures, if any.
    pub open spec fn captured_by(self, mv: Move) -> Option<Piece> {
        let fl = mv.flags_spec();
        if fl == 4 || fl >= 12 {
            Some(self.at(mv.to_spec()).unwrap().1)
        } else if fl == 5 {
            Some(Piece::Pawn)
        } else {
            None
        }
    }

    /// The position after making a move.
    pub open spec fn make_view(self, mv: Move) -> PosView {
        let from = mv.from_spec();
        let to = mv.to_spec();
        let fl = mv.flags_spec();
        let us = self.side;
        let them = us.opp();
        let moving = self.at(from).unwrap().1;
        let castling = self.castling & (crm_spec(from) & crm_spec(to));
        let ep = if fl == 1 { ep_victim(us, to) as u32 } else { 64u32 };
        let hm = if (fl == 0 && moving != Piece::Pawn) || fl == 2 || fl == 3 {
            (self.halfmove_clock + 1) as u8
        } else {
            0u8
        };
        let fm = if them == Color::White { (self.fullmove + 1) as u16 } else { self.fullmove };
        PosView {
            mailbox: self.mailbox_after(mv),
            side: them,
            castling,
            ep_square: ep,
            halfmove_clock: hm,
            fullmove: fm,
            zobrist: hash_parts(self.mailbox_after(mv), castling, ep, them),
            history: self.history.push(
                Irreversible {
                    castling: self.castling,
                    ep_square: self.ep_square,
                    halfmove_clock: self.halfmove_clock,
                    zobrist: self.zobrist,
                    captured_piece: self.captured_by(mv),
                },
            ),
        }
    }
}

proof fn lemma_xor_cancel(a: u64, b: u64, mb: Seq<u8>, c: u64)
    requires
        a ^ b == c ^ c,
    ensures
        a == b,
{
    assert(a ^ b == c ^ c ==> a == b) by (bit_vector);
}

/// Bookkeeping of the hash update in `make_move` after the pieces moved.
proof fn lemma_finish_hash(z0: u64, bh0: u64, c0: u64, e0: u64, s0: u64, zb: u64, bh1: u64, ze: u64, z2: u64, e1: u64, c1: u64, k: u64)
    requires
        z0 == bh0 ^ c0 ^ e0 ^ s0,
        zb ^ bh1 == z0 ^ bh0,
        ze == zb ^ e0,
        z2 == ze ^ c0 ^ e1,
    ensures
        z2 ^ c1 ^ k == bh1 ^ c1 ^ e1 ^ (s0 ^ k),
{
    assert(z0 == bh0 ^ c0 ^ e0 ^ s0 && zb ^ bh1 == z0 ^ bh0 && ze == zb ^ e0 && z2 == ze ^ c0 ^ e1
        ==> z2 ^ c1 ^ k == bh1 ^ c1 ^ e1 ^ (s0 ^ k)) by (bit_vector);
}

} // verus!

verus! {

impl Position {
    pub fn make_move(&mut self, mv: Move)
        requires
            old(self).wf(),
            old(self)@.move_ok(mv),
        ensures
            final(self).wf(),
            final(self)@ == old(self)@.make_view(mv),
    {
        let ghost v0 = self@;
        let irr = Irreversible {
            castling: self.castling,
            ep_square: self.ep_square,
            halfmove_clock: self.halfmove_clock,
            zobrist: self.zobrist,
            captured_piece: None,
        };
        let from = mv.from();
        let to = mv.to();
        let flags = mv.flags();
        let us = self.side;
        let them = us.flip();
        let (_, moving_piece) = self.piece_at(from).unwrap();

        // Move the pieces (the piece keys are updated as they move).
        let captured_piece = self.make_board(mv, from, to, flags, us, them, moving_piece);
        proof {
            lemma_xor_cancel(self.pawn_zobrist, pawn_hash(self.mailbox@, 64), v0.mailbox, pawn_hash(v0.mailbox, 64));
        }
        self.finish_move(mv, flags, to, us, them, captured_piece, irr, Ghost(v0));
    }

    /// The bookkeeping of `make_move` after the pieces have moved: the hash
    /// keys of the en-passant square, castling rights and side to move, the
    /// clocks and the history.
    #[verifier::rlimit(40)]
    fn finish_move(&mut self, mv: Move, flags: u16, to: u32, us: Color, them: Color, captured_piece: Option<Piece>, irr: Irreversible, Ghost(v0): Ghost<PosView>)
        requires
            v0.wf(),
            v0.move_ok(mv),
            flags == mv.flags_spec(),
            to == mv.to_spec(),
            us == v0.side,
            them == us.opp(),
            captured_piece == v0.captured_by(mv),
            irr == (Irreversible { castling: v0.castling, ep_square: v0.ep_square, halfmove_clock: v0.halfmove_clock, zobrist: v0.zobrist, captured_piece: None }),
            old(self).wf_board(),
            old(self).mailbox@ == v0.mailbox_after(mv),
            old(self).zobrist ^ board_hash(old(self).mailbox@, 64) == v0.zobrist ^ board_hash(v0.mailbox, 64),
            old(self).pawn_zobrist == pawn_hash(old(self).mailbox@, 64),
            old(self).halfmove_clock == v0.make_view(mv).halfmove_clock,
            old(self).side == v0.side,
            old(self).castling == v0.castling,
            old(self).ep_square == v0.ep_square,
            old(self).fullmove == v0.fullmove,
            old(self).history@ == v0.history,
        ensures
            final(self).wf(),
            final(self)@ == v0.make_view(mv),
    {
        proof { lemma_make_view_fields(v0, mv); }
        let ghost zb = self.zobrist;
        let ghost bh0 = board_hash(v0.mailbox, 64);
        let ghost bh1 = board_hash(self.mailbox@, 64);
        // Remove old ep and castling keys from zobrist
        let ghost e0: u64 = if self.ep_square != 64 { ep_key_spec(self.ep_square as int % 8) } else { 0 };
        if self.ep_square != squares::NONE {
            self.zobrist ^= ep_key(file_of(self.ep_square));
        } else {
            proof { lemma_xor_facts(self.zobrist, 0, 0); }
        }
        let ghost ze = self.zobrist;
        self.zobrist ^= castling_key(self.castling);
        self.ep_square = squares::NONE;
        let ghost mut e1: u64 = 0;
        if flags == FLAG_DOUBLE_PUSH {
            let ep = if us == Color::White { to - 8 } else { to + 8 };
            self.ep_square = ep;
            let k = ep_key(file_of(ep));
            proof { e1 = k; }
            self.zobrist ^= k;
        } else {
            proof { lemma_xor_facts(self.zobrist, 0, 0); }
        }
        let ghost z2 = self.zobrist;
        // Update castling rights
        let castling_update = castling_rights_mask(mv.from()) & castling_rights_mask(to);
        let c = self.castling;
        assert(c < 16 ==> c & castling_update < 16) by (bit_vector);
        self.castling &= castling_update;
        let c1 = castling_key(self.castling);
        self.zobrist ^= c1;
        // Flip side
        let k = side_key();
        self.zobrist ^= k;
        self.side = them;
        if self.side == Color::White {
            self.fullmove += 1;
        }
        // Store captured piece in history
        let mut irr = irr;
        irr.captured_piece = captured_piece;
        self.history.push(irr);
        proof {
            let s0: u64 = if v0.side == Color::Black { side_key_spec() } else { 0 };
            let c0 = castling_key_spec(v0.castling as int);
            lemma_finish_hash(v0.zobrist, bh0, c0, e0, s0, zb, bh1, ze, z2, e1, c1, k);
            lemma_side_key_flip(v0.side, k);
            assert(self.history@ =~= v0.make_view(mv).history);
            assert(self@ =~= v0.make_view(mv));
        }
    }
}

} // verus!

verus! {

impl Position {
    /// The piece moves of `make_move`: updates the board and the halfmove
    /// clock, and returns the captured piece.
    fn make_board(&mut self, mv: Move, from: u32, to: u32, flags: u16, us: Color, them: Color, moving_piece: Piece) -> (captured: Option<Piece>)
        requires
            old(self).wf_board(),
            old(self)@.move_ok(mv),
            old(self).mailbox@.len() == 64,
            from == mv.from_spec(),
            to == mv.to_spec(),
            flags == mv.flags_spec(),
            us == old(self).side,
            them == us.opp(),
            old(self).at(from as int) == Some((us, moving_piece)),
        ensures
            final(self).wf_board(),
            final(self).mailbox@ == old(self)@.mailbox_after(mv),
            final(self).zobrist ^ board_hash(final(self).mailbox@, 64) == old(self).zobrist
                ^ board_hash(old(self).mailbox@, 64),
            final(self).pawn_zobrist ^ pawn_hash(final(self).mailbox@, 64) == old(self).pawn_zobrist
                ^ pawn_hash(old(self).mailbox@, 64),
            captured == old(self)@.captured_by(mv),
            final(self).halfmove_clock == old(self)@.make_view(mv).halfmove_clock,
            final(self).side == old(self).side,
            final(self).castling == old(self).castling,
            final(self).ep_square == old(self).ep_square,
            final(self).fullmove == old(self).fullmove,
            final(self).history == old(self).history,
    {
        proof { lemma_make_view_fields(old(self)@, mv); }
        if flags == FLAG_CASTLE_KS || flags == FLAG_CASTLE_QS {
            self.make_castle(mv, from, to, flags, us);
            self.halfmove_clock += 1;
            None
        } else if flags >= 8 {
            self.halfmove_clock = 0;
            self.make_promotion(mv, from, to, flags, us, them)
        } else {
            self.make_plain(mv, from, to, flags, us, them, moving_piece)
        }
    }

    fn make_castle(&mut self, mv: Move, from: u32, to: u32, flags: u16, us: Color)
        requires
            old(self).wf_board(),
            old(self)@.move_ok(mv),
            old(self).mailbox@.len() == 64,
            from == mv.from_spec(),
            to == mv.to_spec(),
            flags == mv.flags_spec(),
            flags == 2 || flags == 3,
            us == old(self).side,
        ensures
            final(self).wf_board(),
            final(self).mailbox@ == old(self)@.mailbox_after(mv),
            final(self).zobrist ^ board_hash(final(self).mailbox@, 64) == old(self).zobrist
                ^ board_hash(old(self).mailbox@, 64),
            final(self).pawn_zobrist ^ pawn_hash(final(self).mailbox@, 64) == old(self).pawn_zobrist
                ^ pawn_hash(old(self).mailbox@, 64),
            final(self).halfmove_clock == old(self).halfmove_clock,
            final(self).side == old(self).side,
            final(self).castling == old(self).castling,
            final(self).ep_square == old(self).ep_square,
            final(self).fullmove == old(self).fullmove,
            final(self).history == old(self).history,
    {
        let (rook_from, rook_to): (u32, u32) = if flags == FLAG_CASTLE_KS {
            if us == Color::White { (7, 5) } else { (63, 61) }
        } else {
            if us == Color::White { (0, 3) } else { (56, 59) }
        };
        self.move_piece(us, Piece::King, from, to);
        self.move_piece(us, Piece::Rook, rook_from, rook_to);
        proof {
            let x = old(self).zobrist ^ board_hash(old(self).mailbox@, 64);
        }
    }

    fn make_promotion(&mut self, mv: Move, from: u32, to: u32, flags: u16, us: Color, them: Color) -> (captured: Option<Piece>)
        requires
            old(self).wf_board(),
            old(self)@.move_ok(mv),
            old(self).mailbox@.len() == 64,
            from == mv.from_spec(),
            to == mv.to_spec(),
            flags == mv.flags_spec(),
            flags >= 8,
            us == old(self).side,
            them == us.opp(),
        ensures
            final(self).wf_board(),
            final(self).mailbox@ == old(self)@.mailbox_after(mv),
            final(self).zobrist ^ board_hash(final(self).mailbox@, 64) == old(self).zobrist
                ^ board_hash(old(self).mailbox@, 64),
            final(self).pawn_zobrist ^ pawn_hash(final(self).mailbox@, 64) == old(self).pawn_zobrist
                ^ pawn_hash(old(self).mailbox@, 64),
            captured == old(self)@.captured_by(mv),
            final(self).halfmove_clock == old(self).halfmove_clock,
            final(self).side == old(self).side,
            final(self).castling == old(self).castling,
            final(self).ep_square == old(self).ep_square,
            final(self).fullmove == old(self).fullmove,
            final(self).history == old(self).history,
    {
        proof {
            lemma_low_bits(flags);
        }
        let promo = Piece::from_index(((flags & 3) + 1) as usize);
        if flags < 12 {
            self.remove_piece(us, Piece::Pawn, from);
            self.place_piece(us, promo, to);
            None
        } else {
            let (_, cap) = self.piece_at(to).unwrap();
            self.remove_piece(them, cap, to);
            self.remove_piece(us, Piece::Pawn, from);
            self.place_piece(us, promo, to);
            assert(self.mailbox@ =~= old(self)@.mailbox_after(mv));
            Some(cap)
        }
    }

    fn make_plain(&mut self, mv: Move, from: u32, to: u32, flags: u16, us: Color, them: Color, moving_piece: Piece) -> (captured: Option<Piece>)
        requires
            old(self).wf_board(),
            old(self)@.move_ok(mv),
            old(self).mailbox@.len() == 64,
            from == mv.from_spec(),
            to == mv.to_spec(),
            flags == mv.flags_spec(),
            flags < 8,
            flags != 2 && flags != 3,
            us == old(self).side,
            them == us.opp(),
            old(self).at(from as int) == Some((us, moving_piece)),
        ensures
            final(self).wf_board(),
            final(self).mailbox@ == old(self)@.mailbox_after(mv),
            final(self).zobrist ^ board_hash(final(self).mailbox@, 64) == old(self).zobrist
                ^ board_hash(old(self).mailbox@, 64),
            final(self).pawn_zobrist ^ pawn_hash(final(self).mailbox@, 64) == old(self).pawn_zobrist
                ^ pawn_hash(old(self).mailbox@, 64),
            captured == old(self)@.captured_by(mv),
            final(self).halfmove_clock == old(self)@.make_view(mv).halfmove_clock,
            final(self).side == old(self).side,
            final(self).castling == old(self).castling,
            final(self).ep_square == old(self).ep_square,
            final(self).fullmove == old(self).fullmove,
            final(self).history == old(self).history,
    {
        proof { lemma_make_view_fields(old(self)@, mv); }
        self.halfmove_clock += 1;
        if flags == FLAG_QUIET {
            self.move_piece(us, moving_piece, from, to);
            if moving_piece == Piece::Pawn {
                self.halfmove_clock = 0;
            }
            None
        } else if flags == FLAG_DOUBLE_PUSH {
            self.move_piece(us, Piece::Pawn, from, to);
            self.halfmove_clock = 0;
            None
        } else if flags == FLAG_CAPTURE {
            let (_, cap) = self.piece_at(to).unwrap();
            self.remove_piece(them, cap, to);
            self.move_piece(us, moving_piece, from, to);
            self.halfmove_clock = 0;
            if moving_piece == Piece::Pawn {
                self.halfmove_clock = 0;
            }
            assert(self.mailbox@ =~= old(self)@.mailbox_after(mv));
            Some(cap)
        } else {
            let cap_sq = if us == Color::White { to - 8 } else { to + 8 };
            self.remove_piece(them, Piece::Pawn, cap_sq);
            self.move_piece(us, Piece::Pawn, from, to);
            self.halfmove_clock = 0;
            Some(Piece::Pawn)
        }
    }
}

} // verus!

verus! {

proof fn lemma_side_key_flip(side: Color, k: u64)
    requires
        k == side_key_spec(),
    ensures
        (if side == Color::Black { k } else { 0u64 }) ^ k == (if side.opp() == Color::Black { k } else { 0u64 }),
{
    lemma_xor_facts(0, k, 0);
    lemma_xor_facts(k, 0, 0);
    lemma_xor_facts(k, k, 0);
}

/// The fields of the position after a move, one by one.
proof fn lemma_make_view_fields(v: PosView, mv: Move)
    ensures
        v.make_view(mv).halfmove_clock == (if (mv.flags_spec() == 0 && v.at(mv.from_spec()).unwrap().1 != Piece::Pawn) || mv.flags_spec() == 2 || mv.flags_spec() == 3 {
            (v.halfmove_clock + 1) as u8
        } else {
            0u8
        }),
        v.make_view(mv).fullmove == (if v.side.opp() == Color::White { (v.fullmove + 1) as u16 } else { v.fullmove }),
        v.make_view(mv).history == v.history.push(
                Irreversible {
                    castling: v.castling,
                    ep_square: v.ep_square,
                    halfmove_clock: v.halfmove_clock,
                    zobrist: v.zobrist,
                    captured_piece: v.captured_by(mv),
                },
            ),
        v.make_view(mv).mailbox == v.mailbox_after(mv),
        v.make_view(mv).side == v.side.opp(),
        v.make_view(mv).castling == v.castling & (crm_spec(mv.from_spec()) & crm_spec(mv.to_spec())),
        v.make_view(mv).ep_square == if mv.flags_spec() == 1 { ep_victim(v.side, mv.to_spec()) as u32 } else { 64u32 },
        v.make_view(mv).zobrist == hash_parts(v.mailbox_after(mv), v.make_view(mv).castling, v.make_view(mv).ep_square, v.side.opp()),
{
}

} // verus!

verus! {

impl PosView {
    /// The move can be taken back: the history is not empty, the piece that
    /// moved stands on the target square and the squares it vacated are free.
    pub open spec fn unmake_ok(self, mv: Move) -> bool {
        let from = mv.from_spec();
        let to = mv.to_spec();
        let fl = mv.flags_spec();
        let us = self.side.opp();
        let irr = self.history.last();
        &&& self.history.len() > 0
        &&& fl != 6 && fl != 7
        &&& (us == Color::Black ==> self.fullmove >= 1)
        &&& from != to
        &&& self.at(to) is Some
        &&& self.at(to).unwrap().0 == us
        &&& self.at(from) is None
        &&& (fl == 1 ==> self.at(to).unwrap().1 == Piece::Pawn)
        &&& (fl == 2 || fl == 3 ==> {
            let (rf, rt) = castle_rook(us, fl == 2);
            &&& self.at(to).unwrap().1 == Piece::King
            &&& rt != to
            &&& rt != from
            &&& self.at(rt) == Some((us, Piece::Rook))
            &&& rf != from
            &&& (rf == to || self.at(rf) is None)
        })
        &&& ((fl == 4 || fl >= 12) ==> irr.captured_piece is Some)
        &&& (fl == 5 ==> {
            &&& self.at(to).unwrap().1 == Piece::Pawn
            &&& (us == Color::White ==> to >= 8)
            &&& (us == Color::Black ==> to < 56)
            &&& ep_victim(us, to) != from
            &&& self.at(ep_victim(us, to)) is None
        })
        &&& (fl >= 8 ==> self.at(to).unwrap().1 == promo_of(fl))
    }

    /// The board after taking the move back.
    pub open spec fn mailbox_before(self, mv: Move) -> Seq<u8> {
        let from = mv.from_spec();
        let to = mv.to_spec();
        let fl = mv.flags_spec();
        let us = self.side.opp();
        let them = self.side;
        let mb = self.mailbox;
        let piece = self.at(to).unwrap().1;
        let cap = self.history.last().captured_piece;
        if fl == 2 || fl == 3 {
            let (rf, rt) = castle_rook(us, fl == 2);
            mb.update(to, EMPTY_MAILBOX).update(from, code_of(us, Piece::King)).update(
                rt,
                EMPTY_MAILBOX,
            ).update(rf, code_of(us, Piece::Rook))
        } else if fl == 5 {
            mb.update(to, EMPTY_MAILBOX).update(from, code_of(us, Piece::Pawn)).update(
                ep_victim(us, to),
                code_of(them, Piece::Pawn),
            )
        } else if fl >= 12 {
            mb.update(to, EMPTY_MAILBOX).update(from, code_of(us, Piece::Pawn)).update(
                to,
                code_of(them, cap.unwrap()),
            )
        } else if fl >= 8 {
            mb.update(to, EMPTY_MAILBOX).update(from, code_of(us, Piece::Pawn))
        } else if fl == 4 {
            mb.update(to, EMPTY_MAILBOX).update(from, code_of(us, piece)).update(
                to,
                code_of(them, cap.unwrap()),
            )
        } else {
            mb.update(to, EMPTY_MAILBOX).update(from, code_of(us, piece))
        }
    }

    /// The position after taking a move back.
    pub open spec fn unmake_view(self, mv: Move) -> PosView {
        let us = self.side.opp();
        let irr = self.history.last();
        PosView {
            mailbox: self.mailbox_before(mv),
            side: us,
            castling: irr.castling,
            ep_square: irr.ep_square,
            halfmove_clock: irr.halfmove_clock,
            fullmove: if us == Color::Black { (self.fullmove - 1) as u16 } else { self.fullmove },
            zobrist: irr.zobrist,
            history: self.history.drop_last(),
        }
    }
}

impl Position {
    /// The piece moves of `unmake_move`.
    fn unmake_board(&mut self, mv: Move, from: u32, to: u32, flags: u16, us: Color, them: Color, captured: Option<Piece>, Ghost(v0): Ghost<PosView>)
        requires
            old(self).wf_board(),
            v0.unmake_ok(mv),
            old(self).mailbox@ == v0.mailbox,
            old(self).mailbox@.len() == 64,
            from == mv.from_spec(),
            to == mv.to_spec(),
            flags == mv.flags_spec(),
            them == v0.side,
            us == them.opp(),
            captured == v0.history.last().captured_piece,
        ensures
            final(self).wf_board(),
            final(self).mailbox@ == v0.mailbox_before(mv),
            final(self).pawn_zobrist ^ pawn_hash(final(self).mailbox@, 64) == old(self).pawn_zobrist
                ^ pawn_hash(old(self).mailbox@, 64),
            final(self).side == old(self).side,
            final(self).castling == old(self).castling,
            final(self).ep_square == old(self).ep_square,
            final(self).halfmove_clock == old(self).halfmove_clock,
            final(self).fullmove == old(self).fullmove,
            final(self).history == old(self).history,
    {
        if flags == FLAG_CASTLE_KS || flags == FLAG_CASTLE_QS {
            let (rook_from, rook_to): (u32, u32) = if flags == FLAG_CASTLE_KS {
                if us == Color::White { (7, 5) } else { (63, 61) }
            } else {
                if us == Color::White { (0, 3) } else { (56, 59) }
            };
            self.move_piece(us, Piece::King, to, from);
            self.move_piece(us, Piece::Rook, rook_to, rook_from);
        } else if flags == FLAG_EP {
            self.move_piece(us, Piece::Pawn, to, from);
            let cap_sq = if us == Color::White { to - 8 } else { to + 8 };
            self.place_piece(them, Piece::Pawn, cap_sq);
        } else if flags >= 8 {
            proof {
                lemma_low_bits(flags);
            }
            let promo = Piece::from_index(((flags & 3) + 1) as usize);
            self.remove_piece(us, promo, to);
            self.place_piece(us, Piece::Pawn, from);
            if flags >= 12 {
                self.place_piece(them, captured.unwrap(), to);
            }
        } else {
            let (_, piece) = self.piece_at(to).unwrap();
            self.move_piece(us, piece, to, from);
            if flags == FLAG_CAPTURE {
                self.place_piece(them, captured.unwrap(), to);
            }
        }
    }

    pub fn unmake_move(&mut self, mv: Move)
        requires
            old(self).wf_board(),
            old(self).mailbox@.len() == 64,
            old(self).pawn_zobrist == pawn_hash(old(self).mailbox@, 64),
            old(self)@.unmake_ok(mv),
        ensures
            final(self).wf_board(),
            final(self).pawn_zobrist == pawn_hash(final(self).mailbox@, 64),
            final(self)@ == old(self)@.unmake_view(mv),
    {
        let ghost v0 = self@;
        let irr = self.history.pop().unwrap();

        self.side = self.side.flip();
        if self.side == Color::Black {
            self.fullmove -= 1;
        }
        let from = mv.from();
        let to = mv.to();
        let flags = mv.flags();
        let us = self.side;
        let them = us.flip();
        self.unmake_board(mv, from, to, flags, us, them, irr.captured_piece, Ghost(v0));

        self.castling = irr.castling;
        self.ep_square = irr.ep_square;
        self.halfmove_clock = irr.halfmove_clock;
        self.zobrist = irr.zobrist;
        proof {
            lemma_xor_cancel(self.pawn_zobrist, pawn_hash(self.mailbox@, 64), v0.mailbox, pawn_hash(v0.mailbox, 64));
            assert(self.history@ =~= v0.history.drop_last());
            assert(self@ =~= v0.unmake_view(mv));
        }
    }
}

} // verus!

verus! {

/// A valid byte that stands for no piece is the empty marker.
pub proof fn lemma_decode_none(raw: u8)
    requires
        valid_code(raw),
        decode(raw) is None,
    ensures
        raw == EMPTY_MAILBOX,
{
}

/// A valid nonempty byte is the code of the piece it stands for.
pub proof fn lemma_decode_code(raw: u8)
    requires
        valid_code(raw),
        decode(raw) is Some,
    ensures
        code_of(decode(raw).unwrap().0, decode(raw).unwrap().1) == raw,
{
}

proof fn lemma_mu_plain(v: PosView, mv: Move)
    requires
        v.mailbox.len() == 64,
        forall|s: int| 0 <= s < 64 ==> #[trigger] valid_code(v.mailbox[s]),
        v.move_ok(mv),
        mv.flags_spec() == 0 || mv.flags_spec() == 1,
    ensures
        v.make_view(mv).unmake_ok(mv),
        v.make_view(mv).mailbox_before(mv) == v.mailbox,
{
    let from = mv.from_spec();
    let to = mv.to_spec();
    lemma_decode_code(v.mailbox[from]);
    lemma_decode_none(v.mailbox[to]);
    lemma_code_decode(v.side, v.at(from).unwrap().1);
    assert(v.make_view(mv).mailbox_before(mv) =~= v.mailbox);
}

proof fn lemma_mu_capture(v: PosView, mv: Move)
    requires
        v.mailbox.len() == 64,
        forall|s: int| 0 <= s < 64 ==> #[trigger] valid_code(v.mailbox[s]),
        v.move_ok(mv),
        mv.flags_spec() == 4,
    ensures
        v.make_view(mv).unmake_ok(mv),
        v.make_view(mv).mailbox_before(mv) == v.mailbox,
{
    let from = mv.from_spec();
    let to = mv.to_spec();
    lemma_decode_code(v.mailbox[from]);
    lemma_decode_code(v.mailbox[to]);
    lemma_code_decode(v.side, v.at(from).unwrap().1);
    assert(v.make_view(mv).mailbox_before(mv) =~= v.mailbox);
}

proof fn lemma_mu_castle(v: PosView, mv: Move)
    requires
        v.mailbox.len() == 64,
        forall|s: int| 0 <= s < 64 ==> #[trigger] valid_code(v.mailbox[s]),
        v.move_ok(mv),
        mv.flags_spec() == 2 || mv.flags_spec() == 3,
        castle_rook(v.side, mv.flags_spec() == 2).1 != mv.from_spec(),
    ensures
        v.make_view(mv).unmake_ok(mv),
        v.make_view(mv).mailbox_before(mv) == v.mailbox,
{
    let from = mv.from_spec();
    let us = v.side;
    let (rf, rt) = castle_rook(us, mv.flags_spec() == 2);
    lemma_decode_code(v.mailbox[from]);
    lemma_decode_code(v.mailbox[rf]);
    lemma_decode_none(v.mailbox[mv.to_spec()]);
    lemma_decode_none(v.mailbox[rt]);
    lemma_code_decode(us, Piece::King);
    lemma_code_decode(us, Piece::Rook);
    assert(v.make_view(mv).mailbox_before(mv) =~= v.mailbox);
}

proof fn lemma_mu_ep(v: PosView, mv: Move)
    requires
        v.mailbox.len() == 64,
        forall|s: int| 0 <= s < 64 ==> #[trigger] valid_code(v.mailbox[s]),
        v.move_ok(mv),
        mv.flags_spec() == 5,
    ensures
        v.make_view(mv).unmake_ok(mv),
        v.make_view(mv).mailbox_before(mv) == v.mailbox,
{
    let from = mv.from_spec();
    let to = mv.to_spec();
    let us = v.side;
    lemma_decode_code(v.mailbox[from]);
    lemma_decode_none(v.mailbox[to]);
    lemma_decode_code(v.mailbox[ep_victim(us, to)]);
    lemma_code_decode(us, Piece::Pawn);
    assert(v.make_view(mv).mailbox_before(mv) =~= v.mailbox);
}

proof fn lemma_mu_promo(v: PosView, mv: Move)
    requires
        v.mailbox.len() == 64,
        forall|s: int| 0 <= s < 64 ==> #[trigger] valid_code(v.mailbox[s]),
        v.move_ok(mv),
        mv.flags_spec() >= 8,
    ensures
        v.make_view(mv).unmake_ok(mv),
        v.make_view(mv).mailbox_before(mv) == v.mailbox,
{
    let from = mv.from_spec();
    let to = mv.to_spec();
    let us = v.side;
    lemma_decode_code(v.mailbox[from]);
    if v.at(to) is Some {
        lemma_decode_code(v.mailbox[to]);
    } else {
        lemma_decode_none(v.mailbox[to]);
    }
    lemma_code_decode(us, promo_of(mv.flags_spec()));
    assert(v.make_view(mv).mailbox_before(mv) =~= v.mailbox);
}

/// Taking back a move restores the position it was made on: the board,
/// side to move, castling rights, en-passant square, clocks, hash and
/// history (for a castling move, provided the rook does not land on the
/// king's starting square).
pub proof fn lemma_make_unmake(v: PosView, mv: Move)
    requires
        v.wf(),
        v.move_ok(mv),
        (mv.flags_spec() == 2 || mv.flags_spec() == 3) ==> castle_rook(v.side, mv.flags_spec() == 2).1 != mv.from_spec(),
    ensures
        v.make_view(mv).unmake_ok(mv),
        v.make_view(mv).unmake_view(mv) == v,
{
    let w = v.make_view(mv);
    let fl = mv.flags_spec();
    if fl == 0 || fl == 1 {
        lemma_mu_plain(v, mv);
    } else if fl == 4 {
        lemma_mu_capture(v, mv);
    } else if fl == 2 || fl == 3 {
        lemma_mu_castle(v, mv);
    } else if fl == 5 {
        lemma_mu_ep(v, mv);
    } else {
        lemma_mu_promo(v, mv);
    }
    assert(w.mailbox_before(mv) =~= v.mailbox);
    assert(w.history.drop_last() =~= v.history);
    assert(w.unmake_view(mv) =~= v);
}

} // verus!

verus! {

impl PosView {
    /// The position after passing the turn.
    pub open spec fn null_view(self) -> PosView {
        let ep_part = if self.ep_square != 64 { ep_key_spec(self.ep_square as int % 8) } else { 0u64 };
        PosView {
            mailbox: self.mailbox,
            side: self.side.opp(),
            castling: self.castling,
            ep_square: 64,
            halfmove_clock: (self.halfmove_clock + 1) as u8,
            fullmove: if self.side.opp() == Color::White { (self.fullmove + 1) as u16 } else { self.fullmove },
            zobrist: self.zobrist ^ ep_part ^ side_key_spec(),
            history: self.history.push(
                Irreversible {
                    castling: self.castling,
                    ep_square: self.ep_square,
                    halfmove_clock: self.halfmove_clock,
                    zobrist: self.zobrist,
                    captured_piece: None,
                },
            ),
        }
    }

    /// The position after taking back a pass.
    pub open spec fn unnull_view(self) -> PosView {
        let us = self.side.opp();
        let irr = self.history.last();
        PosView {
            mailbox: self.mailbox,
            side: us,
            castling: self.castling,
            ep_square: irr.ep_square,
            halfmove_clock: irr.halfmove_clock,
            fullmove: if us == Color::Black { (self.fullmove - 1) as u16 } else { self.fullmove },
            zobrist: irr.zobrist,
            history: self.history.drop_last(),
        }
    }

    /// The current hash occurs again in the history, looking back no
    /// further than the halfmove clock and stopping at the first entry made
    /// when the clock was zero (a capture or pawn move).
    pub open spec fn repetition_spec(self) -> bool {
        let len = self.history.len() as int;
        let lookback = if (self.halfmove_clock as int) < len { self.halfmove_clock as int } else { len };
        self.halfmove_clock >= 4 && exists|i: int|
            len - lookback <= i < len && #[trigger] self.history[i].zobrist == self.zobrist
                && forall|j: int| i < j < len ==> #[trigger] self.history[j].halfmove_clock != 0
    }
}

proof fn lemma_null_hash(v: PosView)
    requires
        v.wf(),
    ensures
        v.null_view().zobrist == v.null_view().full_hash(),
{
    let e = if v.ep_square != 64 { ep_key_spec(v.ep_square as int % 8) } else { 0u64 };
    let k = side_key_spec();
    let s0 = if v.side == Color::Black { k } else { 0u64 };
    let s1 = if v.side.opp() == Color::Black { k } else { 0u64 };
    let b = board_hash(v.mailbox, 64);
    let c = castling_key_spec(v.castling as int);
    assert(s1 == s0 ^ k) by {
        lemma_xor_facts(0, k, 0);
        lemma_xor_facts(k, 0, 0);
        lemma_xor_facts(k, k, 0);
    }
    assert(((b ^ c ^ e ^ s0) ^ e ^ k) == b ^ c ^ 0u64 ^ (s0 ^ k)) by (bit_vector);
}

/// Taking back a pass restores the position.
pub proof fn lemma_null_unnull(v: PosView)
    requires
        v.wf(),
        v.halfmove_clock < 255,
        v.side == Color::Black ==> v.fullmove < 65535,
    ensures
        v.null_view().unnull_view() == v,
{
    assert(v.null_view().history.drop_last() =~= v.history);
    assert(v.null_view().unnull_view() =~= v);
}

impl Position {
    /// Make a null move (pass the turn). Only valid when not in check.
    pub fn make_null_move(&mut self)
        requires
            old(self).wf(),
            old(self).halfmove_clock < 255,
            old(self).side == Color::Black ==> old(self).fullmove < 65535,
        ensures
            final(self).wf(),
            final(self)@ == old(self)@.null_view(),
    {
        let irr = Irreversible {
            castling: self.castling,
            ep_square: self.ep_square,
            halfmove_clock: self.halfmove_clock,
            zobrist: self.zobrist,
            captured_piece: None,
        };
        if self.ep_square != squares::NONE {
            self.zobrist ^= ep_key(file_of(self.ep_square));
            self.ep_square = squares::NONE;
        } else {
            proof { lemma_xor_facts(self.zobrist, 0, 0); }
        }
        self.halfmove_clock += 1;
        self.zobrist ^= side_key();
        self.side = self.side.flip();
        if self.side == Color::White {
            self.fullmove += 1;
        }
        self.history.push(irr);
        proof {
            lemma_null_hash(old(self)@);
            assert(self@ =~= old(self)@.null_view());
        }
    }

    pub fn unmake_null_move(&mut self)
        requires
            old(self).history@.len() > 0,
            old(self).side == Color::White ==> old(self).fullmove >= 1,
        ensures
            final(self)@ == old(self)@.unnull_view(),
            old(self).wf_board() ==> final(self).wf_board(),
            final(self).pawn_zobrist == old(self).pawn_zobrist,
            final(self).pieces == old(self).pieces,
            final(self).occupancy == old(self).occupancy,
            final(self).all == old(self).all,
    {
        let irr = self.history.pop().unwrap();
        self.side = self.side.flip();
        if self.side == Color::Black {
            self.fullmove -= 1;
        }
        self.ep_square = irr.ep_square;
        self.halfmove_clock = irr.halfmove_clock;
        self.zobrist = irr.zobrist;
        proof {
            assert(self.mailbox@ =~= old(self).mailbox@);
            assert(self@ =~= old(self)@.unnull_view());
        }
    }

    /// True if the current position is a draw by repetition (2-fold in search).
    pub fn is_repetition(&self) -> (r: bool)
        ensures
            r == self@.repetition_spec(),
    {
        if self.halfmove_clock < 4 {
            return false;
        }
        let key = self.zobrist;
        let len = self.history.len();
        let lookback = if (self.halfmove_clock as usize) < len { self.halfmove_clock as usize } else { len };
        let mut i = len;
        while i > len - lookback
            invariant
                len == self.history@.len(),
                key == self.zobrist,
                self.halfmove_clock >= 4,
                lookback == if (self.halfmove_clock as int) < len { self.halfmove_clock as int } else { len as int },
                lookback <= len,
                len - lookback <= i <= len,
                forall|j: int| i <= j < len ==> #[trigger] self.history@[j].zobrist != key,
                forall|j: int| i <= j < len ==> #[trigger] self.history@[j].halfmove_clock != 0,
            decreases i,
        {
            i -= 1;
            let irr = self.history[i];
            assert(irr == self.history@[i as int]);
            if irr.zobrist == key {
                proof {
                    assert(self.history@[i as int].zobrist == key);
                    assert(self@.history == self.history@);
                    assert(self@.zobrist == self.zobrist);
                    assert(key == self.zobrist);
                    assert(self@.history[i as int].zobrist == self@.zobrist);
                    assert(forall|j: int| i < j < len ==> #[trigger] self@.history[j].halfmove_clock != 0);
                }
                return true;
            }
            if irr.halfmove_clock == 0 {
                proof {
                    if self@.repetition_spec() {
                        let k = choose|k: int|
                            len - lookback <= k < len && #[trigger] self.history@[k].zobrist == self.zobrist
                                && forall|j: int| k < j < len ==> #[trigger] self.history@[j].halfmove_clock != 0;
                        if k < i {
                            assert(self.history@[i as int].halfmove_clock != 0);
                        } else if k > i {
                            assert(self.history@[k].zobrist != key);
                        }
                    }
                }
                return false;
            }
        }
        proof {
            if self@.repetition_spec() {
                let k = choose|k: int|
                    len - lookback <= k < len && #[trigger] self.history@[k].zobrist == self.zobrist
                        && forall|j: int| k < j < len ==> #[trigger] self.history@[j].halfmove_clock != 0;
                assert(self.history@[k].zobrist != key);
            }
        }
        false
    }
}

} // verus!

verus! {

/// The squares among the first `n` that hold a piece accepted by `keep`.
pub open spec fn mb_bb(mb: Seq<u8>, keep: spec_fn(Option<(Color, Piece)>) -> bool, n: nat) -> u64
    decreases n,
{
    if n == 0 {
        0
    } else {
        mb_bb(mb, keep, (n - 1) as nat) | (if keep(decode(mb[n - 1])) {
            bit_spec(n - 1)
        } else {
            0u64
        })
    }
}

pub proof fn lemma_mb_bb(mb: Seq<u8>, keep: spec_fn(Option<(Color, Piece)>) -> bool, n: nat)
    requires
        n <= 64,
        n <= mb.len(),
    ensures
        forall|s: int| #[trigger] sq_in(mb_bb(mb, keep, n), s) == (0 <= s < n && keep(decode(mb[s]))),
    decreases n,
{
    broadcast use group_bb;
    if n > 0 {
        lemma_mb_bb(mb, keep, (n - 1) as nat);
        assert forall|s: int| #[trigger] sq_in(mb_bb(mb, keep, n), s) == (0 <= s < n && keep(decode(mb[s]))) by {
            assert(sq_in(mb_bb(mb, keep, (n - 1) as nat), s) == (0 <= s < n - 1 && keep(decode(mb[s]))));
            if keep(decode(mb[n - 1])) {
                assert(sq_in(bit_spec(n - 1), s) == (s == n - 1));
            }
        }
    }
}

pub open spec fn keep_piece(c: Color, p: Piece) -> spec_fn(Option<(Color, Piece)>) -> bool {
    |x: Option<(Color, Piece)>| x == Some((c, p))
}

pub open spec fn keep_color(c: Color) -> spec_fn(Option<(Color, Piece)>) -> bool {
    |x: Option<(Color, Piece)>| x is Some && x.unwrap().0 == c
}

pub open spec fn keep_any() -> spec_fn(Option<(Color, Piece)>) -> bool {
    |x: Option<(Color, Piece)>| x is Some
}

impl PosView {
    /// Bitboard of the pieces of color `c` and kind `p`.
    pub open spec fn piece_bb(self, c: Color, p: Piece) -> u64 {
        mb_bb(self.mailbox, keep_piece(c, p), 64)
    }

    /// Bitboard of the pieces of color `c`.
    pub open spec fn color_bb(self, c: Color) -> u64 {
        mb_bb(self.mailbox, keep_color(c), 64)
    }

    /// Bitboard of all pieces.
    pub open spec fn all_bb(self) -> u64 {
        mb_bb(self.mailbox, keep_any(), 64)
    }
}

impl Position {
    /// Under consistency the bitboards are those derived from the mailbox.
    pub proof fn lemma_bitboards(&self)
        requires
            self.wf_board(),
        ensures
            forall|c: int, p: int| 0 <= c < 2 && 0 <= p < 6 ==> #[trigger] self.pieces[c][p] == self@.piece_bb(color_of_idx(c), piece_of_idx(p)),
            forall|c: int| 0 <= c < 2 ==> #[trigger] self.occupancy[c] == self@.color_bb(color_of_idx(c)),
            self.all == self@.all_bb(),
    {
        assert forall|c: int, p: int| 0 <= c < 2 && 0 <= p < 6 implies #[trigger] self.pieces[c][p] == self@.piece_bb(color_of_idx(c), piece_of_idx(p)) by {
            let cc = color_of_idx(c);
            let pp = piece_of_idx(p);
            lemma_mb_bb(self.mailbox@, keep_piece(cc, pp), 64);
            assert forall|s: int| 0 <= s < 64 implies sq_in(self.pieces[c][p], s) == sq_in(self@.piece_bb(cc, pp), s) by {
            }
            lemma_bb_ext(self.pieces[c][p], self@.piece_bb(cc, pp));
        }
        assert forall|c: int| 0 <= c < 2 implies #[trigger] self.occupancy[c] == self@.color_bb(color_of_idx(c)) by {
            let cc = color_of_idx(c);
            lemma_mb_bb(self.mailbox@, keep_color(cc), 64);
            assert forall|s: int| 0 <= s < 64 implies sq_in(self.occupancy[c], s) == sq_in(self@.color_bb(cc), s) by {
            }
            lemma_bb_ext(self.occupancy[c], self@.color_bb(cc));
        }
        lemma_mb_bb(self.mailbox@, keep_any(), 64);
        assert forall|s: int| 0 <= s < 64 implies sq_in(self.all, s) == sq_in(self@.all_bb(), s) by {
        }
        lemma_bb_ext(self.all, self@.all_bb());
    }
}

/// `is_attacked` agrees with `attackers_to` restricted to one colour: a
/// square is attacked by `c` exactly when, under the board's occupancy,
/// some piece of `c` is among the attackers of the square.
pub proof fn lemma_attacked_by_attackers(pos: &Position, sq: int, c: Color)
    requires
        pos.wf_board(),
        0 <= sq < 64,
    ensures
        attacked_spec(pos, sq, c) == (super::attacks::attackers_spec(sq, pos.all, pos.pieces) & pos.occupancy[c.idx()] != 0),
{
    broadcast use group_bb;
    let ci = c.idx();
    let p = pos.pieces;
    let a = super::attacks::attackers_spec(sq, pos.all, p);
    let b = a & pos.occupancy[ci];
    super::attacks::lemma_bb_of(|t: int| pawn_att(sq, Color::White, t));
    super::attacks::lemma_bb_of(|t: int| pawn_att(sq, Color::Black, t));
    super::attacks::lemma_bb_of(|t: int| knight_att(sq, t));
    super::attacks::lemma_bb_of(|t: int| king_att(sq, t));
    let pw = super::attacks::pawn_bb(sq, Color::White);
    let pb = super::attacks::pawn_bb(sq, Color::Black);
    let kn = super::attacks::knight_bb(sq);
    let kg = super::attacks::king_bb(sq);
    assert forall|t: int| #[trigger] sq_in(b, t) == (0 <= t < 64 && sq_in(pos.occupancy[ci], t) && {
        ||| sq_in(p[ci as int][0], t) && pawn_att(sq, c.opp(), t)
        ||| sq_in(p[ci as int][1], t) && knight_att(sq, t)
        ||| sq_in(p[ci as int][5], t) && king_att(sq, t)
        ||| (sq_in(p[ci as int][2], t) || sq_in(p[ci as int][4], t)) && sq_in(bishop_spec(sq, pos.all), t)
        ||| (sq_in(p[ci as int][3], t) || sq_in(p[ci as int][4], t)) && sq_in(rook_spec(sq, pos.all), t)
    }) by {
        assert(sq_in(pw, t) == pawn_att(sq, Color::White, t));
        assert(sq_in(pb, t) == pawn_att(sq, Color::Black, t));
        assert(sq_in(kn, t) == knight_att(sq, t));
        assert(sq_in(kg, t) == king_att(sq, t));
        if 0 <= t < 64 && sq_in(pos.occupancy[ci], t) {
            let oc: int = 1 - ci;
            assert(color_of_idx(ci) == c);
            assert forall|k: int| 0 <= k < 6 implies !sq_in(p[oc][k], t) by {
                assert(sq_in(p[oc][k], t) == (0 <= t < 64 && pos.at(t) == Some((color_of_idx(oc), piece_of_idx(k)))));
            }
        }
    }
    if b != 0 {
        lemma_lsb(b);
        let t = lsb_spec(b) as int;
        assert(sq_in(b, t));
        assert(sq_in(pos.occupancy[ci], t));
    } else {
        if attacked_spec(pos, sq, c) {
            let t = choose|t: int| 0 <= t < 64 && #[trigger] sq_in(pos.occupancy[ci], t) && {
                ||| sq_in(pos.pieces[ci][0], t) && pawn_att(sq, c.opp(), t)
                ||| sq_in(pos.pieces[ci][1], t) && knight_att(sq, t)
                ||| sq_in(pos.pieces[ci][5], t) && king_att(sq, t)
                ||| (sq_in(pos.pieces[ci][2], t) || sq_in(pos.pieces[ci][4], t)) && sq_in(bishop_spec(sq, pos.all), t)
                ||| (sq_in(pos.pieces[ci][3], t) || sq_in(pos.pieces[ci][4], t)) && sq_in(rook_spec(sq, pos.all), t)
            };
            assert(sq_in(b, t));
            assert(!sq_in(0u64, t));
        }
    }
}

} // verus!
