//! The consistency check of a position's redundant data: occupancy against
//! piece bitboards, and mailbox against bitboards.
use vstd::prelude::*;
use vstd::string::StringExecFns;
use super::bitboard::{sq_in, bit, lemma_in_or, lemma_in_and, lemma_in_zero, lemma_bb_ext, lemma_bb_empty, group_bb};
use super::position::{Position, decode, valid_code};
use super::types::{color_of_idx, piece_of_idx};
use super::fen::{dec_text, push_dec, fen_spec, has_word};
use crate::strutil::push_char;

verus! {

/// The first inconsistency found in a position.
#[derive(PartialEq, Eq, Structural, Clone, Copy)]
pub enum BoardFault {
    /// The union of all pieces differs from the union of the two colors.
    AllMismatch(u64, u64),
    /// Squares held by both colors.
    Overlap(u64),
    /// A color's occupancy differs from the union of its pieces.
    OccMismatch(u32, u64, u64),
    /// A square empty in the mailbox but set in a piece bitboard.
    EmptyButIn(u32, u32, u32),
    /// A mailbox byte that names no piece.
    BadByte(u8, u32),
    /// A mailbox piece missing from its bitboard.
    Missing(u32, u32, u32),
}

/// Union of the first `n` piece bitboards of color `c`.
pub open spec fn union_of(p: &Position, c: int, n: int) -> u64
    decreases n,
{
    if n <= 0 { 0 } else { union_of(p, c, n - 1) | p.pieces[c][n - 1] }
}

/// The first (color, piece) index from `k` on whose bitboard holds `sq`.
pub open spec fn holder_from(p: &Position, sq: int, k: int) -> Option<BoardFault>
    decreases 12 - k,
{
    if k < 0 || k >= 12 {
        None
    } else if sq_in(p.pieces[k / 6][k % 6], sq) {
        Some(BoardFault::EmptyButIn(sq as u32, (k / 6) as u32, (k % 6) as u32))
    } else {
        holder_from(p, sq, k + 1)
    }
}

/// The fault of square `sq`, if any.
pub open spec fn sq_fault(p: &Position, sq: int) -> Option<BoardFault> {
    let raw = p.mailbox[sq];
    if raw == 0xFF {
        holder_from(p, sq, 0)
    } else if raw % 8 >= 6 || raw / 8 >= 2 {
        Some(BoardFault::BadByte(raw, sq as u32))
    } else if !sq_in(p.pieces[(raw / 8) as int][(raw % 8) as int], sq) {
        Some(BoardFault::Missing(sq as u32, (raw / 8) as u32, (raw % 8) as u32))
    } else {
        None
    }
}

/// The first faulty square from `sq` on.
pub open spec fn sq_faults_from(p: &Position, sq: int) -> Option<BoardFault>
    decreases 64 - sq,
{
    if sq < 0 || sq >= 64 {
        None
    } else {
        match sq_fault(p, sq) {
            Some(f) => Some(f),
            None => sq_faults_from(p, sq + 1),
        }
    }
}

/// The first inconsistency of a position, checked in this order: all
/// pieces, color overlap, each color's occupancy, then square by square.
pub open spec fn fault_spec(p: &Position) -> Option<BoardFault> {
    let both = p.occupancy[0] | p.occupancy[1];
    if p.all != both {
        Some(BoardFault::AllMismatch(p.all, both))
    } else if p.occupancy[0] & p.occupancy[1] != 0 {
        Some(BoardFault::Overlap(p.occupancy[0] & p.occupancy[1]))
    } else if union_of(p, 0, 6) != p.occupancy[0] {
        Some(BoardFault::OccMismatch(0, p.occupancy[0], union_of(p, 0, 6)))
    } else if union_of(p, 1, 6) != p.occupancy[1] {
        Some(BoardFault::OccMismatch(1, p.occupancy[1], union_of(p, 1, 6)))
    } else {
        sq_faults_from(p, 0)
    }
}

/// The lowercase hexadecimal digit of `d`.
pub open spec fn hex_digit(d: int) -> char {
    if d < 10 { (48 + d) as char } else { (87 + d) as char }
}

/// The last `n` hexadecimal digits of `x`, zero-padded.
pub open spec fn hex_text(x: nat, n: nat) -> Seq<char>
    decreases n,
{
    if n == 0 { seq![] } else { hex_text(x / 16, (n - 1) as nat).push(hex_digit((x % 16) as int)) }
}

/// The text of a fault.
pub open spec fn fault_msg(f: BoardFault) -> Seq<char> {
    match f {
        BoardFault::AllMismatch(have, expect) => "all mismatch: have "@ + hex_text(have as nat, 16) + ", expect "@ + hex_text(expect as nat, 16),
        BoardFault::Overlap(x) => "occupancy overlap: "@ + hex_text(x as nat, 16),
        BoardFault::OccMismatch(c, have, u) => "occupancy["@ + dec_text(c as nat) + "] mismatch: have "@ + hex_text(have as nat, 16) + ", union of pieces = "@ + hex_text(u as nat, 16),
        BoardFault::EmptyButIn(sq, c, p) => "sq "@ + dec_text(sq as nat) + " empty in mailbox but in pieces["@ + dec_text(c as nat) + "]["@ + dec_text(p as nat) + "]"@,
        BoardFault::BadByte(raw, sq) => "invalid mailbox byte "@ + hex_text(raw as nat, 2) + " at sq "@ + dec_text(sq as nat),
        BoardFault::Missing(sq, c, p) => "sq "@ + dec_text(sq as nat) + " has mailbox c="@ + dec_text(c as nat) + " p="@ + dec_text(p as nat) + " but not in pieces bitboard"@,
    }
}

/// Appends the last `n` hexadecimal digits of `x`.
fn push_hex(s: &mut String, x: u64, n: u32)
    ensures
        final(s)@ == old(s)@ + hex_text(x as nat, n as nat),
    decreases n,
{
    if n > 0 {
        push_hex(s, x / 16, n - 1);
        let d = (x % 16) as u32;
        let c = if d < 10 { ((48 + d) as u8) as char } else { ((87 + d) as u8) as char };
        push_char(s, c);
    }
}

/// Writes the text of a fault.
fn fault_string(f: BoardFault) -> (s: String)
    ensures
        s@ == fault_msg(f),
{
    let mut s = String::new();
    match f {
        BoardFault::AllMismatch(have, expect) => {
            s.append("all mismatch: have ");
            push_hex(&mut s, have, 16);
            s.append(", expect ");
            push_hex(&mut s, expect, 16);
        },
        BoardFault::Overlap(x) => {
            s.append("occupancy overlap: ");
            push_hex(&mut s, x, 16);
        },
        BoardFault::OccMismatch(c, have, u) => {
            s.append("occupancy[");
            push_dec(&mut s, c);
            s.append("] mismatch: have ");
            push_hex(&mut s, have, 16);
            s.append(", union of pieces = ");
            push_hex(&mut s, u, 16);
        },
        BoardFault::EmptyButIn(sq, c, p) => {
            s.append("sq ");
            push_dec(&mut s, sq);
            s.append(" empty in mailbox but in pieces[");
            push_dec(&mut s, c);
            s.append("][");
            push_dec(&mut s, p);
            s.append("]");
        },
        BoardFault::BadByte(raw, sq) => {
            s.append("invalid mailbox byte ");
            push_hex(&mut s, raw as u64, 2);
            s.append(" at sq ");
            push_dec(&mut s, sq);
        },
        BoardFault::Missing(sq, c, p) => {
            s.append("sq ");
            push_dec(&mut s, sq);
            s.append(" has mailbox c=");
            push_dec(&mut s, c);
            s.append(" p=");
            push_dec(&mut s, p);
            s.append(" but not in pieces bitboard");
        },
    }
    proof {
        assert(s@ =~= fault_msg(f));
    }
    s
}

/// The first fault of a position, if any.
fn find_fault(p: &Position) -> (r: Option<BoardFault>)
    ensures
        r == fault_spec(p),
{
    let both = p.occupancy[0] | p.occupancy[1];
    if p.all != both {
        return Some(BoardFault::AllMismatch(p.all, both));
    }
    if p.occupancy[0] & p.occupancy[1] != 0 {
        return Some(BoardFault::Overlap(p.occupancy[0] & p.occupancy[1]));
    }
    let mut c: usize = 0;
    while c < 2
        invariant
            c <= 2,
            p.all == p.occupancy[0] | p.occupancy[1],
            p.occupancy[0] & p.occupancy[1] == 0,
            forall|j: int| 0 <= j < c ==> union_of(p, j, 6) == p.occupancy[j],
        decreases 2 - c,
    {
        let mut occ = 0u64;
        let mut k: usize = 0;
        while k < 6
            invariant
                c < 2,
                k <= 6,
                occ == union_of(p, c as int, k as int),
            decreases 6 - k,
        {
            occ |= p.pieces[c][k];
            k += 1;
        }
        if occ != p.occupancy[c] {
            return Some(BoardFault::OccMismatch(c as u32, p.occupancy[c], occ));
        }
        c += 1;
    }
    let mut sq: u32 = 0;
    while sq < 64
        invariant
            sq <= 64,
            sq_faults_from(p, sq as int) == fault_spec(p),
        decreases 64 - sq,
    {
        let raw = p.mailbox[sq as usize];
        let b = bit(sq);
        if raw == 0xFF {
            let mut k: usize = 0;
            while k < 12
                invariant
                    sq < 64,
                    k <= 12,
                    b == crate::board::bitboard::bit_spec(sq as int),
                    holder_from(p, sq as int, k as int) == holder_from(p, sq as int, 0),
                    raw == p.mailbox[sq as int],
                    raw == 0xFF,
                    sq_faults_from(p, sq as int) == fault_spec(p),
                decreases 12 - k,
            {
                proof {
                    crate::board::bitboard::lemma_bit_and(sq as int, p.pieces[(k / 6) as int][(k % 6) as int]);
                }
                if p.pieces[k / 6][k % 6] & b != 0 {
                    return Some(BoardFault::EmptyButIn(sq, (k / 6) as u32, (k % 6) as u32));
                }
                k += 1;
            }
        } else {
            let cc = (raw >> 3) as usize;
            let pc = (raw & 7) as usize;
            proof {
                crate::board::position::lemma_byte_split(raw);
            }
            if pc >= 6 || cc >= 2 {
                return Some(BoardFault::BadByte(raw, sq));
            }
            proof {
                crate::board::bitboard::lemma_bit_and(sq as int, p.pieces[cc as int][pc as int]);
            }
            if p.pieces[cc][pc] & b == 0 {
                return Some(BoardFault::Missing(sq, cc as u32, pc as u32));
            }
        }
        sq += 1;
    }
    None
}

impl Position {
    /// Checks the consistency of the redundant board data; returns the
    /// message of the first inconsistency, or `None`.
    pub fn validate(&self) -> (r: Option<String>)
        ensures
            match fault_spec(self) {
                None => r is None,
                Some(f) => r is Some && r->Some_0@ == fault_msg(f),
            },
    {
        match find_fault(self) {
            None => None,
            Some(f) => Some(fault_string(f)),
        }
    }
}

proof fn lemma_union_in(p: &Position, c: int, n: int, s: int)
    requires
        0 <= c < 2,
        0 <= n <= 6,
    ensures
        sq_in(union_of(p, c, n), s) == exists|k: int| 0 <= k < n && #[trigger] sq_in(p.pieces[c][k], s),
    decreases n,
{
    if n <= 0 {
        lemma_in_zero(s);
    } else {
        lemma_union_in(p, c, n - 1, s);
        lemma_in_or(union_of(p, c, n - 1), p.pieces[c][n - 1], s);
        if sq_in(p.pieces[c][n - 1], s) {
            assert(exists|k: int| 0 <= k < n && #[trigger] sq_in(p.pieces[c][k], s));
        }
    }
}

proof fn lemma_holder_none(p: &Position, sq: int, k: int)
    requires
        p.wf_board(),
        0 <= sq < 64,
        p.at(sq) is None,
        0 <= k <= 12,
    ensures
        holder_from(p, sq, k) is None,
    decreases 12 - k,
{
    if k < 12 {
        assert(!sq_in(p.pieces[k / 6][k % 6], sq));
        lemma_holder_none(p, sq, k + 1);
    }
}

proof fn lemma_sq_faults_none(p: &Position, sq: int)
    requires
        p.wf_board(),
        0 <= sq <= 64,
    ensures
        sq_faults_from(p, sq) is None,
    decreases 64 - sq,
{
    if sq < 64 {
        lemma_sq_faults_none(p, sq + 1);
        let raw = p.mailbox[sq];
        assert(valid_code(raw));
        if raw == 0xFF {
            lemma_holder_none(p, sq, 0);
        } else {
            assert(decode(raw) is Some);
            assert(sq_in(p.pieces[(raw / 8) as int][(raw % 8) as int], sq));
        }
    }
}

/// A consistent position passes the check: `validate` finds no fault.
pub proof fn lemma_consistent_valid(p: &Position)
    requires
        p.wf_board(),
    ensures
        fault_spec(p) is None,
{
    broadcast use group_bb;
    let both = p.occupancy[0] | p.occupancy[1];
    assert forall|s: int| 0 <= s < 64 implies sq_in(p.all, s) == sq_in(both, s) by {
    }
    lemma_bb_ext(p.all, both);
    assert forall|s: int| 0 <= s < 64 implies !sq_in(p.occupancy[0] & p.occupancy[1], s) by {
    }
    lemma_bb_empty(p.occupancy[0] & p.occupancy[1]);
    assert forall|c: int| 0 <= c < 2 implies union_of(p, c, 6) == p.occupancy[c] by {
        assert forall|s: int| 0 <= s < 64 implies sq_in(union_of(p, c, 6), s) == sq_in(p.occupancy[c], s) by {
            lemma_union_in(p, c, 6, s);
            if sq_in(p.occupancy[c], s) {
                let (cc, pp) = p.at(s).unwrap();
                assert(sq_in(p.pieces[c][pp.idx()], s));
            }
        }
        lemma_bb_ext(union_of(p, c, 6), p.occupancy[c]);
    }
    lemma_sq_faults_none(p, 0);
}

/// A position read from a FEN record is consistent: its history is empty,
/// its hash is the one computed from scratch from its content, side to
/// move, castling rights and en-passant square, `validate` finds no fault,
/// and missing clocks read as 0 and 1.
pub proof fn lemma_fen_position_valid(b: Seq<u8>, p: &Position)
    requires
        fen_spec(b) is Ok,
        p@ == fen_spec(b)->Ok_0,
        p.wf(),
    ensures
        p@.history.len() == 0,
        p@.zobrist == p@.full_hash(),
        fault_spec(p) is None,
        !has_word(b, 4) ==> p@.halfmove_clock == 0,
        !has_word(b, 5) ==> p@.fullmove == 1,
{
    lemma_consistent_valid(p);
}

} // verus!
