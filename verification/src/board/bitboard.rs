//! 64-bit bitboards: bit `s` set means square `s` is in the set.
use vstd::prelude::*;
use vstd::std_specs::bits::{u64_trailing_zeros, axiom_u64_trailing_zeros};

verus! {

/// Type alias for a 64-bit bitboard.
pub type Bitboard = u64;

pub const EMPTY: Bitboard = 0;
pub const FULL: Bitboard = 0xFFFF_FFFF_FFFF_FFFF;

pub const FILE_A: Bitboard = 0x0101010101010101;
pub const FILE_B: Bitboard = 0x0202020202020202;
pub const FILE_C: Bitboard = 0x0404040404040404;
pub const FILE_D: Bitboard = 0x0808080808080808;
pub const FILE_E: Bitboard = 0x1010101010101010;
pub const FILE_F: Bitboard = 0x2020202020202020;
pub const FILE_G: Bitboard = 0x4040404040404040;
pub const FILE_H: Bitboard = 0x8080808080808080;

pub const NOT_FILE_A: Bitboard = 0xFEFEFEFEFEFEFEFE;
pub const NOT_FILE_H: Bitboard = 0x7F7F7F7F7F7F7F7F;
pub const NOT_FILE_AB: Bitboard = 0xFCFCFCFCFCFCFCFC;
pub const NOT_FILE_GH: Bitboard = 0x3F3F3F3F3F3F3F3F;

pub const RANK_1: Bitboard = 0x00000000000000FF;
pub const RANK_2: Bitboard = 0x000000000000FF00;
pub const RANK_3: Bitboard = 0x0000000000FF0000;
pub const RANK_4: Bitboard = 0x00000000FF000000;
pub const RANK_5: Bitboard = 0x000000FF00000000;
pub const RANK_6: Bitboard = 0x0000FF0000000000;
pub const RANK_7: Bitboard = 0x00FF000000000000;
pub const RANK_8: Bitboard = 0xFF00000000000000;

/// Square `s` is in the bitboard `bb`.
pub open spec fn sq_in(bb: u64, s: int) -> bool {
    0 <= s < 64 && ((bb >> (s as u64)) & 1u64) == 1u64
}

/// Number of squares among the first `n` that are in `bb`.
pub open spec fn pop_upto(bb: u64, n: nat) -> nat
    decreases n,
{
    if n == 0 {
        0
    } else {
        pop_upto(bb, (n - 1) as nat) + if sq_in(bb, n - 1) { 1nat } else { 0nat }
    }
}

/// Number of squares in `bb`.
pub open spec fn pop_count(bb: u64) -> nat {
    pop_upto(bb, 64)
}

/// The lowest square of a bitboard (64 for the empty board).
pub open spec fn lsb_spec(bb: u64) -> u32 {
    u64_trailing_zeros(bb)
}

/// The bitboard holding exactly square `s`.
pub open spec fn bit_spec(s: int) -> u64 {
    (1u64 << (s as u64))
}

/// A single square's bitboard meets `x` exactly when `x` holds the square.
pub proof fn lemma_bit_and(t: int, x: u64)
    requires
        0 <= t < 64,
    ensures
        (bit_spec(t) & x != 0) == sq_in(x, t),
        (x & bit_spec(t) != 0) == sq_in(x, t),
{
    let u = t as u64;
    assert(u < 64 ==> (((1u64 << u) & x != 0) == ((x >> u) & 1u64 == 1u64)) && ((x & (1u64 << u) != 0) == ((x >> u) & 1u64 == 1u64))) by (bit_vector);
}

/// The squares of a bitboard from the lowest up.
pub open spec fn bb_squares(bb: u64) -> Seq<int>
    decreases bb,
{
    if bb == 0 {
        seq![]
    } else {
        proof {
            lemma_clear_lsb(bb);
        }
        seq![lsb_spec(bb) as int] + bb_squares(bb & ((bb - 1) as u64))
    }
}

/// A bitboard without its lowest square.
pub open spec fn clear_lsb(bb: u64) -> u64 {
    bb & ((bb - 1) as u64)
}

pub broadcast proof fn lemma_in_or(a: u64, b: u64, s: int)
    ensures
        #[trigger] sq_in(a | b, s) == (sq_in(a, s) || sq_in(b, s)),
{
    if 0 <= s < 64 {
        let t = s as u64;
        assert((((a | b) >> t) & 1u64 == 1u64) == (((a >> t) & 1u64 == 1u64) || ((b >> t) & 1u64
            == 1u64))) by (bit_vector);
    }
}

pub broadcast proof fn lemma_in_and(a: u64, b: u64, s: int)
    ensures
        #[trigger] sq_in(a & b, s) == (sq_in(a, s) && sq_in(b, s)),
{
    if 0 <= s < 64 {
        let t = s as u64;
        assert((((a & b) >> t) & 1u64 == 1u64) == (((a >> t) & 1u64 == 1u64) && ((b >> t) & 1u64
            == 1u64))) by (bit_vector);
    }
}

pub broadcast proof fn lemma_in_xor(a: u64, b: u64, s: int)
    ensures
        #[trigger] sq_in(a ^ b, s) == (0 <= s < 64 && sq_in(a, s) != sq_in(b, s)),
{
    if 0 <= s < 64 {
        let t = s as u64;
        assert((((a ^ b) >> t) & 1u64 == 1u64) == (((a >> t) & 1u64 == 1u64) != ((b >> t) & 1u64
            == 1u64))) by (bit_vector);
    }
}

pub broadcast proof fn lemma_in_not(a: u64, s: int)
    ensures
        #[trigger] sq_in(!a, s) == (0 <= s < 64 && !sq_in(a, s)),
{
    if 0 <= s < 64 {
        let t = s as u64;
        assert(t < 64 ==> (((!a) >> t) & 1u64 == 1u64) == !((a >> t) & 1u64 == 1u64))
            by (bit_vector);
    }
}

pub broadcast proof fn lemma_in_bit(t: int, s: int)
    requires
        0 <= t < 64,
    ensures
        #[trigger] sq_in(bit_spec(t), s) == (s == t),
{
    if 0 <= s < 64 {
        let a = t as u64;
        let b = s as u64;
        assert(a < 64 && b < 64 ==> ((((1u64 << a) >> b) & 1u64 == 1u64) == (a == b)))
            by (bit_vector);
    }
}

pub broadcast proof fn lemma_in_zero(s: int)
    ensures
        !#[trigger] sq_in(0u64, s),
{
    if 0 <= s < 64 {
        let t = s as u64;
        assert(((0u64 >> t) & 1u64) == 0u64) by (bit_vector);
    }
}

pub broadcast proof fn lemma_in_full(s: int)
    ensures
        #[trigger] sq_in(0xFFFF_FFFF_FFFF_FFFFu64, s) == (0 <= s < 64),
{
    if 0 <= s < 64 {
        let t = s as u64;
        assert(t < 64 ==> ((0xFFFF_FFFF_FFFF_FFFFu64 >> t) & 1u64) == 1u64) by (bit_vector);
    }
}

pub broadcast proof fn lemma_in_shr(x: u64, k: u64, t: int)
    requires
        k < 64,
    ensures
        #[trigger] sq_in(x >> k, t) == (0 <= t && t + k < 64 && sq_in(x, t + k)),
{
    if 0 <= t < 64 {
        let u = t as u64;
        assert((u < 64 && k < 64 && u + k < 64 ==> (((x >> k) >> u) & 1u64 == 1u64) == ((x >> ((u + k) as u64)) & 1u64 == 1u64))
            && (u < 64 && k < 64 && u + k >= 64 ==> ((x >> k) >> u) & 1u64 == 0u64)) by (bit_vector);
    }
}

pub broadcast proof fn lemma_in_shl(x: u64, k: u64, t: int)
    requires
        k < 64,
    ensures
        #[trigger] sq_in(x << k, t) == (k <= t < 64 && sq_in(x, t - k)),
{
    if 0 <= t < 64 {
        let u = t as u64;
        assert((u < 64 && k <= u ==> (((x << k) >> u) & 1u64 == 1u64) == ((x >> ((u - k) as u64)) & 1u64 == 1u64))
            && (u < 64 && k > u ==> ((x << k) >> u) & 1u64 == 0u64)) by (bit_vector);
    }
}

pub broadcast proof fn lemma_in_file_masks(s: int)
    ensures
        #[trigger] sq_in(NOT_FILE_A, s) == (0 <= s < 64 && s % 8 != 0),
        #[trigger] sq_in(NOT_FILE_H, s) == (0 <= s < 64 && s % 8 != 7),
        #[trigger] sq_in(NOT_FILE_AB, s) == (0 <= s < 64 && s % 8 >= 2),
        #[trigger] sq_in(NOT_FILE_GH, s) == (0 <= s < 64 && s % 8 <= 5),
        #[trigger] sq_in(FILE_A, s) == (0 <= s < 64 && s % 8 == 0),
        #[trigger] sq_in(FILE_H, s) == (0 <= s < 64 && s % 8 == 7),
{
    if 0 <= s < 64 {
        let t = s as u64;
        assert(t < 64 ==> (((0xFEFEFEFEFEFEFEFEu64 >> t) & 1u64 == 1u64) == (t % 8 != 0))
            && (((0x7F7F7F7F7F7F7F7Fu64 >> t) & 1u64 == 1u64) == (t % 8 != 7))
            && (((0xFCFCFCFCFCFCFCFCu64 >> t) & 1u64 == 1u64) == (t % 8 >= 2))
            && (((0x3F3F3F3F3F3F3F3Fu64 >> t) & 1u64 == 1u64) == (t % 8 <= 5))
            && (((0x0101010101010101u64 >> t) & 1u64 == 1u64) == (t % 8 == 0))
            && (((0x8080808080808080u64 >> t) & 1u64 == 1u64) == (t % 8 == 7))) by (bit_vector);
    }
}

pub broadcast group group_bb {
    lemma_in_or,
    lemma_in_and,
    lemma_in_xor,
    lemma_in_not,
    lemma_in_bit,
    lemma_in_zero,
    lemma_in_full,
}

/// Two bitboards with the same squares are equal.
pub proof fn lemma_bb_ext(a: u64, b: u64)
    requires
        forall|s: int| 0 <= s < 64 ==> sq_in(a, s) == sq_in(b, s),
    ensures
        a == b,
{
    if a != b {
        let x = a ^ b;
        assert(a ^ b != 0) by (bit_vector)
            requires
                a != b,
        ;
        axiom_u64_trailing_zeros(x);
        let t = u64_trailing_zeros(x);
        assert(t < 64);
        lemma_in_xor(a, b, t as int);
        assert(sq_in(x, t as int));
        assert(sq_in(a, t as int) == sq_in(b, t as int));
    }
}

/// A bitboard with no square is zero.
pub proof fn lemma_bb_empty(a: u64)
    requires
        forall|s: int| 0 <= s < 64 ==> !sq_in(a, s),
    ensures
        a == 0,
{
    broadcast use lemma_in_zero;
    lemma_bb_ext(a, 0);
}

/// A nonzero bitboard holds its lowest square, and no square below it.
pub proof fn lemma_lsb(bb: u64)
    ensures
        bb == 0 ==> lsb_spec(bb) == 64,
        bb != 0 ==> lsb_spec(bb) < 64 && sq_in(bb, lsb_spec(bb) as int),
        forall|s: int| 0 <= s < lsb_spec(bb) ==> !#[trigger] sq_in(bb, s),
{
    axiom_u64_trailing_zeros(bb);
    assert forall|s: int| 0 <= s < lsb_spec(bb) implies !#[trigger] sq_in(bb, s) by {
        let j = s as u64;
        assert(0 <= j < u64_trailing_zeros(bb));
    }
}

/// Clearing the lowest bit removes exactly the lowest square.
pub proof fn lemma_clear_lsb(bb: u64)
    requires
        bb != 0,
    ensures
        forall|s: int| #[trigger]
            sq_in(bb & ((bb - 1) as u64), s) == (sq_in(bb, s) && s != lsb_spec(bb) as int),
        (bb & ((bb - 1) as u64)) < bb,
{
    axiom_u64_trailing_zeros(bb);
    let tz = u64_trailing_zeros(bb) as u64;
    assert(tz < 64);
    assert(bb << ((64 - tz) as u64) == 0);
    assert forall|s: int| #[trigger]
        sq_in(bb & ((bb - 1) as u64), s) == (sq_in(bb, s) && s != lsb_spec(bb) as int) by {
        if 0 <= s < 64 {
            let t = s as u64;
            assert(bb != 0 && tz < 64 && t < 64 && (bb >> tz) & 1u64 == 1u64 && bb << ((64 - tz) as u64)
                == 0 ==> ((((bb & ((bb - 1) as u64)) >> t) & 1u64 == 1u64) == (((bb >> t) & 1u64 == 1u64)
                && t != tz))) by (bit_vector);
        }
    }
    assert(bb != 0 ==> (bb & ((bb - 1) as u64)) < bb) by (bit_vector);
}

pub fn lsb(bb: Bitboard) -> (r: u32)
    ensures
        r == lsb_spec(bb),
        bb == 0 ==> r == 64,
        bb != 0 ==> r < 64 && sq_in(bb, r as int),
        forall|s: int| 0 <= s < r ==> !#[trigger] sq_in(bb, s),
{
    proof {
        lemma_lsb(bb);
    }
    bb.trailing_zeros()
}

/// Removes the lowest square of a nonempty bitboard and returns it.
pub fn pop_lsb(bb: &mut Bitboard) -> (r: u32)
    requires
        *old(bb) != 0,
    ensures
        r == lsb_spec(*old(bb)),
        r < 64,
        sq_in(*old(bb), r as int),
        forall|s: int| 0 <= s < r ==> !#[trigger] sq_in(*old(bb), s),
        *final(bb) == *old(bb) & ((*old(bb) - 1) as u64),
        *final(bb) < *old(bb),
        forall|s: int| #[trigger] sq_in(*final(bb), s) == (sq_in(*old(bb), s) && s != r),
{
    let sq = lsb(*bb);
    proof {
        lemma_clear_lsb(*bb);
    }
    *bb &= *bb - 1;
    sq
}

/// A nonempty bitboard holds more than one square.
pub fn more_than_one(bb: Bitboard) -> (r: bool)
    requires
        bb != 0,
    ensures
        r == exists|s: int| #[trigger] sq_in(bb, s) && s != lsb_spec(bb) as int,
        r == (bb & ((bb - 1) as u64) != 0),
{
    proof {
        lemma_clear_lsb(bb);
        lemma_lsb(bb);
        let c = bb & ((bb - 1) as u64);
        if c != 0 {
            lemma_lsb(c);
            let t = lsb_spec(c) as int;
            assert(sq_in(c, t));
            assert(sq_in(bb, t) && t != lsb_spec(bb) as int);
        } else {
            assert forall|s: int| #[trigger] sq_in(bb, s) implies s == lsb_spec(bb) as int by {
                broadcast use lemma_in_zero;
                assert(!sq_in(c, s));
            }
        }
        
    }
    bb & (bb - 1) != 0
}

pub proof fn lemma_pop_upto_bound(bb: u64, n: nat)
    ensures
        pop_upto(bb, n) <= n,
    decreases n,
{
    if n > 0 {
        lemma_pop_upto_bound(bb, (n - 1) as nat);
    }
}

/// The empty board has no square.
pub proof fn lemma_pop_zero(n: nat)
    ensures
        pop_upto(0, n) == 0,
    decreases n,
{
    if n > 0 {
        lemma_pop_zero((n - 1) as nat);
        lemma_in_zero(n - 1);
    }
}

pub fn popcount(bb: Bitboard) -> (r: u32)
    ensures
        r == pop_count(bb),
        r <= 64,
        bb == 0 ==> r == 0,
{
    proof {
        lemma_pop_zero(64);
        lemma_pop_upto_bound(bb, 64);
    }
    let mut x = bb;
    let mut c: u32 = 0;
    while x != 0
        invariant
            c + pop_count(x) == pop_count(bb),
            pop_count(bb) <= 64,
        decreases x,
    {
        proof {
            lemma_clear_lsb(x);
            lemma_lsb(x);
            crate::eval::fold::lemma_pop_clear(x, 64);
        }
        x = x & (x - 1);
        c += 1;
    }
    c
}

pub fn bit(sq: u32) -> (r: Bitboard)
    requires
        sq < 64,
    ensures
        r == bit_spec(sq as int),
        forall|s: int| #[trigger] sq_in(r, s) == (s == sq),
{
    proof {
        broadcast use lemma_in_bit;
    }
    1u64 << sq
}

/// Shift north (towards rank 8).
pub fn north(bb: Bitboard) -> (r: Bitboard)
    ensures
        r == bb << 8u64,
        forall|s: int| #[trigger] sq_in(r, s) == (8 <= s < 64 && sq_in(bb, s - 8)),
{
    proof {
        assert forall|s: int| #[trigger] sq_in(bb << 8u64, s) == (8 <= s < 64 && sq_in(bb, s - 8)) by {
            lemma_in_shl(bb, 8u64, s);
        }
    }
    bb << 8
}

/// Shift south (towards rank 1).
pub fn south(bb: Bitboard) -> (r: Bitboard)
    ensures
        r == bb >> 8u64,
        forall|s: int| #[trigger] sq_in(r, s) == (0 <= s < 56 && sq_in(bb, s + 8)),
{
    proof {
        assert forall|s: int| #[trigger] sq_in(bb >> 8u64, s) == (0 <= s < 56 && sq_in(bb, s + 8)) by {
            lemma_in_shr(bb, 8u64, s);
        }
    }
    bb >> 8
}

pub fn east(bb: Bitboard) -> (r: Bitboard)
    ensures
        forall|s: int| #[trigger] sq_in(r, s) == (0 <= s < 64 && s % 8 != 0 && sq_in(bb, s - 1)),
{
    proof {
        let r = (bb & NOT_FILE_H) << 1u64;
        assert forall|s: int| #[trigger] sq_in(r, s) == (0 <= s < 64 && s % 8 != 0 && sq_in(bb, s - 1)) by {
            lemma_in_and(bb, NOT_FILE_H, s - 1);
            lemma_in_file_masks(s - 1);
            lemma_in_shl(bb & NOT_FILE_H, 1u64, s);
        }
    }
    (bb & NOT_FILE_H) << 1
}

pub fn west(bb: Bitboard) -> (r: Bitboard)
    ensures
        forall|s: int| #[trigger] sq_in(r, s) == (0 <= s < 64 && s % 8 != 7 && sq_in(bb, s + 1)),
{
    proof {
        let r = (bb & NOT_FILE_A) >> 1u64;
        assert forall|s: int| #[trigger] sq_in(r, s) == (0 <= s < 64 && s % 8 != 7 && sq_in(bb, s + 1)) by {
            lemma_in_and(bb, NOT_FILE_A, s + 1);
            lemma_in_file_masks(s + 1);
            lemma_in_shr(bb & NOT_FILE_A, 1u64, s);
        }
    }
    (bb & NOT_FILE_A) >> 1
}

pub fn north_east(bb: Bitboard) -> (r: Bitboard)
    ensures
        forall|s: int| #[trigger] sq_in(r, s) == (9 <= s < 64 && s % 8 != 0 && sq_in(bb, s - 9)),
{
    proof {
        let r = (bb & NOT_FILE_H) << 9u64;
        assert forall|s: int| #[trigger] sq_in(r, s) == (9 <= s < 64 && s % 8 != 0 && sq_in(bb, s - 9)) by {
            lemma_in_and(bb, NOT_FILE_H, s - 9);
            lemma_in_file_masks(s - 9);
            lemma_in_shl(bb & NOT_FILE_H, 9u64, s);
        }
    }
    (bb & NOT_FILE_H) << 9
}

pub fn north_west(bb: Bitboard) -> (r: Bitboard)
    ensures
        forall|s: int| #[trigger] sq_in(r, s) == (7 <= s < 64 && s % 8 != 7 && sq_in(bb, s - 7)),
{
    proof {
        let r = (bb & NOT_FILE_A) << 7u64;
        assert forall|s: int| #[trigger] sq_in(r, s) == (7 <= s < 64 && s % 8 != 7 && sq_in(bb, s - 7)) by {
            lemma_in_and(bb, NOT_FILE_A, s - 7);
            lemma_in_file_masks(s - 7);
            lemma_in_shl(bb & NOT_FILE_A, 7u64, s);
        }
    }
    (bb & NOT_FILE_A) << 7
}

pub fn south_east(bb: Bitboard) -> (r: Bitboard)
    ensures
        forall|s: int| #[trigger] sq_in(r, s) == (0 <= s < 57 && s % 8 != 0 && sq_in(bb, s + 7)),
{
    proof {
        let r = (bb & NOT_FILE_H) >> 7u64;
        assert forall|s: int| #[trigger] sq_in(r, s) == (0 <= s < 57 && s % 8 != 0 && sq_in(bb, s + 7)) by {
            lemma_in_and(bb, NOT_FILE_H, s + 7);
            lemma_in_file_masks(s + 7);
            lemma_in_shr(bb & NOT_FILE_H, 7u64, s);
        }
    }
    (bb & NOT_FILE_H) >> 7
}

pub fn south_west(bb: Bitboard) -> (r: Bitboard)
    ensures
        forall|s: int| #[trigger] sq_in(r, s) == (0 <= s < 55 && s % 8 != 7 && sq_in(bb, s + 9)),
{
    proof {
        let r = (bb & NOT_FILE_A) >> 9u64;
        assert forall|s: int| #[trigger] sq_in(r, s) == (0 <= s < 55 && s % 8 != 7 && sq_in(bb, s + 9)) by {
            lemma_in_and(bb, NOT_FILE_A, s + 9);
            lemma_in_file_masks(s + 9);
            lemma_in_shr(bb & NOT_FILE_A, 9u64, s);
        }
    }
    (bb & NOT_FILE_A) >> 9
}

} // verus!
