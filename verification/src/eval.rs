//! Static evaluation: material and piece-square tables blended by game
//! phase, pawn structure, rooks, mobility, threats, outposts, king safety
//! and king proximity in the endgame.
pub mod fold;
use vstd::prelude::*;
use crate::board::attacks::{bishop_attacks, king_attacks, knight_attacks, queen_attacks, rook_attacks, knight_bb, king_bb, rook_spec, bishop_spec};
use crate::board::bitboard::{Bitboard, pop_lsb, popcount, pop_count, lsb, lsb_spec, clear_lsb, lemma_clear_lsb, FILE_A, FILE_H, sq_in};
use crate::board::position::Position;
use crate::board::types::{file_of, rank_of, Color, Piece};
use fold::{sum_sq, lemma_sum_bound64};

verus! {

// Material values
pub const MG_MAT: [i32; 6] = [82, 337, 365, 477, 1025, 0];
pub const EG_MAT: [i32; 6] = [94, 281, 297, 512, 936, 0];
pub const PHASE_INC: [i32; 6] = [0, 1, 1, 2, 4, 0];
pub const TOTAL_PHASE: i32 = 24;

// Piece-square tables (a1 = 0, h8 = 63, white's perspective)
pub const MG_PAWN: [i32; 64] = [
    0,   0,   0,   0,   0,   0,   0,   0,
    5,  10,  10, -20, -20,  10,  10,   5,
    5,  -5, -10,   0,   0, -10,  -5,   5,
    0,   0,   0,  20,  20,   0,   0,   0,
    5,   5,  10,  25,  25,  10,   5,   5,
   10,  10,  20,  30,  30,  20,  10,  10,
   50,  50,  50,  50,  50,  50,  50,  50,
    0,   0,   0,   0,   0,   0,   0,   0,
];
pub const EG_PAWN: [i32; 64] = [
    0,   0,   0,   0,   0,   0,   0,   0,
   -3,  -3,  -3,  -3,  -3,  -3,  -3,  -3,
   -3,  -3,  -3,  -3,  -3,  -3,  -3,  -3,
    5,   5,   5,   5,   5,   5,   5,   5,
   10,  10,  10,  10,  10,  10,  10,  10,
   20,  20,  20,  20,  20,  20,  20,  20,
   50,  50,  50,  50,  50,  50,  50,  50,
    0,   0,   0,   0,   0,   0,   0,   0,
];
pub const MG_KNIGHT: [i32; 64] = [
  -50, -40, -30, -30, -30, -30, -40, -50,
  -40, -20,   0,   5,   5,   0, -20, -40,
  -30,   5,  10,  15,  15,  10,   5, -30,
  -30,   0,  15,  20,  20,  15,   0, -30,
  -30,   5,  15,  20,  20,  15,   5, -30,
  -30,   0,  10,  15,  15,  10,   0, -30,
  -40, -20,   0,   0,   0,   0, -20, -40,
  -50, -40, -30, -30, -30, -30, -40, -50,
];
pub const MG_BISHOP: [i32; 64] = [
  -20, -10, -10, -10, -10, -10, -10, -20,
  -10,   5,   0,   0,   0,   0,   5, -10,
  -10,  10,  10,  10,  10,  10,  10, -10,
  -10,   0,  10,  10,  10,  10,   0, -10,
  -10,   5,   5,  10,  10,   5,   5, -10,
  -10,   0,   5,  10,  10,   5,   0, -10,
  -10,   0,   0,   0,   0,   0,   0, -10,
  -20, -10, -10, -10, -10, -10, -10, -20,
];
pub const MG_ROOK: [i32; 64] = [
    0,   0,   0,   5,   5,   0,   0,   0,
   -5,   0,   0,   0,   0,   0,   0,  -5,
   -5,   0,   0,   0,   0,   0,   0,  -5,
   -5,   0,   0,   0,   0,   0,   0,  -5,
   -5,   0,   0,   0,   0,   0,   0,  -5,
   -5,   0,   0,   0,   0,   0,   0,  -5,
    5,  10,  10,  10,  10,  10,  10,   5,
    0,   0,   0,   0,   0,   0,   0,   0,
];
pub const MG_QUEEN: [i32; 64] = [
  -20, -10, -10,  -5,  -5, -10, -10, -20,
  -10,   0,   5,   0,   0,   0,   0, -10,
  -10,   5,   5,   5,   5,   5,   0, -10,
    0,   0,   5,   5,   5,   5,   0,  -5,
   -5,   0,   5,   5,   5,   5,   0,  -5,
  -10,   0,   5,   5,   5,   5,   0, -10,
  -10,   0,   0,   0,   0,   0,   0, -10,
  -20, -10, -10,  -5,  -5, -10, -10, -20,
];
pub const MG_KING: [i32; 64] = [
   20,  30,  10,   0,   0,  10,  30,  20,
   20,  20,   0,   0,   0,   0,  20,  20,
  -10, -20, -20, -20, -20, -20, -20, -10,
  -20, -30, -30, -40, -40, -30, -30, -20,
  -30, -40, -40, -50, -50, -40, -40, -30,
  -30, -40, -40, -50, -50, -40, -40, -30,
  -30, -40, -40, -50, -50, -40, -40, -30,
  -30, -40, -40, -50, -50, -40, -40, -30,
];
pub const EG_KING: [i32; 64] = [
  -50, -30, -30, -30, -30, -30, -30, -50,
  -30, -30,   0,   0,   0,   0, -30, -30,
  -30, -10,  20,  30,  30,  20, -10, -30,
  -30, -10,  30,  40,  40,  30, -10, -30,
  -30, -10,  30,  40,  40,  30, -10, -30,
  -30, -10,  20,  30,  30,  20, -10, -30,
  -30, -20, -10,   0,   0, -10, -20, -30,
  -50, -40, -30, -20, -20, -30, -40, -50,
];

/// Middlegame piece-square value of piece kind `p` on `sq` (white's view).
pub open spec fn mg_pst_spec(p: int, sq: int) -> int {
    if p == 0 { MG_PAWN[sq] as int } else if p == 1 { MG_KNIGHT[sq] as int } else if p == 2 { MG_BISHOP[sq] as int }
    else if p == 3 { MG_ROOK[sq] as int } else if p == 4 { MG_QUEEN[sq] as int } else { MG_KING[sq] as int }
}

/// Endgame piece-square value (knight to queen share the middlegame tables).
pub open spec fn eg_pst_spec(p: int, sq: int) -> int {
    if p == 0 { EG_PAWN[sq] as int } else if p == 1 { MG_KNIGHT[sq] as int } else if p == 2 { MG_BISHOP[sq] as int }
    else if p == 3 { MG_ROOK[sq] as int } else if p == 4 { MG_QUEEN[sq] as int } else { EG_KING[sq] as int }
}

pub proof fn lemma_tables_bound(p: int, sq: int)
    requires
        0 <= p < 6,
        0 <= sq < 64,
    ensures
        -50 <= mg_pst_spec(p, sq) <= 50,
        -50 <= eg_pst_spec(p, sq) <= 50,
{
    assert(forall|i: int| 0 <= i < 64 ==> -50 <= #[trigger] MG_PAWN[i] <= 50);
    assert(forall|i: int| 0 <= i < 64 ==> -50 <= #[trigger] EG_PAWN[i] <= 50);
    assert(forall|i: int| 0 <= i < 64 ==> -50 <= #[trigger] MG_KNIGHT[i] <= 50);
    assert(forall|i: int| 0 <= i < 64 ==> -50 <= #[trigger] MG_BISHOP[i] <= 50);
    assert(forall|i: int| 0 <= i < 64 ==> -50 <= #[trigger] MG_ROOK[i] <= 50);
    assert(forall|i: int| 0 <= i < 64 ==> -50 <= #[trigger] MG_QUEEN[i] <= 50);
    assert(forall|i: int| 0 <= i < 64 ==> -50 <= #[trigger] MG_KING[i] <= 50);
    assert(forall|i: int| 0 <= i < 64 ==> -50 <= #[trigger] EG_KING[i] <= 50);
}

fn mg_pst(p: usize, sq: usize) -> (r: i32)
    requires
        p < 6,
        sq < 64,
    ensures
        r == mg_pst_spec(p as int, sq as int),
{
    if p == 0 { MG_PAWN[sq] } else if p == 1 { MG_KNIGHT[sq] } else if p == 2 { MG_BISHOP[sq] }
    else if p == 3 { MG_ROOK[sq] } else if p == 4 { MG_QUEEN[sq] } else { MG_KING[sq] }
}

fn eg_pst(p: usize, sq: usize) -> (r: i32)
    requires
        p < 6,
        sq < 64,
    ensures
        r == eg_pst_spec(p as int, sq as int),
{
    if p == 0 { EG_PAWN[sq] } else if p == 1 { MG_KNIGHT[sq] } else if p == 2 { MG_BISHOP[sq] }
    else if p == 3 { MG_ROOK[sq] } else if p == 4 { MG_QUEEN[sq] } else { EG_KING[sq] }
}

/// +1 for white, -1 for black.
pub open spec fn sign(c: int) -> int {
    if c == 0 { 1 } else { -1 }
}

/// The square whose table entry a piece of color `c` on `sq` reads (black
/// reads the board mirrored top to bottom).
pub open spec fn pst_sq(c: int, sq: int) -> int {
    if c == 0 { sq } else { (7 - sq / 8) * 8 + sq % 8 }
}

pub open spec fn mat_mg_f(c: int, p: int) -> spec_fn(int) -> int {
    |sq: int| sign(c) * (MG_MAT[p] + mg_pst_spec(p, pst_sq(c, sq)))
}

pub open spec fn mat_eg_f(c: int, p: int) -> spec_fn(int) -> int {
    |sq: int| sign(c) * (EG_MAT[p] + eg_pst_spec(p, pst_sq(c, sq)))
}

pub open spec fn const_f(x: int) -> spec_fn(int) -> int {
    |sq: int| x
}

/// Material and table score (middlegame) of the first `k` of the twelve
/// (color, kind) bitboards.
pub open spec fn mat_mg(pcs: [[u64; 6]; 2], k: int) -> int
    decreases k,
{
    if k <= 0 { 0 } else { mat_mg(pcs, k - 1) + sum_sq(pcs[(k - 1) / 6][(k - 1) % 6], mat_mg_f((k - 1) / 6, (k - 1) % 6)) }
}

pub open spec fn mat_eg(pcs: [[u64; 6]; 2], k: int) -> int
    decreases k,
{
    if k <= 0 { 0 } else { mat_eg(pcs, k - 1) + sum_sq(pcs[(k - 1) / 6][(k - 1) % 6], mat_eg_f((k - 1) / 6, (k - 1) % 6)) }
}

/// Game phase from the pieces (before capping at 24).
pub open spec fn phase_raw(pcs: [[u64; 6]; 2], k: int) -> int
    decreases k,
{
    if k <= 0 { 0 } else { phase_raw(pcs, k - 1) + sum_sq(pcs[(k - 1) / 6][(k - 1) % 6], const_f(PHASE_INC[(k - 1) % 6] as int)) }
}

/// Material, table scores and phase of all pieces.
fn material(pos: &Position) -> (r: (i32, i32, i32))
    ensures
        r.0 == mat_mg(pos.pieces, 12),
        r.1 == mat_eg(pos.pieces, 12),
        r.2 == phase_raw(pos.pieces, 12),
        -1_000_000 <= r.0 <= 1_000_000,
        -1_000_000 <= r.1 <= 1_000_000,
        0 <= r.2 <= 4 * 64 * 12,
{
    let mut mg: i32 = 0;
    let mut eg: i32 = 0;
    let mut phase: i32 = 0;
    let mut k: usize = 0;
    while k < 12
        invariant
            k <= 12,
            mg == mat_mg(pos.pieces, k as int),
            eg == mat_eg(pos.pieces, k as int),
            phase == phase_raw(pos.pieces, k as int),
            -76800 * (k as int) <= mg <= 76800 * (k as int),
            -76800 * (k as int) <= eg <= 76800 * (k as int),
            0 <= phase <= 256 * (k as int),
        decreases 12 - k,
    {
        let color = k / 6;
        let piece = k % 6;
        let sgn: i32 = if color == 0 { 1 } else { -1 };
        let ghost fm = mat_mg_f(color as int, piece as int);
        let ghost fe = mat_eg_f(color as int, piece as int);
        let ghost fp = const_f(PHASE_INC[piece as int] as int);
        let ghost start = pos.pieces[color as int][piece as int];
        let ghost mg0 = mg as int;
        let ghost eg0 = eg as int;
        let ghost ph0 = phase as int;
        proof {
            assert forall|q: int| 0 <= q < 64 implies -1200 <= #[trigger] fm(q) <= 1200 && -1200 <= fe(q) <= 1200 && 0 <= fp(q) <= 4 by {
                lemma_tables_bound(piece as int, pst_sq(color as int, q));
            }
            lemma_sum_bound64(start, fm, 1200);
            lemma_sum_bound64(start, fe, 1200);
            lemma_sum_bound64(start, fp, 4);
            fold::lemma_sum_nonneg(start, fp);
        }
        let mut bb = pos.pieces[color][piece];
        while bb != 0
            invariant
                color < 2,
                piece < 6,
                sgn == sign(color as int),
                fm == mat_mg_f(color as int, piece as int),
                fe == mat_eg_f(color as int, piece as int),
                fp == const_f(PHASE_INC[piece as int] as int),
                mg + sum_sq(bb, fm) == mg0 + sum_sq(start, fm),
                eg + sum_sq(bb, fe) == eg0 + sum_sq(start, fe),
                phase + sum_sq(bb, fp) == ph0 + sum_sq(start, fp),
                -1200 * 64 <= sum_sq(start, fm) <= 1200 * 64,
                -1200 * 64 <= sum_sq(start, fe) <= 1200 * 64,
                0 <= sum_sq(start, fp) <= 4 * 64,
                -76800 * (k as int) <= mg0 <= 76800 * (k as int),
                -76800 * (k as int) <= eg0 <= 76800 * (k as int),
                0 <= ph0 <= 256 * (k as int),
                k < 12,
            decreases bb,
        {
            let ghost before = bb;
            proof {
                lemma_clear_lsb(before);
                assert forall|q: int| 0 <= q < 64 implies -1200 <= #[trigger] fm(q) <= 1200 && -1200 <= fe(q) <= 1200 && 0 <= fp(q) <= 4 by {
                    lemma_tables_bound(piece as int, pst_sq(color as int, q));
                }
                lemma_sum_bound64(clear_lsb(before), fm, 1200);
                lemma_sum_bound64(clear_lsb(before), fe, 1200);
                fold::lemma_sum_nonneg(clear_lsb(before), fp);
                lemma_sum_bound64(clear_lsb(before), fp, 4);
            }
            let sq = pop_lsb(&mut bb) as usize;
            let pst = if color == 0 { sq } else { sq ^ 56 };
            proof {
                assert(sq < 64 ==> sq ^ 56 == (7 - sq / 8) * 8 + sq % 8) by (bit_vector);
                lemma_tables_bound(piece as int, pst as int);
            }
            mg += sgn * (MG_MAT[piece] + mg_pst(piece, pst));
            eg += sgn * (EG_MAT[piece] + eg_pst(piece, pst));
            phase += PHASE_INC[piece];
        }
        assert(sum_sq(0, fm) == 0 && sum_sq(0, fe) == 0 && sum_sq(0, fp) == 0);
        assert(mg == mg0 + sum_sq(start, fm));
        assert(-76800 * (k as int + 1) <= mg <= 76800 * (k as int + 1));
        assert(-76800 * (k as int + 1) <= eg <= 76800 * (k as int + 1));
        k += 1;
    }
    (mg, eg, phase)
}

// Passed pawn bonuses by rank
pub const PASSED_MG: [i32; 8] = [0, 10, 15, 25, 40, 65, 100, 0];
pub const PASSED_EG: [i32; 8] = [0, 20, 30, 50, 75, 110, 160, 0];

// Pawn structure penalties
pub const DOUBLED_MG: i32 = 10;
pub const DOUBLED_EG: i32 = 20;
pub const ISOLATED_MG: i32 = 15;
pub const ISOLATED_EG: i32 = 10;
pub const BACKWARD_MG: i32 = 12;
pub const BACKWARD_EG: i32 = 15;

/// The squares attacked by the pawns of `pawns` (white if `color` is 0).
pub open spec fn pawn_attack_spec(pawns: u64, color: int) -> u64 {
    if color == 0 {
        ((pawns & !FILE_A) << 7u64) | ((pawns & !FILE_H) << 9u64)
    } else {
        ((pawns & !FILE_H) >> 7u64) | ((pawns & !FILE_A) >> 9u64)
    }
}

/// Bulk pawn attack bitboard for all pawns of given color.
fn pawn_attack_bb(pawns: u64, color: usize) -> (r: u64)
    ensures
        r == pawn_attack_spec(pawns, color as int),
{
    if color == 0 {
        ((pawns & !FILE_A) << 7) | ((pawns & !FILE_H) << 9)
    } else {
        ((pawns & !FILE_H) >> 7) | ((pawns & !FILE_A) >> 9)
    }
}

/// The bitboard of a file.
pub open spec fn file_bb(f: int) -> u64 {
    FILE_A << (f as u64)
}

/// The files next to file `f`.
pub open spec fn adj_files(f: int) -> u64 {
    (if f > 0 { FILE_A << ((f - 1) as u64) } else { 0u64 }) | (if f < 7 { FILE_A << ((f + 1) as u64) } else { 0u64 })
}

fn adj_files_of(file: u32) -> (r: u64)
    requires
        file < 8,
    ensures
        r == adj_files(file as int),
{
    (if file > 0 { FILE_A << (file - 1) } else { 0 }) | (if file < 7 { FILE_A << (file + 1) } else { 0 })
}

/// Squares on the files next to `sq` on its rank or below (for a white
/// pawn below the last rank).
pub open spec fn backward_white_spec(sq: int) -> u64 {
    adj_files(sq % 8) & (((1u64 << (((sq / 8) + 1) * 8) as u64) - 1) as u64)
}

/// Squares on the files next to `sq` on its rank or above.
pub open spec fn backward_black_spec(sq: int) -> u64 {
    adj_files(sq % 8) & (!0u64 << ((sq / 8) * 8) as u32)
}

/// Squares on the file of `sq` and the files next to it, above its rank.
pub open spec fn passed_white_spec(sq: int) -> u64 {
    (file_bb(sq % 8) | adj_files(sq % 8)) & (!0u64 << (8 * (sq / 8 + 1)) as u32)
}

/// Squares on the file of `sq` and the files next to it, below its rank.
pub open spec fn passed_black_spec(sq: int) -> u64 {
    (file_bb(sq % 8) | adj_files(sq % 8)) & !(!0u64 << (8 * (sq / 8)) as u32)
}

fn backward_support_mask_white(sq: u32) -> (r: u64)
    requires
        sq < 56,
    ensures
        r == backward_white_spec(sq as int),
{
    let file = file_of(sq);
    let rank = rank_of(sq);
    let adj = adj_files_of(file);
    let rank_mask = (1u64 << ((rank + 1) * 8)).wrapping_sub(1);
    proof {
        let k = ((rank + 1) * 8) as u64;
        assert(k < 64 ==> (1u64 << k) >= 1) by (bit_vector);
    }
    adj & rank_mask
}

fn backward_support_mask_black(sq: u32) -> (r: u64)
    requires
        sq < 64,
    ensures
        r == backward_black_spec(sq as int),
{
    let file = file_of(sq);
    let rank = rank_of(sq);
    let adj = adj_files_of(file);
    let rank_mask = !0u64 << (rank * 8);
    adj & rank_mask
}

fn passed_mask_white(sq: u32) -> (r: u64)
    requires
        sq < 56,
    ensures
        r == passed_white_spec(sq as int),
{
    let file = file_of(sq);
    let files = (FILE_A << file) | adj_files_of(file);
    files & (!0u64 << (8 * (rank_of(sq) + 1)))
}

fn passed_mask_black(sq: u32) -> (r: u64)
    requires
        sq < 64,
    ensures
        r == passed_black_spec(sq as int),
{
    let file = file_of(sq);
    let files = (FILE_A << file) | adj_files_of(file);
    files & !(!0u64 << (8 * rank_of(sq)))
}

/// Middlegame pawn-structure term of a white pawn on `sq`.
pub open spec fn pawn_w_mg(wp: u64, bp: u64, bpa: u64) -> spec_fn(int) -> int {
    |sq: int| {
        let r = sq / 8;
        let f = sq % 8;
        (if bp & passed_white_spec(sq) == 0 { PASSED_MG[r] as int } else { 0 })
            - (if (wp ^ (1u64 << sq as u32)) & file_bb(f) != 0 { 10int } else { 0 })
            - (if wp & adj_files(f) == 0 { 15int } else { 0 })
            - (if sq < 56 && bpa & (1u64 << (sq + 8) as u32) != 0 && wp & backward_white_spec(sq) == 0 { 12int } else { 0 })
    }
}

pub open spec fn pawn_w_eg(wp: u64, bp: u64, bpa: u64) -> spec_fn(int) -> int {
    |sq: int| {
        let r = sq / 8;
        let f = sq % 8;
        (if bp & passed_white_spec(sq) == 0 { PASSED_EG[r] as int } else { 0 })
            - (if (wp ^ (1u64 << sq as u32)) & file_bb(f) != 0 { 20int } else { 0 })
            - (if wp & adj_files(f) == 0 { 10int } else { 0 })
            - (if sq < 56 && bpa & (1u64 << (sq + 8) as u32) != 0 && wp & backward_white_spec(sq) == 0 { 15int } else { 0 })
    }
}

/// Middlegame pawn-structure term of a black pawn on `sq`, the mirror of
/// the white term: passed when no white pawn stands ahead of it (below its
/// rank) on its file or the files next to it, with the bonus of the
/// mirrored rank.
pub open spec fn pawn_b_mg(wp: u64, bp: u64, wpa: u64) -> spec_fn(int) -> int {
    |sq: int| {
        let m = (7 - sq / 8) * 8 + sq % 8;
        let f = sq % 8;
        -(if wp & passed_black_spec(sq) == 0 { PASSED_MG[m / 8] as int } else { 0 })
            + (if (bp ^ (1u64 << sq as u32)) & file_bb(f) != 0 { 10int } else { 0 })
            + (if bp & adj_files(f) == 0 { 15int } else { 0 })
            + (if sq >= 8 && wpa & (1u64 << (sq - 8) as u32) != 0 && bp & backward_black_spec(sq) == 0 { 12int } else { 0 })
    }
}

pub open spec fn pawn_b_eg(wp: u64, bp: u64, wpa: u64) -> spec_fn(int) -> int {
    |sq: int| {
        let m = (7 - sq / 8) * 8 + sq % 8;
        let f = sq % 8;
        -(if wp & passed_black_spec(sq) == 0 { PASSED_EG[m / 8] as int } else { 0 })
            + (if (bp ^ (1u64 << sq as u32)) & file_bb(f) != 0 { 20int } else { 0 })
            + (if bp & adj_files(f) == 0 { 10int } else { 0 })
            + (if sq >= 8 && wpa & (1u64 << (sq - 8) as u32) != 0 && bp & backward_black_spec(sq) == 0 { 15int } else { 0 })
    }
}

/// No white pawn on the last rank and no black pawn on the first.
pub open spec fn pawns_inside(pcs: [[u64; 6]; 2]) -> bool {
    pcs[0][0] & 0xFF00_0000_0000_0000u64 == 0 && pcs[1][0] & 0xFFu64 == 0
}

/// Pawn structure score (middlegame, endgame).
pub open spec fn pawns_spec(pcs: [[u64; 6]; 2]) -> (int, int) {
    let wp = pcs[0][0];
    let bp = pcs[1][0];
    let wpa = pawn_attack_spec(wp, 0);
    let bpa = pawn_attack_spec(bp, 1);
    (sum_sq(wp, pawn_w_mg(wp, bp, bpa)) + sum_sq(bp, pawn_b_mg(wp, bp, wpa)),
     sum_sq(wp, pawn_w_eg(wp, bp, bpa)) + sum_sq(bp, pawn_b_eg(wp, bp, wpa)))
}

proof fn lemma_table8(i: int)
    requires
        0 <= i < 8,
    ensures
        0 <= PASSED_MG[i] <= 100,
        0 <= PASSED_EG[i] <= 160,
{
}

/// Sum of the white pawn terms.
fn pawns_white(wp: u64, bp: u64, bp_attacks: u64) -> (r: (i32, i32))
    requires
        wp & 0xFF00_0000_0000_0000u64 == 0,
    ensures
        r.0 == sum_sq(wp, pawn_w_mg(wp, bp, bp_attacks)),
        r.1 == sum_sq(wp, pawn_w_eg(wp, bp, bp_attacks)),
        -12800 <= r.0 <= 12800,
        -12800 <= r.1 <= 12800,
{
    let mut mg = 0i32;
    let mut eg = 0i32;
    let ghost fwm = pawn_w_mg(wp, bp, bp_attacks);
    let ghost fwe = pawn_w_eg(wp, bp, bp_attacks);
    proof {
        assert forall|q: int| 0 <= q < 64 implies -200 <= #[trigger] fwm(q) <= 200 && -200 <= fwe(q) <= 200 by {
            lemma_table8(q / 8);
        }
        lemma_sum_bound64(wp, fwm, 200);
        lemma_sum_bound64(wp, fwe, 200);
    }
    let mut bb = wp;
    while bb != 0
        invariant
            wp & 0xFF00_0000_0000_0000u64 == 0,
            fwm == pawn_w_mg(wp, bp, bp_attacks),
            fwe == pawn_w_eg(wp, bp, bp_attacks),
            forall|q: int| 0 <= q < 64 ==> -200 <= #[trigger] fwm(q) <= 200 && -200 <= fwe(q) <= 200,
            sq_in_sub(bb, wp),
            mg + sum_sq(bb, fwm) == sum_sq(wp, fwm),
            eg + sum_sq(bb, fwe) == sum_sq(wp, fwe),
            -12800 <= sum_sq(wp, fwm) <= 12800,
            -12800 <= sum_sq(wp, fwe) <= 12800,
        decreases bb,
    {
        let ghost before = bb;
        proof {
            lemma_clear_lsb(before);
            lemma_sum_bound64(clear_lsb(before), fwm, 200);
            lemma_sum_bound64(clear_lsb(before), fwe, 200);
        }
        let sq = pop_lsb(&mut bb);
        proof {
            lemma_sub_step(before, wp, sq);
            lemma_last_rank(wp, sq);
        }
        let rank = rank_of(sq) as usize;
        let file = file_of(sq);
        let file_mask = FILE_A << file;
        let mut dm: i32 = 0;
        let mut de: i32 = 0;
        if bp & passed_mask_white(sq) == 0 {
            dm += PASSED_MG[rank];
            de += PASSED_EG[rank];
        }
        if (wp ^ (1u64 << sq)) & file_mask != 0 {
            dm -= DOUBLED_MG;
            de -= DOUBLED_EG;
        }
        let adj = adj_files_of(file);
        if wp & adj == 0 {
            dm -= ISOLATED_MG;
            de -= ISOLATED_EG;
        }
        // Backward pawn: square in front attacked by black pawn, no supporting pawn behind
        if sq < 56 {
            let stop = 1u64 << (sq + 8);
            if bp_attacks & stop != 0 && wp & backward_support_mask_white(sq) == 0 {
                dm -= BACKWARD_MG;
                de -= BACKWARD_EG;
            }
        }
        assert(dm == fwm(sq as int));
        assert(de == fwe(sq as int));
        mg += dm;
        eg += de;
    }
    (mg, eg)
}

/// Sum of the black pawn terms.
fn pawns_black(wp: u64, bp: u64, wp_attacks: u64) -> (r: (i32, i32))
    requires
        bp & 0xFFu64 == 0,
    ensures
        r.0 == sum_sq(bp, pawn_b_mg(wp, bp, wp_attacks)),
        r.1 == sum_sq(bp, pawn_b_eg(wp, bp, wp_attacks)),
        -12800 <= r.0 <= 12800,
        -12800 <= r.1 <= 12800,
{
    let mut mg = 0i32;
    let mut eg = 0i32;
    let ghost fbm = pawn_b_mg(wp, bp, wp_attacks);
    let ghost fbe = pawn_b_eg(wp, bp, wp_attacks);
    proof {
        assert forall|q: int| 0 <= q < 64 implies -200 <= #[trigger] fbm(q) <= 200 && -200 <= fbe(q) <= 200 by {
            lemma_table8(((7 - q / 8) * 8 + q % 8) / 8);
        }
        lemma_sum_bound64(bp, fbm, 200);
        lemma_sum_bound64(bp, fbe, 200);
    }
    let mut bb = bp;
    while bb != 0
        invariant
            bp & 0xFFu64 == 0,
            fbm == pawn_b_mg(wp, bp, wp_attacks),
            fbe == pawn_b_eg(wp, bp, wp_attacks),
            forall|q: int| 0 <= q < 64 ==> -200 <= #[trigger] fbm(q) <= 200 && -200 <= fbe(q) <= 200,
            sq_in_sub(bb, bp),
            mg + sum_sq(bb, fbm) == sum_sq(bp, fbm),
            eg + sum_sq(bb, fbe) == sum_sq(bp, fbe),
            -12800 <= sum_sq(bp, fbm) <= 12800,
            -12800 <= sum_sq(bp, fbe) <= 12800,
        decreases bb,
    {
        let ghost before = bb;
        proof {
            lemma_clear_lsb(before);
            lemma_sum_bound64(clear_lsb(before), fbm, 200);
            lemma_sum_bound64(clear_lsb(before), fbe, 200);
        }
        let sq = pop_lsb(&mut bb);
        proof {
            lemma_sub_step(before, bp, sq);
            lemma_first_rank(bp, sq);
        }
        let msq = sq ^ 56;
        proof {
            assert(sq < 64 ==> sq ^ 56 == (7 - sq / 8) * 8 + sq % 8) by (bit_vector);
        }
        let rank = rank_of(msq) as usize;
        let file = file_of(sq);
        let file_mask = FILE_A << file;
        let mut dm: i32 = 0;
        let mut de: i32 = 0;
        if wp & passed_mask_black(sq) == 0 {
            dm -= PASSED_MG[rank];
            de -= PASSED_EG[rank];
        }
        if (bp ^ (1u64 << sq)) & file_mask != 0 {
            dm += DOUBLED_MG;
            de += DOUBLED_EG;
        }
        let adj = adj_files_of(file);
        if bp & adj == 0 {
            dm += ISOLATED_MG;
            de += ISOLATED_EG;
        }
        // Backward pawn for black
        if sq >= 8 {
            let stop = 1u64 << (sq - 8);
            if wp_attacks & stop != 0 && bp & backward_support_mask_black(sq) == 0 {
                dm += BACKWARD_MG;
                de += BACKWARD_EG;
            }
        }
        assert(dm == fbm(sq as int));
        assert(de == fbe(sq as int));
        mg += dm;
        eg += de;
    }
    (mg, eg)
}

fn eval_pawns(pos: &Position) -> (r: (i32, i32))
    requires
        pawns_inside(pos.pieces),
    ensures
        r.0 == pawns_spec(pos.pieces).0,
        r.1 == pawns_spec(pos.pieces).1,
        -25600 <= r.0 <= 25600,
        -25600 <= r.1 <= 25600,
{
    let wp = pos.pieces[0][Piece::Pawn.index()];
    let bp = pos.pieces[1][Piece::Pawn.index()];
    let wp_attacks = pawn_attack_bb(wp, 0);
    let bp_attacks = pawn_attack_bb(bp, 1);
    let (wm, we) = pawns_white(wp, bp, bp_attacks);
    let (bm, be) = pawns_black(wp, bp, wp_attacks);
    (wm + bm, we + be)
}

/// A square of a bitboard without its last rank is below it.
proof fn lemma_last_rank(b: u64, sq: u32)
    requires
        b & 0xFF00_0000_0000_0000u64 == 0,
        crate::board::bitboard::sq_in(b, sq as int),
    ensures
        sq < 56,
{
    lemma_edge_ranks(b, sq as u64);
}

/// A square of a bitboard lies off a rank the bitboard leaves empty.
proof fn lemma_edge_ranks(b: u64, s: u64)
    ensures
        s < 64 && (b >> s) & 1 == 1 && b & 0xFF00_0000_0000_0000u64 == 0 ==> s < 56,
        s < 64 && (b >> s) & 1 == 1 && b & 0xFFu64 == 0 ==> s >= 8,
{
    assert((s < 64 && (b >> s) & 1 == 1 && b & 0xFF00_0000_0000_0000u64 == 0 ==> s < 56)
        && (s < 64 && (b >> s) & 1 == 1 && b & 0xFFu64 == 0 ==> s >= 8)) by (bit_vector);
}

/// A square of a bitboard without its first rank is above it.
proof fn lemma_first_rank(b: u64, sq: u32)
    requires
        b & 0xFFu64 == 0,
        crate::board::bitboard::sq_in(b, sq as int),
    ensures
        sq >= 8,
{
    lemma_edge_ranks(b, sq as u64);
}

/// Every square of `a` is a square of `b`.
pub open spec fn sq_in_sub(a: u64, b: u64) -> bool {
    forall|s: int| #[trigger] crate::board::bitboard::sq_in(a, s) ==> crate::board::bitboard::sq_in(b, s)
}

proof fn lemma_sub_step(before: u64, whole: u64, sq: u32)
    requires
        before != 0,
        sq_in_sub(before, whole),
        sq == lsb_spec(before),
    ensures
        sq_in_sub(clear_lsb(before), whole),
        crate::board::bitboard::sq_in(whole, sq as int),
        sq < 64,
{
    lemma_clear_lsb(before);
    crate::board::bitboard::lemma_lsb(before);
}

// Piece bonuses
pub const BISHOP_PAIR_MG: i32 = 30;
pub const BISHOP_PAIR_EG: i32 = 45;
pub const ROOK_OPEN_MG: i32 = 25;
pub const ROOK_SEMIOPEN_MG: i32 = 12;
pub const ROOK_SEVENTH_MG: i32 = 20;
pub const ROOK_SEVENTH_EG: i32 = 30;

/// Rook term of color `c` (open and half-open files, seventh rank).
pub open spec fn rook_mg_f(c: int, own_p: u64, opp_p: u64) -> spec_fn(int) -> int {
    |sq: int| {
        let file = file_bb(sq % 8);
        let seventh = if c == 0 { 6int } else { 1int };
        sign(c) * ((if own_p & file == 0 { if opp_p & file == 0 { 25int } else { 12int } } else { 0 })
            + (if sq / 8 == seventh { 20int } else { 0 }))
    }
}

pub open spec fn rook_eg_f(c: int) -> spec_fn(int) -> int {
    |sq: int| {
        let seventh = if c == 0 { 6int } else { 1int };
        sign(c) * (if sq / 8 == seventh { 30int } else { 0 })
    }
}

/// Rook score (middlegame, endgame).
pub open spec fn rooks_spec(pcs: [[u64; 6]; 2]) -> (int, int) {
    let wp = pcs[0][0];
    let bp = pcs[1][0];
    (sum_sq(pcs[0][3], rook_mg_f(0, wp, bp)) + sum_sq(pcs[1][3], rook_mg_f(1, bp, wp)),
     sum_sq(pcs[0][3], rook_eg_f(0)) + sum_sq(pcs[1][3], rook_eg_f(1)))
}

/// Rook terms of one color.
fn rooks_of(rooks: u64, c: usize, own_p: u64, opp_p: u64) -> (r: (i32, i32))
    requires
        c < 2,
    ensures
        r.0 == sum_sq(rooks, rook_mg_f(c as int, own_p, opp_p)),
        r.1 == sum_sq(rooks, rook_eg_f(c as int)),
        -3200 <= r.0 <= 3200,
        -3200 <= r.1 <= 3200,
{
    let ghost fm = rook_mg_f(c as int, own_p, opp_p);
    let ghost fe = rook_eg_f(c as int);
    proof {
        lemma_sum_bound64(rooks, fm, 50);
        lemma_sum_bound64(rooks, fe, 50);
    }
    let sgn: i32 = if c == 0 { 1 } else { -1 };
    let seventh: u32 = if c == 0 { 6 } else { 1 };
    let mut mg = 0i32;
    let mut eg = 0i32;
    let mut bb = rooks;
    while bb != 0
        invariant
            c < 2,
            sgn == sign(c as int),
            seventh == (if c == 0 { 6int } else { 1int }),
            fm == rook_mg_f(c as int, own_p, opp_p),
            fe == rook_eg_f(c as int),
            mg + sum_sq(bb, fm) == sum_sq(rooks, fm),
            eg + sum_sq(bb, fe) == sum_sq(rooks, fe),
            -3200 <= sum_sq(rooks, fm) <= 3200,
            -3200 <= sum_sq(rooks, fe) <= 3200,
        decreases bb,
    {
        let ghost before = bb;
        proof {
            lemma_clear_lsb(before);
            lemma_sum_bound64(clear_lsb(before), fm, 50);
            lemma_sum_bound64(clear_lsb(before), fe, 50);
        }
        let sq = pop_lsb(&mut bb);
        let file = FILE_A << file_of(sq);
        let mut dm: i32 = 0;
        let mut de: i32 = 0;
        if own_p & file == 0 {
            dm += if opp_p & file == 0 { ROOK_OPEN_MG } else { ROOK_SEMIOPEN_MG };
        }
        if rank_of(sq) == seventh {
            dm += ROOK_SEVENTH_MG;
            de += ROOK_SEVENTH_EG;
        }
        assert(sgn * dm == fm(sq as int));
        assert(sgn * de == fe(sq as int));
        mg += sgn * dm;
        eg += sgn * de;
    }
    (mg, eg)
}

fn eval_rooks(pos: &Position) -> (r: (i32, i32))
    ensures
        r.0 == rooks_spec(pos.pieces).0,
        r.1 == rooks_spec(pos.pieces).1,
        -6400 <= r.0 <= 6400,
        -6400 <= r.1 <= 6400,
{
    let wp = pos.pieces[0][Piece::Pawn.index()];
    let bp = pos.pieces[1][Piece::Pawn.index()];
    let (wm, we) = rooks_of(pos.pieces[0][Piece::Rook.index()], 0, wp, bp);
    let (bm, be) = rooks_of(pos.pieces[1][Piece::Rook.index()], 1, bp, wp);
    (wm + bm, we + be)
}

// Mobility tables (bonus per number of reachable squares)
pub const KNIGHT_MOB_MG: [i32; 9] = [-25, -15, -5, 0, 5, 10, 15, 20, 23];
pub const KNIGHT_MOB_EG: [i32; 9] = [-30, -18, -6, 0, 6, 12, 18, 24, 28];
pub const BISHOP_MOB_MG: [i32; 14] = [-20, -10, -5, 0, 3, 6, 9, 12, 14, 16, 18, 20, 22, 24];
pub const BISHOP_MOB_EG: [i32; 14] = [-25, -12, -6, 0, 4, 8, 12, 16, 20, 24, 28, 32, 36, 38];
pub const ROOK_MOB_MG: [i32; 15] = [-10, -5, 0, 3, 6, 9, 12, 15, 18, 21, 24, 27, 30, 33, 36];
pub const ROOK_MOB_EG: [i32; 15] = [-20, -10, 0, 5, 10, 15, 20, 25, 30, 35, 40, 45, 50, 55, 60];
pub const QUEEN_MOB_MG: [i32; 28] = [
    -20, -12, -8, -4, 0, 2, 4, 6, 8, 10, 11, 12, 13, 14,
     14,  15, 15, 16, 16, 17, 17, 17, 18, 18, 18, 18, 18, 18,
];
pub const QUEEN_MOB_EG: [i32; 28] = [
    -40, -25, -16, -8, 0, 5, 10, 14, 18, 22, 26, 29, 32, 35,
     38,  40,  42, 44, 45, 46, 47, 48, 49, 50, 50, 50, 50, 50,
];

/// Squares reached by a knight, bishop, rook or queen (`p` from 1 to 4) on `sq`.
pub open spec fn reach_spec(p: int, sq: int, occ: u64) -> u64 {
    if p == 1 { knight_bb(sq) } else if p == 2 { bishop_spec(sq, occ) } else if p == 3 { rook_spec(sq, occ) }
    else { rook_spec(sq, occ) | bishop_spec(sq, occ) }
}

/// Mobility count: reachable squares not held by our pieces (nor, for
/// minor pieces, attacked by enemy pawns).
pub open spec fn mob_count(p: int, sq: int, occ: u64, own: u64, opp_ctrl: u64) -> int {
    if p <= 2 {
        pop_count(reach_spec(p, sq, occ) & !own & !opp_ctrl) as int
    } else {
        pop_count(reach_spec(p, sq, occ) & !own) as int
    }
}

/// Middlegame mobility bonus for `n` squares.
pub open spec fn mob_mg(p: int, n: int) -> int {
    if p == 1 { KNIGHT_MOB_MG[if n < 8 { n } else { 8 }] as int }
    else if p == 2 { BISHOP_MOB_MG[if n < 13 { n } else { 13 }] as int }
    else if p == 3 { ROOK_MOB_MG[if n < 14 { n } else { 14 }] as int }
    else { QUEEN_MOB_MG[if n < 27 { n } else { 27 }] as int }
}

pub open spec fn mob_eg(p: int, n: int) -> int {
    if p == 1 { KNIGHT_MOB_EG[if n < 8 { n } else { 8 }] as int }
    else if p == 2 { BISHOP_MOB_EG[if n < 13 { n } else { 13 }] as int }
    else if p == 3 { ROOK_MOB_EG[if n < 14 { n } else { 14 }] as int }
    else { QUEEN_MOB_EG[if n < 27 { n } else { 27 }] as int }
}

proof fn lemma_mob_bound(p: int, n: int)
    requires
        1 <= p <= 4,
        n >= 0,
    ensures
        -60 <= mob_mg(p, n) <= 60,
        -60 <= mob_eg(p, n) <= 60,
{
}

pub open spec fn mob_mg_f(c: int, p: int, occ: u64, own: u64, opp_ctrl: u64) -> spec_fn(int) -> int {
    |sq: int| sign(c) * mob_mg(p, mob_count(p, sq, occ, own, opp_ctrl))
}

pub open spec fn mob_eg_f(c: int, p: int, occ: u64, own: u64, opp_ctrl: u64) -> spec_fn(int) -> int {
    |sq: int| sign(c) * mob_eg(p, mob_count(p, sq, occ, own, opp_ctrl))
}

/// Mobility of color `c` for piece kinds 1 to `k`.
pub open spec fn mob_color(pcs: [[u64; 6]; 2], occs: [u64; 2], occ: u64, c: int, k: int, eg: bool) -> int
    decreases k,
{
    if k < 1 {
        0
    } else {
        let own = occs[c];
        let opp_ctrl = pawn_attack_spec(pcs[1 - c][0], 1 - c);
        mob_color(pcs, occs, occ, c, k - 1, eg) + sum_sq(pcs[c][k], if eg { mob_eg_f(c, k, occ, own, opp_ctrl) } else { mob_mg_f(c, k, occ, own, opp_ctrl) })
    }
}

/// Mobility score (middlegame, endgame).
pub open spec fn mobility_spec(pcs: [[u64; 6]; 2], occs: [u64; 2], occ: u64) -> (int, int) {
    (mob_color(pcs, occs, occ, 0, 4, false) + mob_color(pcs, occs, occ, 1, 4, false),
     mob_color(pcs, occs, occ, 0, 4, true) + mob_color(pcs, occs, occ, 1, 4, true))
}

/// Mobility of the pieces of kind `p` in `bb`.
fn mob_kind(pieces: u64, c: usize, p: usize, occ: u64, own: u64, opp_ctrl: u64) -> (r: (i32, i32))
    requires
        c < 2,
        1 <= p <= 4,
    ensures
        r.0 == sum_sq(pieces, mob_mg_f(c as int, p as int, occ, own, opp_ctrl)),
        r.1 == sum_sq(pieces, mob_eg_f(c as int, p as int, occ, own, opp_ctrl)),
        -3840 <= r.0 <= 3840,
        -3840 <= r.1 <= 3840,
{
    let ghost fm = mob_mg_f(c as int, p as int, occ, own, opp_ctrl);
    let ghost fe = mob_eg_f(c as int, p as int, occ, own, opp_ctrl);
    proof {
        assert forall|q: int| 0 <= q < 64 implies -60 <= #[trigger] fm(q) <= 60 && -60 <= fe(q) <= 60 by {
            crate::board::bitboard::lemma_pop_upto_bound(reach_spec(p as int, q, occ) & !own & !opp_ctrl, 64);
            lemma_mob_bound(p as int, mob_count(p as int, q, occ, own, opp_ctrl));
        }
        lemma_sum_bound64(pieces, fm, 60);
        lemma_sum_bound64(pieces, fe, 60);
    }
    let sgn: i32 = if c == 0 { 1 } else { -1 };
    let mut mg = 0i32;
    let mut eg = 0i32;
    let mut bb = pieces;
    while bb != 0
        invariant
            c < 2,
            1 <= p <= 4,
            sgn == sign(c as int),
            fm == mob_mg_f(c as int, p as int, occ, own, opp_ctrl),
            fe == mob_eg_f(c as int, p as int, occ, own, opp_ctrl),
            forall|q: int| 0 <= q < 64 ==> -60 <= #[trigger] fm(q) <= 60 && -60 <= fe(q) <= 60,
            mg + sum_sq(bb, fm) == sum_sq(pieces, fm),
            eg + sum_sq(bb, fe) == sum_sq(pieces, fe),
            -3840 <= sum_sq(pieces, fm) <= 3840,
            -3840 <= sum_sq(pieces, fe) <= 3840,
        decreases bb,
    {
        let ghost before = bb;
        proof {
            lemma_clear_lsb(before);
            lemma_sum_bound64(clear_lsb(before), fm, 60);
            lemma_sum_bound64(clear_lsb(before), fe, 60);
        }
        let sq = pop_lsb(&mut bb);
        let (dm, de) = if p == 1 {
            let mob = popcount(knight_attacks(sq) & !own & !opp_ctrl) as usize;
            (KNIGHT_MOB_MG[if mob < 8 { mob } else { 8 }], KNIGHT_MOB_EG[if mob < 8 { mob } else { 8 }])
        } else if p == 2 {
            let mob = popcount(bishop_attacks(sq, occ) & !own & !opp_ctrl) as usize;
            (BISHOP_MOB_MG[if mob < 13 { mob } else { 13 }], BISHOP_MOB_EG[if mob < 13 { mob } else { 13 }])
        } else if p == 3 {
            let mob = popcount(rook_attacks(sq, occ) & !own) as usize;
            (ROOK_MOB_MG[if mob < 14 { mob } else { 14 }], ROOK_MOB_EG[if mob < 14 { mob } else { 14 }])
        } else {
            let mob = popcount(queen_attacks(sq, occ) & !own) as usize;
            (QUEEN_MOB_MG[if mob < 27 { mob } else { 27 }], QUEEN_MOB_EG[if mob < 27 { mob } else { 27 }])
        };
        assert(sgn * dm == fm(sq as int));
        assert(sgn * de == fe(sq as int));
        mg += sgn * dm;
        eg += sgn * de;
    }
    (mg, eg)
}

/// Piece mobility: count reachable squares (excluding own pieces and enemy pawn control for minors).
fn eval_mobility(pos: &Position, occ: u64) -> (r: (i32, i32))
    ensures
        r.0 == mobility_spec(pos.pieces, pos.occupancy, occ).0,
        r.1 == mobility_spec(pos.pieces, pos.occupancy, occ).1,
        -40000 <= r.0 <= 40000,
        -40000 <= r.1 <= 40000,
{
    let mut tm: [i32; 2] = [0, 0];
    let mut te: [i32; 2] = [0, 0];
    let mut color: usize = 0;
    while color < 2
        invariant
            color <= 2,
            forall|c: int| 0 <= c < color ==> tm[c] == mob_color(pos.pieces, pos.occupancy, occ, c, 4, false)
                && te[c] == mob_color(pos.pieces, pos.occupancy, occ, c, 4, true)
                && -15360 <= tm[c] <= 15360 && -15360 <= te[c] <= 15360,
        decreases 2 - color,
    {
        let own = pos.occupancy[color];
        let opp_ctrl = pawn_attack_bb(pos.pieces[1 - color][Piece::Pawn.index()], 1 - color);
        let mut mg = 0i32;
        let mut eg = 0i32;
        let mut p: usize = 1;
        while p <= 4
            invariant
                color < 2,
                1 <= p <= 5,
                own == pos.occupancy[color as int],
                opp_ctrl == pawn_attack_spec(pos.pieces[1 - color][0], 1 - color),
                mg == mob_color(pos.pieces, pos.occupancy, occ, color as int, p - 1, false),
                eg == mob_color(pos.pieces, pos.occupancy, occ, color as int, p - 1, true),
                -3840 * (p as int - 1) <= mg <= 3840 * (p as int - 1),
                -3840 * (p as int - 1) <= eg <= 3840 * (p as int - 1),
            decreases 5 - p,
        {
            let (dm, de) = mob_kind(pos.pieces[color][p], color, p, occ, own, opp_ctrl);
            mg += dm;
            eg += de;
            p += 1;
        }
        tm[color] = mg;
        te[color] = eg;
        color += 1;
    }
    (tm[0] + tm[1], te[0] + te[1])
}

// Pawn threat bonus (indexed by piece type attacked)
pub const PAWN_THREAT: [i32; 6] = [0, 40, 40, 60, 80, 0];

/// Pawn threats on the first `k` piece kinds: white pawns attacking black
/// pieces minus black pawns attacking white pieces.
pub open spec fn threats_spec(pcs: [[u64; 6]; 2], k: int) -> int
    decreases k,
{
    if k <= 0 {
        0
    } else {
        let wpa = pawn_attack_spec(pcs[0][0], 0);
        let bpa = pawn_attack_spec(pcs[1][0], 1);
        threats_spec(pcs, k - 1) + PAWN_THREAT[k - 1] * (pop_count(wpa & pcs[1][k - 1]) - pop_count(bpa & pcs[0][k - 1]))
    }
}

/// Pawn threats: bonus for pawns attacking enemy pieces (the same in both phases).
fn eval_threats(pos: &Position) -> (r: (i32, i32))
    ensures
        r.0 == threats_spec(pos.pieces, 6),
        r.1 == threats_spec(pos.pieces, 6),
        -40000 <= r.0 <= 40000,
{
    let wp_attacks = pawn_attack_bb(pos.pieces[0][Piece::Pawn.index()], 0);
    let bp_attacks = pawn_attack_bb(pos.pieces[1][Piece::Pawn.index()], 1);
    let mut score = 0i32;
    let mut piece: usize = 0;
    while piece < 6
        invariant
            piece <= 6,
            wp_attacks == pawn_attack_spec(pos.pieces[0][0], 0),
            bp_attacks == pawn_attack_spec(pos.pieces[1][0], 1),
            score == threats_spec(pos.pieces, piece as int),
            -5120 * (piece as int) <= score <= 5120 * (piece as int),
        decreases 6 - piece,
    {
        let a = popcount(wp_attacks & pos.pieces[1][piece]) as i32;
        let b = popcount(bp_attacks & pos.pieces[0][piece]) as i32;
        let t = PAWN_THREAT[piece];
        proof {
            crate::board::bitboard::lemma_pop_upto_bound(wp_attacks & pos.pieces[1][piece as int], 64);
            crate::board::bitboard::lemma_pop_upto_bound(bp_attacks & pos.pieces[0][piece as int], 64);
            assert(0 <= t <= 80);
            assert(0 <= t * a <= 80 * 64) by (nonlinear_arith)
                requires 0 <= t <= 80, 0 <= a <= 64;
            assert(0 <= t * b <= 80 * 64) by (nonlinear_arith)
                requires 0 <= t <= 80, 0 <= b <= 64;
            assert(t * (a - b) == t * a - t * b) by (nonlinear_arith);
        }
        score += t * a - t * b;
        assert(-5120 * (piece as int + 1) <= score <= 5120 * (piece as int + 1));
        piece += 1;
    }
    (score, score)
}

// Outpost bonuses [knight, bishop]
pub const OUTPOST_MG: [i32; 2] = [22, 10];
pub const OUTPOST_EG: [i32; 2] = [12, 6];
/// Outpost ranks for white (ranks 5 to 8) and for black (ranks 1 to 5).
pub const OUTPOST_RANKS_WHITE: u64 = 0xFFFF_FFFF_0000_0000;
pub const OUTPOST_RANKS_BLACK: u64 = 0x0000_00FF_FFFF_FFFF;

/// Outpost term of a knight (`idx` 0) or bishop (`idx` 1) of color `c` on
/// `sq`, given the outpost squares `outs` of that color.
pub open spec fn outpost_f(c: int, idx: int, outs: u64, eg: bool) -> spec_fn(int) -> int {
    |sq: int| {
        let full = if eg { OUTPOST_EG[idx] as int } else { OUTPOST_MG[idx] as int };
        sign(c) * (if (1u64 << sq as u32) & outs != 0 {
            full
        } else if idx == 0 && knight_bb(sq) & outs != 0 {
            full / 2
        } else {
            0
        })
    }
}

/// Outpost squares of color `c`: its outpost ranks not attacked by enemy pawns.
pub open spec fn outposts_of(pcs: [[u64; 6]; 2], c: int) -> u64 {
    if c == 0 {
        OUTPOST_RANKS_WHITE & !pawn_attack_spec(pcs[1][0], 1)
    } else {
        OUTPOST_RANKS_BLACK & !pawn_attack_spec(pcs[0][0], 0)
    }
}

/// Outpost score (middlegame or endgame).
pub open spec fn outposts_spec(pcs: [[u64; 6]; 2], eg: bool) -> int {
    sum_sq(pcs[0][1], outpost_f(0, 0, outposts_of(pcs, 0), eg)) + sum_sq(pcs[1][1], outpost_f(1, 0, outposts_of(pcs, 1), eg))
        + sum_sq(pcs[0][2], outpost_f(0, 1, outposts_of(pcs, 0), eg)) + sum_sq(pcs[1][2], outpost_f(1, 1, outposts_of(pcs, 1), eg))
}

/// Outpost terms of the pieces in `pieces`.
fn outposts_kind(pieces: u64, c: usize, idx: usize, outs: u64) -> (r: (i32, i32))
    requires
        c < 2,
        idx < 2,
    ensures
        r.0 == sum_sq(pieces, outpost_f(c as int, idx as int, outs, false)),
        r.1 == sum_sq(pieces, outpost_f(c as int, idx as int, outs, true)),
        -1600 <= r.0 <= 1600,
        -1600 <= r.1 <= 1600,
{
    let ghost fm = outpost_f(c as int, idx as int, outs, false);
    let ghost fe = outpost_f(c as int, idx as int, outs, true);
    proof {
        lemma_sum_bound64(pieces, fm, 25);
        lemma_sum_bound64(pieces, fe, 25);
    }
    let sgn: i32 = if c == 0 { 1 } else { -1 };
    let mut mg = 0i32;
    let mut eg = 0i32;
    let mut bb = pieces;
    while bb != 0
        invariant
            c < 2,
            idx < 2,
            sgn == sign(c as int),
            fm == outpost_f(c as int, idx as int, outs, false),
            fe == outpost_f(c as int, idx as int, outs, true),
            mg + sum_sq(bb, fm) == sum_sq(pieces, fm),
            eg + sum_sq(bb, fe) == sum_sq(pieces, fe),
            -1600 <= sum_sq(pieces, fm) <= 1600,
            -1600 <= sum_sq(pieces, fe) <= 1600,
        decreases bb,
    {
        let ghost before = bb;
        proof {
            lemma_clear_lsb(before);
            lemma_sum_bound64(clear_lsb(before), fm, 25);
            lemma_sum_bound64(clear_lsb(before), fe, 25);
        }
        let sq = pop_lsb(&mut bb);
        let sq_bb = 1u64 << sq;
        let (dm, de) = if sq_bb & outs != 0 {
            (OUTPOST_MG[idx], OUTPOST_EG[idx])
        } else if idx == 0 && knight_attacks(sq) & outs != 0 {
            (OUTPOST_MG[idx] / 2, OUTPOST_EG[idx] / 2)
        } else {
            (0, 0)
        };
        assert(sgn * dm == fm(sq as int));
        assert(sgn * de == fe(sq as int));
        mg += sgn * dm;
        eg += sgn * de;
    }
    (mg, eg)
}

/// Outpost bonuses for knights and bishops.
fn eval_outposts(pos: &Position) -> (r: (i32, i32))
    ensures
        r.0 == outposts_spec(pos.pieces, false),
        r.1 == outposts_spec(pos.pieces, true),
        -6400 <= r.0 <= 6400,
        -6400 <= r.1 <= 6400,
{
    let wp_attacks = pawn_attack_bb(pos.pieces[0][Piece::Pawn.index()], 0);
    let bp_attacks = pawn_attack_bb(pos.pieces[1][Piece::Pawn.index()], 1);
    // White outpost squares: rank 5-8 and not attacked by black pawns
    let white_outpost_sq = OUTPOST_RANKS_WHITE & !bp_attacks;
    // Black outpost squares: rank 1-5 and not attacked by white pawns
    let black_outpost_sq = OUTPOST_RANKS_BLACK & !wp_attacks;
    let (m1, e1) = outposts_kind(pos.pieces[0][Piece::Knight.index()], 0, 0, white_outpost_sq);
    let (m2, e2) = outposts_kind(pos.pieces[1][Piece::Knight.index()], 1, 0, black_outpost_sq);
    let (m3, e3) = outposts_kind(pos.pieces[0][Piece::Bishop.index()], 0, 1, white_outpost_sq);
    let (m4, e4) = outposts_kind(pos.pieces[1][Piece::Bishop.index()], 1, 1, black_outpost_sq);
    (m1 + m2 + m3 + m4, e1 + e2 + e3 + e4)
}

// Connected rooks bonus
pub const CONNECTED_ROOKS_MG: i32 = 10;
pub const CONNECTED_ROOKS_EG: i32 = 5;

/// Truncating division (as integer division in Rust).
pub open spec fn tdiv(a: int, b: int) -> int {
    if a >= 0 { a / b } else { -((-a) / b) }
}

/// Rooks of color `c` that see another rook of theirs.
pub open spec fn conn_f(c: int, rooks: u64, occ: u64, bonus: int) -> spec_fn(int) -> int {
    |sq: int| if rook_spec(sq, occ) & rooks != 0 { sign(c) * bonus } else { 0 }
}

/// Connected-rooks sum of color `c` (nothing with fewer than two rooks).
pub open spec fn conn_color(pcs: [[u64; 6]; 2], c: int, occ: u64, bonus: int) -> int {
    if pop_count(pcs[c][3]) < 2 { 0 } else { sum_sq(pcs[c][3], conn_f(c, pcs[c][3], occ, bonus)) }
}

/// Connected rooks score: each rook seeing another counted, halved.
pub open spec fn connected_spec(pcs: [[u64; 6]; 2], occ: u64) -> (int, int) {
    (tdiv(conn_color(pcs, 0, occ, 10) + conn_color(pcs, 1, occ, 10), 2),
     tdiv(conn_color(pcs, 0, occ, 5) + conn_color(pcs, 1, occ, 5), 2))
}

fn conn_of(pos: &Position, c: usize, occ: u64) -> (r: (i32, i32))
    requires
        c < 2,
    ensures
        r.0 == conn_color(pos.pieces, c as int, occ, 10),
        r.1 == conn_color(pos.pieces, c as int, occ, 5),
        -640 <= r.0 <= 640,
        -640 <= r.1 <= 640,
{
    let rooks = pos.pieces[c][Piece::Rook.index()];
    let ghost fm = conn_f(c as int, rooks, occ, 10);
    let ghost fe = conn_f(c as int, rooks, occ, 5);
    proof {
        lemma_sum_bound64(rooks, fm, 10);
        lemma_sum_bound64(rooks, fe, 10);
    }
    if popcount(rooks) < 2 {
        return (0, 0);
    }
    let sgn: i32 = if c == 0 { 1 } else { -1 };
    let mut mg = 0i32;
    let mut eg = 0i32;
    let mut bb = rooks;
    while bb != 0
        invariant
            c < 2,
            sgn == sign(c as int),
            fm == conn_f(c as int, rooks, occ, 10),
            fe == conn_f(c as int, rooks, occ, 5),
            mg + sum_sq(bb, fm) == sum_sq(rooks, fm),
            eg + sum_sq(bb, fe) == sum_sq(rooks, fe),
            -640 <= sum_sq(rooks, fm) <= 640,
            -640 <= sum_sq(rooks, fe) <= 640,
        decreases bb,
    {
        let ghost before = bb;
        proof {
            lemma_clear_lsb(before);
            lemma_sum_bound64(clear_lsb(before), fm, 10);
            lemma_sum_bound64(clear_lsb(before), fe, 10);
        }
        let sq = pop_lsb(&mut bb);
        // Check if rook attacks land on another friendly rook
        if rook_attacks(sq, occ) & rooks != 0 {
            mg += sgn * CONNECTED_ROOKS_MG;
            eg += sgn * CONNECTED_ROOKS_EG;
        }
    }
    (mg, eg)
}

/// Connected rooks bonus: rooks of one color that see each other (each
/// pair counted from both ends, then halved).
fn eval_connected_rooks(pos: &Position, occ: u64) -> (r: (i32, i32))
    ensures
        r.0 == connected_spec(pos.pieces, occ).0,
        r.1 == connected_spec(pos.pieces, occ).1,
        -640 <= r.0 <= 640,
        -640 <= r.1 <= 640,
{
    let (m0, e0) = conn_of(pos, 0, occ);
    let (m1, e1) = conn_of(pos, 1, occ);
    let mg = m0 + m1;
    let eg = e0 + e1;
    (mg / 2, eg / 2)
}

// King attack weights (knight, bishop, rook, queen)
pub const KING_ATK_WT: [i32; 4] = [2, 2, 3, 5];

/// Pawn-shield term for file `f` in front of a king on rank `kr` moving
/// forward by `fwd`.
pub open spec fn shield_term(pawns: u64, f: int, kr: int, fwd: int) -> int {
    if f < 0 || f > 7 {
        0
    } else {
        let r1 = kr + fwd;
        let r2 = kr + fwd * 2;
        let p1 = 0 <= r1 < 8 && pawns & (1u64 << (r1 * 8 + f) as u32) != 0;
        let p2 = 0 <= r2 < 8 && pawns & (1u64 << (r2 * 8 + f) as u32) != 0;
        if p1 { 12 } else if p2 { 5 } else { -20 }
    }
}

/// Pawn shield of a king on `k` (only on the two outer files of each wing).
pub open spec fn shield_spec(pawns: u64, k: int, fwd: int) -> int {
    let kf = k % 8;
    let kr = k / 8;
    if kf <= 1 || kf >= 6 {
        shield_term(pawns, kf - 1, kr, fwd) + shield_term(pawns, kf, kr, fwd) + shield_term(pawns, kf + 1, kr, fwd)
    } else {
        0
    }
}

/// Attack weight `w` (or count, with `w` 1) of pieces reaching `zone`.
pub open spec fn zone_f(p: int, occ: u64, zone: u64, w: int) -> spec_fn(int) -> int {
    |sq: int| if reach_spec(p, sq, occ) & zone != 0 { w } else { 0 }
}

/// Attack units (or attacker count when `count`) of color `opp` against `zone`.
pub open spec fn zone_units(pcs: [[u64; 6]; 2], opp: int, occ: u64, zone: u64, count: bool) -> int {
    sum_sq(pcs[opp][1], zone_f(1, occ, zone, if count { 1 } else { 2 }))
        + sum_sq(pcs[opp][2], zone_f(2, occ, zone, if count { 1 } else { 2 }))
        + sum_sq(pcs[opp][3], zone_f(3, occ, zone, if count { 1 } else { 3 }))
        + sum_sq(pcs[opp][4], zone_f(4, occ, zone, if count { 1 } else { 5 }))
}

/// King safety of color `c` (signed): shield minus the quadratic attack
/// penalty when at least two pieces attack the king zone.
pub open spec fn king_safety_color(pcs: [[u64; 6]; 2], c: int, occ: u64) -> int {
    let k = lsb_spec(pcs[c][5]) as int;
    let zone = king_bb(k);
    let units = zone_units(pcs, 1 - c, occ, zone, false);
    let n = zone_units(pcs, 1 - c, occ, zone, true);
    sign(c) * shield_spec(pcs[c][0], k, if c == 0 { 1 } else { -1 }) - (if n >= 2 { tdiv(sign(c) * units * units, 8) } else { 0 })
}

/// King safety scaled by the phase (nothing below phase 4).
pub open spec fn king_safety_spec(pcs: [[u64; 6]; 2], occ: u64, phase: int) -> int {
    if phase < 4 {
        0
    } else {
        tdiv((king_safety_color(pcs, 0, occ) + king_safety_color(pcs, 1, occ)) * phase, 24)
    }
}

fn zone_sum(pieces: u64, p: usize, occ: u64, zone: u64, w: i32) -> (r: (i32, i32))
    requires
        1 <= p <= 4,
        0 <= w <= 5,
    ensures
        r.0 == sum_sq(pieces, zone_f(p as int, occ, zone, w as int)),
        r.1 == sum_sq(pieces, zone_f(p as int, occ, zone, 1)),
        0 <= r.0 <= 320,
        0 <= r.1 <= 64,
{
    let ghost fw = zone_f(p as int, occ, zone, w as int);
    let ghost f1 = zone_f(p as int, occ, zone, 1);
    proof {
        lemma_sum_bound64(pieces, fw, 5);
        lemma_sum_bound64(pieces, f1, 1);
        fold::lemma_sum_nonneg(pieces, fw);
        fold::lemma_sum_nonneg(pieces, f1);
    }
    let mut units = 0i32;
    let mut n = 0i32;
    let mut bb = pieces;
    while bb != 0
        invariant
            1 <= p <= 4,
            0 <= w <= 5,
            fw == zone_f(p as int, occ, zone, w as int),
            f1 == zone_f(p as int, occ, zone, 1),
            units + sum_sq(bb, fw) == sum_sq(pieces, fw),
            n + sum_sq(bb, f1) == sum_sq(pieces, f1),
            0 <= sum_sq(pieces, fw) <= 320,
            0 <= sum_sq(pieces, f1) <= 64,
            0 <= units,
            0 <= n,
        decreases bb,
    {
        let ghost before = bb;
        proof {
            lemma_clear_lsb(before);
            lemma_sum_bound64(clear_lsb(before), fw, 5);
            lemma_sum_bound64(clear_lsb(before), f1, 1);
            fold::lemma_sum_nonneg(clear_lsb(before), fw);
            fold::lemma_sum_nonneg(clear_lsb(before), f1);
        }
        let sq = pop_lsb(&mut bb);
        let atk = if p == 1 {
            knight_attacks(sq)
        } else if p == 2 {
            bishop_attacks(sq, occ)
        } else if p == 3 {
            rook_attacks(sq, occ)
        } else {
            queen_attacks(sq, occ)
        };
        if atk & zone != 0 {
            units += w;
            n += 1;
        }
    }
    (units, n)
}

fn shield_at(pawns: u64, f: i32, kr: i32, fwd: i32) -> (r: i32)
    requires
        -1 <= f <= 8,
        0 <= kr < 8,
        fwd == 1 || fwd == -1,
    ensures
        r == shield_term(pawns, f as int, kr as int, fwd as int),
{
    if f < 0 || f > 7 {
        return 0;
    }
    let r1 = kr + fwd;
    let r2 = kr + fwd * 2;
    let pawn_r1 = r1 >= 0 && r1 < 8 && pawns & (1u64 << (r1 * 8 + f) as u32) != 0;
    let pawn_r2 = r2 >= 0 && r2 < 8 && pawns & (1u64 << (r2 * 8 + f) as u32) != 0;
    if pawn_r1 { 12 } else if pawn_r2 { 5 } else { -20 }
}

fn king_safety_of(pos: &Position, color: usize, occ: u64) -> (r: i32)
    requires
        color < 2,
        pos.pieces[color as int][5] != 0,
    ensures
        r == king_safety_color(pos.pieces, color as int, occ),
        -300000 <= r <= 300000,
{
    let sgn: i32 = if color == 0 { 1 } else { -1 };
    let opp = 1 - color;
    let king_sq = lsb(pos.pieces[color][Piece::King.index()]);
    let kfile = file_of(king_sq) as i32;
    let krank = rank_of(king_sq) as i32;
    let forward: i32 = if color == 0 { 1 } else { -1 };
    let pawns = pos.pieces[color][Piece::Pawn.index()];
    let mut shield = 0i32;
    if kfile <= 1 || kfile >= 6 {
        shield = shield_at(pawns, kfile - 1, krank, forward) + shield_at(pawns, kfile, krank, forward) + shield_at(pawns, kfile + 1, krank, forward);
    }
    let king_zone = king_attacks(king_sq);
    let (u1, n1) = zone_sum(pos.pieces[opp][Piece::Knight.index()], 1, occ, king_zone, KING_ATK_WT[0]);
    let (u2, n2) = zone_sum(pos.pieces[opp][Piece::Bishop.index()], 2, occ, king_zone, KING_ATK_WT[1]);
    let (u3, n3) = zone_sum(pos.pieces[opp][Piece::Rook.index()], 3, occ, king_zone, KING_ATK_WT[2]);
    let (u4, n4) = zone_sum(pos.pieces[opp][Piece::Queen.index()], 4, occ, king_zone, KING_ATK_WT[3]);
    let attack_units = u1 + u2 + u3 + u4;
    let n_attackers = n1 + n2 + n3 + n4;
    let mut score = sgn * shield;
    if n_attackers >= 2 {
        proof {
            assert(0 <= attack_units * attack_units <= 1280 * 1280) by (nonlinear_arith)
                requires 0 <= attack_units <= 1280;
            assert(sgn * attack_units * attack_units == sgn * (attack_units * attack_units)) by (nonlinear_arith);
        }
        score -= sgn * attack_units * attack_units / 8;
    }
    score
}

/// King safety: pawn shield (when castled) + quadratic penalty for enemy piece attacks on king zone.
fn eval_king_safety(pos: &Position, occ: u64, phase: i32) -> (r: i32)
    requires
        0 <= phase <= 24,
        phase >= 4 ==> pos.pieces[0][5] != 0 && pos.pieces[1][5] != 0,
    ensures
        r == king_safety_spec(pos.pieces, occ, phase as int),
        -1_000_000 <= r <= 1_000_000,
{
    if phase < 4 {
        return 0;
    }
    let a = king_safety_of(pos, 0, occ);
    let b = king_safety_of(pos, 1, occ);
    proof {
        assert(-600000 * 24 <= (a + b) * phase <= 600000 * 24) by (nonlinear_arith)
            requires -600000 <= a + b <= 600000, 4 <= phase <= 24;
    }
    (a + b) * phase / TOTAL_PHASE
}

// King proximity bonuses (endgame only)
pub const KING_PAWN_PROX_EG: i32 = 5;
pub const KING_KING_PROX_EG: i32 = 2;
// Tempo bonus for the side to move
pub const TEMPO: i32 = 15;
// Bad bishop: penalty per own pawn on the bishop's square color
pub const LIGHT_SQUARES: u64 = 0xAA55AA55AA55AA55;
pub const DARK_SQUARES: u64 = 0x55AA55AA55AA55AA;
pub const BAD_BISHOP_EG: i32 = 4;

pub open spec fn abs_int(x: int) -> int {
    if x < 0 { -x } else { x }
}

/// King distance between two squares (a square index of 64 stands for a
/// missing king: rank 8, file a).
pub open spec fn cheb_spec(a: int, b: int) -> int {
    let dr = abs_int(a / 8 - b / 8);
    let df = abs_int(a % 8 - b % 8);
    if dr > df { dr } else { df }
}

fn chebyshev(a: u32, b: u32) -> (r: i32)
    requires
        a <= 64,
        b <= 64,
    ensures
        r == cheb_spec(a as int, b as int),
        0 <= r <= 8,
{
    let x = rank_of(a) as i32 - rank_of(b) as i32;
    let dr = if x < 0 { -x } else { x };
    let y = file_of(a) as i32 - file_of(b) as i32;
    let df = if y < 0 { -y } else { y };
    if dr > df { dr } else { df }
}

pub open spec fn prox_f(k: int, w: int) -> spec_fn(int) -> int {
    |sq: int| (7 - cheb_spec(k, sq)) * w
}

/// King proximity in the endgame (nothing from phase 12 on): white king
/// near black pawns, black king near white pawns, kings near each other.
pub open spec fn proximity_spec(pcs: [[u64; 6]; 2], phase: int) -> int {
    if phase >= 12 {
        0
    } else {
        let wk = lsb_spec(pcs[0][5]) as int;
        let bk = lsb_spec(pcs[1][5]) as int;
        let score = sum_sq(pcs[1][0], prox_f(wk, 5)) - sum_sq(pcs[0][0], prox_f(bk, 5)) + (7 - cheb_spec(wk, bk)) * 2;
        tdiv(score * (24 - phase), 24)
    }
}

fn prox_sum(pawns: u64, k: u32) -> (r: i32)
    requires
        k <= 64,
    ensures
        r == sum_sq(pawns, prox_f(k as int, 5)),
        -3200 <= r <= 3200,
{
    let ghost f = prox_f(k as int, 5);
    proof {
        lemma_sum_bound64(pawns, f, 50);
    }
    let mut score = 0i32;
    let mut bb = pawns;
    while bb != 0
        invariant
            k <= 64,
            f == prox_f(k as int, 5),
            score + sum_sq(bb, f) == sum_sq(pawns, f),
            -3200 <= sum_sq(pawns, f) <= 3200,
        decreases bb,
    {
        let ghost before = bb;
        proof {
            lemma_clear_lsb(before);
            lemma_sum_bound64(clear_lsb(before), f, 50);
        }
        let sq = pop_lsb(&mut bb);
        score += (7 - chebyshev(k, sq)) * KING_PAWN_PROX_EG;
    }
    score
}

/// In the endgame, reward kings near enemy pawns and near each other.
fn eval_king_proximity(pos: &Position, phase: i32) -> (r: i32)
    requires
        0 <= phase <= 24,
    ensures
        r == proximity_spec(pos.pieces, phase as int),
        -10000 <= r <= 10000,
{
    if phase >= 12 {
        return 0;
    }
    let eg_frac = TOTAL_PHASE - phase;
    let wk = lsb(pos.pieces[0][Piece::King.index()]);
    let bk = lsb(pos.pieces[1][Piece::King.index()]);
    let mut score = prox_sum(pos.pieces[1][Piece::Pawn.index()], wk);
    score -= prox_sum(pos.pieces[0][Piece::Pawn.index()], bk);
    let king_dist = chebyshev(wk, bk);
    score += (7 - king_dist) * KING_KING_PROX_EG;
    proof {
        assert(-7000 * 24 <= score * eg_frac <= 7000 * 24) by (nonlinear_arith)
            requires -7000 <= score <= 7000, 12 < eg_frac <= 24;
    }
    score * eg_frac / TOTAL_PHASE
}

/// Bishop pair bonus and bad-bishop penalty (middlegame, endgame).
pub open spec fn bishops_spec(pcs: [[u64; 6]; 2]) -> (int, int) {
    let pair_mg = (if pop_count(pcs[0][2]) >= 2 { 30int } else { 0 }) - (if pop_count(pcs[1][2]) >= 2 { 30int } else { 0 });
    let pair_eg = (if pop_count(pcs[0][2]) >= 2 { 45int } else { 0 }) - (if pop_count(pcs[1][2]) >= 2 { 45int } else { 0 });
    (pair_mg, pair_eg - bad_bishop(pcs, 0) - bad_bishop(pcs, 1))
}

/// Bad-bishop penalty of color `c` (signed): own pawns on the square colors
/// of its bishops.
pub open spec fn bad_bishop(pcs: [[u64; 6]; 2], c: int) -> int {
    sign(c) * ((if pcs[c][2] & LIGHT_SQUARES != 0 { pop_count(pcs[c][0] & LIGHT_SQUARES) * 4 } else { 0 })
        + (if pcs[c][2] & DARK_SQUARES != 0 { pop_count(pcs[c][0] & DARK_SQUARES) * 4 } else { 0 }))
}

fn eval_bishops(pos: &Position) -> (r: (i32, i32))
    ensures
        r.0 == bishops_spec(pos.pieces).0,
        r.1 == bishops_spec(pos.pieces).1,
        -2000 <= r.0 <= 2000,
        -2000 <= r.1 <= 2000,
{
    let mut mg = 0i32;
    let mut eg = 0i32;
    if popcount(pos.pieces[0][Piece::Bishop.index()]) >= 2 {
        mg += BISHOP_PAIR_MG;
        eg += BISHOP_PAIR_EG;
    }
    if popcount(pos.pieces[1][Piece::Bishop.index()]) >= 2 {
        mg -= BISHOP_PAIR_MG;
        eg -= BISHOP_PAIR_EG;
    }
    let mut color: usize = 0;
    let ghost pcs = pos.pieces;
    let ghost eg0 = eg as int;
    proof {
        assert forall|c: int| 0 <= c < 2 implies -512 <= #[trigger] bad_bishop(pcs, c) <= 512 by {
            crate::board::bitboard::lemma_pop_upto_bound(pcs[c][0] & LIGHT_SQUARES, 64);
            crate::board::bitboard::lemma_pop_upto_bound(pcs[c][0] & DARK_SQUARES, 64);
        }
    }
    while color < 2
        invariant
            color <= 2,
            pcs == pos.pieces,
            -45 <= eg0 <= 45,
            eg == eg0 - (if color >= 1 { bad_bishop(pcs, 0) } else { 0 }) - (if color >= 2 { bad_bishop(pcs, 1) } else { 0 }),
            forall|c: int| 0 <= c < 2 ==> -512 <= #[trigger] bad_bishop(pcs, c) <= 512,
        decreases 2 - color,
    {
        let sgn: i32 = if color == 0 { 1 } else { -1 };
        let bishops = pos.pieces[color][Piece::Bishop.index()];
        let pawns = pos.pieces[color][Piece::Pawn.index()];
        let mut d = 0i32;
        if bishops & LIGHT_SQUARES != 0 {
            let cnt = popcount(pawns & LIGHT_SQUARES) as i32;
            d += cnt * BAD_BISHOP_EG;
        }
        if bishops & DARK_SQUARES != 0 {
            let cnt = popcount(pawns & DARK_SQUARES) as i32;
            d += cnt * BAD_BISHOP_EG;
        }
        assert(sgn * d == bad_bishop(pcs, color as int));
        eg -= sgn * d;
        color += 1;
    }
    (mg, eg)
}

/// The game phase: 0 (bare kings and pawns) to 24 (all pieces).
pub open spec fn eval_phase(pcs: [[u64; 6]; 2]) -> int {
    let ph = phase_raw(pcs, 12);
    if ph < 24 { ph } else { 24 }
}

/// Middlegame score (white's view).
pub open spec fn eval_mg(p: &Position) -> int {
    let pcs = p.pieces;
    let occ = p.occupancy[0] | p.occupancy[1];
    mat_mg(pcs, 12) + bishops_spec(pcs).0 + pawns_spec(pcs).0 + rooks_spec(pcs).0
        + mobility_spec(pcs, p.occupancy, occ).0 + threats_spec(pcs, 6) + outposts_spec(pcs, false)
        + connected_spec(pcs, occ).0 + king_safety_spec(pcs, occ, eval_phase(pcs))
}

/// Endgame score (white's view).
pub open spec fn eval_eg(p: &Position) -> int {
    let pcs = p.pieces;
    let occ = p.occupancy[0] | p.occupancy[1];
    mat_eg(pcs, 12) + bishops_spec(pcs).1 + pawns_spec(pcs).1 + rooks_spec(pcs).1
        + mobility_spec(pcs, p.occupancy, occ).1 + threats_spec(pcs, 6) + outposts_spec(pcs, true)
        + connected_spec(pcs, occ).1
}

/// The evaluation from the side to move's view: middlegame and endgame
/// scores blended by phase, plus king proximity, plus the tempo bonus.
pub open spec fn eval_spec(p: &Position) -> int {
    let ph = eval_phase(p.pieces);
    let score = tdiv(eval_mg(p) * ph + eval_eg(p) * (24 - ph), 24);
    let prox = proximity_spec(p.pieces, ph);
    (if p.side == Color::White { score + prox } else { -score - prox }) + 15
}

/// The evaluation can be computed: no pawn on its last rank, and both
/// kings on the board unless the phase is below 4.
pub open spec fn eval_ok(p: &Position) -> bool {
    &&& pawns_inside(p.pieces)
    &&& eval_phase(p.pieces) >= 4 ==> p.pieces[0][5] != 0 && p.pieces[1][5] != 0
}

/// Whether `evaluate` can score `pos`: no pawn on its last rank, and both
/// kings on the board unless the material phase is below 4.
pub fn eval_ready(pos: &Position) -> (r: bool)
    ensures
        r == eval_ok(pos),
{
    let (_, _, ph0) = material(pos);
    let phase = if ph0 < TOTAL_PHASE { ph0 } else { TOTAL_PHASE };
    let inside = pos.pieces[0][0] & 0xFF00_0000_0000_0000u64 == 0 && pos.pieces[1][0] & 0xFFu64 == 0;
    inside && (phase < 4 || (pos.pieces[0][5] != 0 && pos.pieces[1][5] != 0))
}

/// Static evaluation from the side to move's view, in centipawns.
pub fn evaluate(pos: &Position) -> (r: i32)
    requires
        eval_ok(pos),
    ensures
        r == eval_spec(pos),
        -10_000_000 <= r <= 10_000_000,
{
    let occ = pos.occupancy[0] | pos.occupancy[1];
    let (m0, e0, ph0) = material(pos);
    let (bm, be) = eval_bishops(pos);
    let (pmg, peg) = eval_pawns(pos);
    let (rmg, reg) = eval_rooks(pos);
    let phase = if ph0 < TOTAL_PHASE { ph0 } else { TOTAL_PHASE };
    let (mmg, meg) = eval_mobility(pos, occ);
    let (tmg, teg) = eval_threats(pos);
    let (omg, oeg) = eval_outposts(pos);
    let (crmg, creg) = eval_connected_rooks(pos, occ);
    let ks = eval_king_safety(pos, occ, phase);
    let mg = m0 + bm + pmg + rmg + mmg + tmg + omg + crmg + ks;
    let eg = e0 + be + peg + reg + meg + teg + oeg + creg;
    proof {
        assert(0 <= phase <= 24);
        assert(-4_000_000 * 24 <= mg * phase <= 4_000_000 * 24) by (nonlinear_arith)
            requires -4_000_000 <= mg <= 4_000_000, 0 <= phase <= 24;
        assert(-4_000_000 * 24 <= eg * (24 - phase) <= 4_000_000 * 24) by (nonlinear_arith)
            requires -4_000_000 <= eg <= 4_000_000, 0 <= phase <= 24;
    }
    let score = (mg * phase + eg * (TOTAL_PHASE - phase)) / TOTAL_PHASE;
    // King proximity is purely an endgame term
    let prox = eval_king_proximity(pos, phase);
    let raw = if pos.side == Color::White { score + prox } else { -score - prox };
    // Tempo: small bonus for the side to move
    raw + TEMPO
}

/// The evaluation reads only the pieces and the side to move: two
/// positions with the same pieces and occupancy score the same when the
/// same side is to move, and when the sides differ their scores add up to
/// twice the tempo.
pub proof fn lemma_eval_board_only(p: &Position, q: &Position)
    requires
        p.pieces == q.pieces,
        p.occupancy == q.occupancy,
    ensures
        p.side == q.side ==> eval_spec(p) == eval_spec(q),
        p.side != q.side ==> eval_spec(p) + eval_spec(q) == 2 * TEMPO,
{
    assert(eval_mg(p) == eval_mg(q));
    assert(eval_eg(p) == eval_eg(q));
}

/// A bitboard holding exactly square `sq` sums `f` to `f(sq)`.
proof fn lemma_sum_single(bb: u64, sq: int, f: spec_fn(int) -> int)
    requires
        0 <= sq < 64,
        forall|s: int| #[trigger] sq_in(bb, s) == (s == sq),
    ensures
        sum_sq(bb, f) == f(sq),
{
    assert(sq_in(bb, sq));
    assert(bb != 0) by {
        broadcast use crate::board::bitboard::lemma_in_zero;
    }
    crate::board::bitboard::lemma_lsb(bb);
    lemma_clear_lsb(bb);
    assert(lsb_spec(bb) as int == sq);
    assert forall|s: int| 0 <= s < 64 implies !sq_in(clear_lsb(bb), s) by {}
    crate::board::bitboard::lemma_bb_empty(clear_lsb(bb));
    assert(sum_sq(0u64, f) == 0);
    assert(sum_sq(bb, f) == f(sq) + sum_sq(clear_lsb(bb), f));
}

/// The terms a lone pawn on `sq` gets: no other pawn stands anywhere.
proof fn lemma_lone_facts(pawn: u64, sq: int)
    requires
        0 <= sq < 64,
        forall|s: int| #[trigger] sq_in(pawn, s) == (s == sq),
    ensures
        pawn ^ (1u64 << sq as u32) == 0,
        pawn & adj_files(sq % 8) == 0,
        pawn_attack_spec(0, 0) == 0,
        pawn_attack_spec(0, 1) == 0,
        forall|x: u64| #[trigger] (0u64 & x) == 0,
{
    broadcast use crate::board::bitboard::group_bb, crate::board::bitboard::lemma_in_file_masks;
    let b = 1u64 << sq as u32;
    assert(b == crate::board::bitboard::bit_spec(sq));
    assert forall|s: int| 0 <= s < 64 implies !sq_in(pawn ^ b, s) by {}
    crate::board::bitboard::lemma_bb_empty(pawn ^ b);
    let f = sq % 8;
    let lo: u64 = if f > 0 { FILE_A << ((f - 1) as u64) } else { 0u64 };
    let hi: u64 = if f < 7 { FILE_A << ((f + 1) as u64) } else { 0u64 };
    assert forall|s: int| 0 <= s < 64 implies !sq_in(pawn & adj_files(f), s) by {
        if s == sq {
            assert(s == 8 * (s / 8) + f);
            if f > 0 {
                crate::board::bitboard::lemma_in_shl(FILE_A, (f - 1) as u64, s);
                assert((s - (f - 1)) % 8 == 1);
                crate::board::bitboard::lemma_in_file_masks(s - (f - 1));
            }
            if f < 7 {
                crate::board::bitboard::lemma_in_shl(FILE_A, (f + 1) as u64, s);
                assert(s - (f + 1) < 0 || (s - (f + 1)) % 8 == 7);
                crate::board::bitboard::lemma_in_file_masks(s - (f + 1));
            }
            assert(!sq_in(lo, s));
            assert(!sq_in(hi, s));
        }
    }
    crate::board::bitboard::lemma_bb_empty(pawn & adj_files(f));
    assert forall|x: u64| #[trigger] (0u64 & x) == 0 by {
        assert forall|s: int| 0 <= s < 64 implies !sq_in(0u64 & x, s) by {}
        crate::board::bitboard::lemma_bb_empty(0u64 & x);
    }
    assert forall|s: int| 0 <= s < 64 implies !sq_in(pawn_attack_spec(0, 0), s) by {
        crate::board::bitboard::lemma_in_shl(0u64 & !FILE_A, 7u64, s);
        crate::board::bitboard::lemma_in_shl(0u64 & !FILE_H, 9u64, s);
    }
    crate::board::bitboard::lemma_bb_empty(pawn_attack_spec(0, 0));
    assert forall|s: int| 0 <= s < 64 implies !sq_in(pawn_attack_spec(0, 1), s) by {
        crate::board::bitboard::lemma_in_shr(0u64 & !FILE_H, 7u64, s);
        crate::board::bitboard::lemma_in_shr(0u64 & !FILE_A, 9u64, s);
    }
    crate::board::bitboard::lemma_bb_empty(pawn_attack_spec(0, 1));
}

/// A lone white pawn (no other pawn on the board) on rank index `r` of its
/// file is passed and isolated: the pawn structure scores the passed bonus
/// of its own rank, `PASSED_MG[r]` and `PASSED_EG[r]`, less the isolated
/// penalty (15, 10).
pub proof fn lemma_lone_white_pawn(pcs: [[u64; 6]; 2], sq: int)
    requires
        8 <= sq < 56,
        forall|s: int| #[trigger] sq_in(pcs[0][0], s) == (s == sq),
        pcs[1][0] == 0,
    ensures
        pawns_spec(pcs) == (PASSED_MG[sq / 8] as int - 15, PASSED_EG[sq / 8] as int - 10),
{
    let wp = pcs[0][0];
    lemma_lone_facts(wp, sq);
    let bpa = pawn_attack_spec(0, 1);
    assert(bpa == 0);
    assert(0u64 & passed_white_spec(sq) == 0);
    assert(0u64 & (1u64 << (sq + 8) as u32) == 0);
    lemma_sum_single(wp, sq, pawn_w_mg(wp, 0, bpa));
    lemma_sum_single(wp, sq, pawn_w_eg(wp, 0, bpa));
    assert(0u64 & file_bb(sq % 8) == 0);
}

/// A lone black pawn on `sq` mirrors the white one: the score falls by the
/// passed bonus of its own rank counted from Black's side, `7 - sq / 8`,
/// and rises by the isolated penalty.
pub proof fn lemma_lone_black_pawn(pcs: [[u64; 6]; 2], sq: int)
    requires
        8 <= sq < 56,
        forall|s: int| #[trigger] sq_in(pcs[1][0], s) == (s == sq),
        pcs[0][0] == 0,
    ensures
        pawns_spec(pcs) == (15 - PASSED_MG[7 - sq / 8] as int, 10 - PASSED_EG[7 - sq / 8] as int),
{
    let bp = pcs[1][0];
    lemma_lone_facts(bp, sq);
    let wpa = pawn_attack_spec(0, 0);
    assert(wpa == 0);
    assert(0u64 & passed_black_spec(sq) == 0);
    assert(0u64 & (1u64 << (sq - 8) as u32) == 0);
    lemma_sum_single(bp, sq, pawn_b_mg(0, bp, wpa));
    lemma_sum_single(bp, sq, pawn_b_eg(0, bp, wpa));
    assert(0u64 & file_bb(sq % 8) == 0);
    assert(((7 - sq / 8) * 8 + sq % 8) / 8 == 7 - sq / 8);
}

/// A lone passed pawn is worth more the further it has advanced: moving a
/// lone white pawn from `sq` to `sq + 8` (below the last rank) raises the
/// pawn score in both phases.
pub proof fn lemma_lone_white_pawn_advances(before: [[u64; 6]; 2], after: [[u64; 6]; 2], sq: int)
    requires
        8 <= sq < 48,
        forall|s: int| #[trigger] sq_in(before[0][0], s) == (s == sq),
        forall|s: int| #[trigger] sq_in(after[0][0], s) == (s == sq + 8),
        before[1][0] == 0,
        after[1][0] == 0,
    ensures
        pawns_spec(after).0 > pawns_spec(before).0,
        pawns_spec(after).1 > pawns_spec(before).1,
{
    lemma_lone_white_pawn(before, sq);
    lemma_lone_white_pawn(after, sq + 8);
    assert((sq + 8) / 8 == sq / 8 + 1);
}

/// The same for Black: moving a lone black pawn from `sq` to `sq - 8`
/// (above the first rank) lowers the pawn score (it counts from White's
/// side) in both phases.
pub proof fn lemma_lone_black_pawn_advances(before: [[u64; 6]; 2], after: [[u64; 6]; 2], sq: int)
    requires
        16 <= sq < 56,
        forall|s: int| #[trigger] sq_in(before[1][0], s) == (s == sq),
        forall|s: int| #[trigger] sq_in(after[1][0], s) == (s == sq - 8),
        before[0][0] == 0,
        after[0][0] == 0,
    ensures
        pawns_spec(after).0 < pawns_spec(before).0,
        pawns_spec(after).1 < pawns_spec(before).1,
{
    lemma_lone_black_pawn(before, sq);
    lemma_lone_black_pawn(after, sq - 8);
    assert((sq - 8) / 8 == sq / 8 - 1);
}

} // verus!
