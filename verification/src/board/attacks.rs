//! Attack sets of each piece kind: leapers (knight, king, pawn) computed
//! from shifts of a single bit, sliders (bishop, rook, queen) by walking
//! rays until the first blocker.
use vstd::prelude::*;
use super::bitboard::{Bitboard, sq_in, bit_spec, lemma_in_or, lemma_in_and, lemma_in_zero, lemma_bb_empty, lemma_bb_ext, bit, north, south, east, west, north_east, north_west, south_east, south_west, group_bb, lemma_in_shr, lemma_in_shl, lemma_in_file_masks, NOT_FILE_A, NOT_FILE_H, NOT_FILE_AB, NOT_FILE_GH};
use super::types::{Square, Color};

verus! {


pub open spec fn file_spec(s: int) -> int {
    s % 8
}

pub open spec fn rank_spec(s: int) -> int {
    s / 8
}

pub open spec fn absd(x: int) -> int {
    if x < 0 { -x } else { x }
}

/// File distance between two squares.
pub open spec fn fdist(a: int, b: int) -> int {
    absd(a % 8 - b % 8)
}

/// Rank distance between two squares.
pub open spec fn rdist(a: int, b: int) -> int {
    absd(a / 8 - b / 8)
}

pub open spec fn on_board(s: int) -> bool {
    0 <= s < 64
}

/// A knight on `a` attacks `b`.
pub open spec fn knight_att(a: int, b: int) -> bool {
    on_board(a) && on_board(b) && ((fdist(a, b) == 1 && rdist(a, b) == 2) || (fdist(a, b) == 2
        && rdist(a, b) == 1))
}

/// A king on `a` attacks `b`.
pub open spec fn king_att(a: int, b: int) -> bool {
    on_board(a) && on_board(b) && a != b && fdist(a, b) <= 1 && rdist(a, b) <= 1
}

/// A pawn of color `c` on `a` attacks `b` (one step forward diagonally).
pub open spec fn pawn_att(a: int, c: Color, b: int) -> bool {
    on_board(a) && on_board(b) && fdist(a, b) == 1 && (match c {
        Color::White => b / 8 == a / 8 + 1,
        Color::Black => b / 8 == a / 8 - 1,
    })
}

/// The knight relation by offsets: `t` is `s` moved by a knight jump
/// that stays on the board.
pub open spec fn knight_off(s: int, t: int) -> bool {
    ||| t + 10 == s && s % 8 >= 2
    ||| t + 17 == s && s % 8 >= 1
    ||| t + 15 == s && s % 8 <= 6
    ||| t + 6 == s && s % 8 <= 5
    ||| t == s + 6 && s % 8 >= 2
    ||| t == s + 15 && s % 8 >= 1
    ||| t == s + 17 && s % 8 <= 6
    ||| t == s + 10 && s % 8 <= 5
}

pub proof fn lemma_knight_off(s: int, t: int)
    requires
        0 <= s < 64,
        0 <= t < 64,
    ensures
        knight_off(s, t) == knight_att(s, t),
{
}

/// Shifting a masked single bit right by `k` lands on `s - k`.
pub proof fn lemma_bit_mask_shr(s: u64, m: u64, k: u64, t: int)
    requires
        s < 64,
        k < 64,
    ensures
        sq_in((bit_spec(s as int) & m) >> k, t) == (0 <= t && t + k == s && sq_in(m, s as int)),
{
    if 0 <= t < 64 {
        let u = t as u64;
        assert(s < 64 && k < 64 && u < 64 ==> (((((1u64 << s) & m) >> k) >> u) & 1u64 == 1u64) == (u + k == s && (m >> s) & 1u64 == 1u64)) by (bit_vector);
    }
}

/// Shifting a masked single bit left by `k` lands on `s + k`.
pub proof fn lemma_bit_mask_shl(s: u64, m: u64, k: u64, t: int)
    requires
        s < 64,
        k < 64,
    ensures
        sq_in((bit_spec(s as int) & m) << k, t) == (t < 64 && t == s + k && sq_in(m, s as int)),
{
    if 0 <= t < 64 {
        let u = t as u64;
        assert(s < 64 && k < 64 && u < 64 ==> (((((1u64 << s) & m) << k) >> u) & 1u64 == 1u64) == (u == s + k && (m >> s) & 1u64 == 1u64)) by (bit_vector);
    }
}

pub fn compute_knight(sq: u32) -> (r: Bitboard)
    requires
        sq < 64,
    ensures
        forall|t: int| #[trigger] sq_in(r, t) == knight_att(sq as int, t),
{
    let b = bit(sq);
    let r = ((b & NOT_FILE_AB) >> 10) | ((b & NOT_FILE_A) >> 17) | ((b & NOT_FILE_H) >> 15) | ((b
        & NOT_FILE_GH) >> 6) | ((b & NOT_FILE_AB) << 6) | ((b & NOT_FILE_A) << 15) | ((b
        & NOT_FILE_H) << 17) | ((b & NOT_FILE_GH) << 10);
    assert forall|t: int| #[trigger] sq_in(r, t) == knight_att(sq as int, t) by {
        let s = sq as u64;
        lemma_in_or(((b & NOT_FILE_AB) >> 10) | ((b & NOT_FILE_A) >> 17) | ((b & NOT_FILE_H) >> 15) | ((b
        & NOT_FILE_GH) >> 6) | ((b & NOT_FILE_AB) << 6) | ((b & NOT_FILE_A) << 15) | ((b
        & NOT_FILE_H) << 17), (b & NOT_FILE_GH) << 10, t);
        lemma_in_or(((b & NOT_FILE_AB) >> 10) | ((b & NOT_FILE_A) >> 17) | ((b & NOT_FILE_H) >> 15) | ((b
        & NOT_FILE_GH) >> 6) | ((b & NOT_FILE_AB) << 6) | ((b & NOT_FILE_A) << 15), (b & NOT_FILE_H) << 17, t);
        lemma_in_or(((b & NOT_FILE_AB) >> 10) | ((b & NOT_FILE_A) >> 17) | ((b & NOT_FILE_H) >> 15) | ((b
        & NOT_FILE_GH) >> 6) | ((b & NOT_FILE_AB) << 6), (b & NOT_FILE_A) << 15, t);
        lemma_in_or(((b & NOT_FILE_AB) >> 10) | ((b & NOT_FILE_A) >> 17) | ((b & NOT_FILE_H) >> 15) | ((b
        & NOT_FILE_GH) >> 6), (b & NOT_FILE_AB) << 6, t);
        lemma_in_or(((b & NOT_FILE_AB) >> 10) | ((b & NOT_FILE_A) >> 17) | ((b & NOT_FILE_H) >> 15), (b & NOT_FILE_GH) >> 6, t);
        lemma_in_or(((b & NOT_FILE_AB) >> 10) | ((b & NOT_FILE_A) >> 17), (b & NOT_FILE_H) >> 15, t);
        lemma_in_or((b & NOT_FILE_AB) >> 10, (b & NOT_FILE_A) >> 17, t);
        lemma_bit_mask_shr(s, NOT_FILE_AB, 10, t);
        lemma_bit_mask_shr(s, NOT_FILE_A, 17, t);
        lemma_bit_mask_shr(s, NOT_FILE_H, 15, t);
        lemma_bit_mask_shr(s, NOT_FILE_GH, 6, t);
        lemma_bit_mask_shl(s, NOT_FILE_AB, 6, t);
        lemma_bit_mask_shl(s, NOT_FILE_A, 15, t);
        lemma_bit_mask_shl(s, NOT_FILE_H, 17, t);
        lemma_bit_mask_shl(s, NOT_FILE_GH, 10, t);
        lemma_in_file_masks(sq as int);
        if 0 <= t < 64 {
            lemma_knight_off(sq as int, t);
        }
    }
    r
}

/// The king relation by offsets.
pub open spec fn king_off(s: int, t: int) -> bool {
    ||| t == s + 8 && s < 56
    ||| t + 8 == s
    ||| t == s + 1 && s % 8 <= 6
    ||| t + 1 == s && s % 8 >= 1
    ||| t == s + 9 && s % 8 <= 6 && s < 56
    ||| t == s + 7 && s % 8 >= 1 && s < 56
    ||| t + 7 == s && s % 8 <= 6
    ||| t + 9 == s && s % 8 >= 1
}

pub proof fn lemma_king_off(s: int, t: int)
    requires
        0 <= s < 64,
        0 <= t < 64,
    ensures
        king_off(s, t) == king_att(s, t),
{
}

/// The pawn relation by offsets.
pub open spec fn pawn_off(s: int, white: bool, t: int) -> bool {
    if white {
        ||| t == s + 9 && s % 8 <= 6 && s < 56
        ||| t == s + 7 && s % 8 >= 1 && s < 56
    } else {
        ||| t + 7 == s && s % 8 <= 6
        ||| t + 9 == s && s % 8 >= 1
    }
}

pub proof fn lemma_pawn_off(s: int, white: bool, t: int)
    requires
        0 <= s < 64,
        0 <= t < 64,
    ensures
        pawn_off(s, white, t) == pawn_att(s, if white { Color::White } else { Color::Black }, t),
{
}

pub fn compute_king(sq: u32) -> (r: Bitboard)
    requires
        sq < 64,
    ensures
        forall|t: int| #[trigger] sq_in(r, t) == king_att(sq as int, t),
{
    let b = bit(sq);
    let n = north(b);
    let so = south(b);
    let e = east(b);
    let w = west(b);
    let ne = north_east(b);
    let nw = north_west(b);
    let se = south_east(b);
    let sw = south_west(b);
    let r = n | so | e | w | ne | nw | se | sw;
    assert forall|t: int| #[trigger] sq_in(r, t) == king_att(sq as int, t) by {
        lemma_in_or(n | so | e | w | ne | nw | se, sw, t);
        lemma_in_or(n | so | e | w | ne | nw, se, t);
        lemma_in_or(n | so | e | w | ne, nw, t);
        lemma_in_or(n | so | e | w, ne, t);
        lemma_in_or(n | so | e, w, t);
        lemma_in_or(n | so, e, t);
        lemma_in_or(n, so, t);
        if 0 <= t < 64 {
            lemma_king_off(sq as int, t);
        }
    }
    r
}

fn compute_pawn(sq: u32, white: bool) -> (r: Bitboard)
    requires
        sq < 64,
    ensures
        forall|t: int| #[trigger] sq_in(r, t) == pawn_att(sq as int, if white { Color::White } else { Color::Black }, t),
{
    let b = bit(sq);
    if white {
        let ne = north_east(b);
        let nw = north_west(b);
        let r = ne | nw;
        assert forall|t: int| #[trigger] sq_in(r, t) == pawn_att(sq as int, Color::White, t) by {
            lemma_in_or(ne, nw, t);
            if 0 <= t < 64 {
                lemma_pawn_off(sq as int, true, t);
            }
        }
        r
    } else {
        let se = south_east(b);
        let sw = south_west(b);
        let r = se | sw;
        assert forall|t: int| #[trigger] sq_in(r, t) == pawn_att(sq as int, Color::Black, t) by {
            lemma_in_or(se, sw, t);
            if 0 <= t < 64 {
                lemma_pawn_off(sq as int, false, t);
            }
        }
        r
    }
}

/// The bitboard `r` holds exactly the squares that satisfy `p`.
pub open spec fn bb_means(r: u64, p: spec_fn(int) -> bool) -> bool {
    forall|t: int| #[trigger] sq_in(r, t) == p(t)
}

/// The bitboard holding exactly the squares that satisfy `p`.
pub open spec fn bb_of(p: spec_fn(int) -> bool) -> u64 {
    choose|r: u64| #[trigger] bb_means(r, p)
}

/// The bitboard of the knight attacks from `sq`.
pub open spec fn knight_bb(sq: int) -> u64 {
    bb_of(|t: int| knight_att(sq, t))
}

/// The bitboard of the king attacks from `sq`.
pub open spec fn king_bb(sq: int) -> u64 {
    bb_of(|t: int| king_att(sq, t))
}

/// The bitboard of the attacks of a pawn of color `c` on `sq`.
pub open spec fn pawn_bb(sq: int, c: Color) -> u64 {
    bb_of(|t: int| pawn_att(sq, c, t))
}

/// The squares below `n` that satisfy `p`.
pub open spec fn bits_upto(p: spec_fn(int) -> bool, n: nat) -> u64
    decreases n,
{
    if n == 0 {
        0
    } else {
        bits_upto(p, (n - 1) as nat) | (if p(n - 1) { bit_spec(n - 1) } else { 0u64 })
    }
}

proof fn lemma_bits_upto(p: spec_fn(int) -> bool, n: nat)
    requires
        n <= 64,
    ensures
        forall|t: int| #[trigger] sq_in(bits_upto(p, n), t) == (0 <= t < n && p(t)),
    decreases n,
{
    broadcast use group_bb;
    if n > 0 {
        lemma_bits_upto(p, (n - 1) as nat);
        let x = bits_upto(p, (n - 1) as nat);
        let y = if p(n - 1) { bit_spec(n - 1) } else { 0u64 };
        assert(bits_upto(p, n) == x | y);
        assert forall|t: int| #[trigger] sq_in(bits_upto(p, n), t) == (0 <= t < n && p(t)) by {
            lemma_in_or(x, y, t);
            if p(n - 1) {
                super::bitboard::lemma_in_bit(n - 1, t);
            } else {
                lemma_in_zero(t);
            }
        }
    } else {
        assert forall|t: int| #[trigger] sq_in(bits_upto(p, n), t) == (0 <= t < n && p(t)) by {
            lemma_in_zero(t);
        }
    }
}

/// A property that holds only of squares has its bitboard.
pub proof fn lemma_bb_of(p: spec_fn(int) -> bool)
    requires
        forall|t: int| #[trigger] p(t) ==> 0 <= t < 64,
    ensures
        bb_means(bb_of(p), p),
{
    lemma_bits_upto(p, 64);
    assert(bb_means(bits_upto(p, 64), p));
}

/// A bitboard is fixed by its squares.
pub proof fn lemma_choose_bb(r: u64, p: spec_fn(int) -> bool)
    requires
        bb_means(r, p),
    ensures
        bb_of(p) == r,
{
    let x = bb_of(p);
    assert(bb_means(x, p));
    assert forall|t: int| 0 <= t < 64 implies sq_in(x, t) == sq_in(r, t) by {
        assert(sq_in(x, t) == p(t));
        assert(sq_in(r, t) == p(t));
    }
    lemma_bb_ext(x, r);
}

pub fn knight_attacks(sq: Square) -> (r: Bitboard)
    requires
        sq < 64,
    ensures
        r == knight_bb(sq as int),
        forall|t: int| #[trigger] sq_in(r, t) == knight_att(sq as int, t),
{
    let r = compute_knight(sq);
    proof {
        let p = |t: int| knight_att(sq as int, t);
        assert(bb_means(r, p));
        lemma_choose_bb(r, p);
    }
    r
}

pub fn king_attacks(sq: Square) -> (r: Bitboard)
    requires
        sq < 64,
    ensures
        r == king_bb(sq as int),
        forall|t: int| #[trigger] sq_in(r, t) == king_att(sq as int, t),
{
    let r = compute_king(sq);
    proof {
        let p = |t: int| king_att(sq as int, t);
        assert(bb_means(r, p));
        lemma_choose_bb(r, p);
    }
    r
}

/// color 0 = White, 1 = Black
pub fn pawn_attacks(sq: Square, color: usize) -> (r: Bitboard)
    requires
        sq < 64,
        color < 2,
    ensures
        r == pawn_bb(sq as int, if color == 0 { Color::White } else { Color::Black }),
        forall|t: int| #[trigger] sq_in(r, t) == pawn_att(sq as int, if color == 0 { Color::White } else { Color::Black }, t),
{
    let r = compute_pawn(sq, color == 0);
    proof {
        let c = if color == 0 { Color::White } else { Color::Black };
        let p = |t: int| pawn_att(sq as int, c, t);
        assert(bb_means(r, p));
        lemma_choose_bb(r, p);
    }
    r
}

} // verus!

verus! {

/// A ray step direction: each component in -1..=1, not both zero.
pub open spec fn valid_dir(df: int, dr: int) -> bool {
    -1 <= df <= 1 && -1 <= dr <= 1 && !(df == 0 && dr == 0)
}

/// Squares left before a ray walking from (f, r) leaves the board.
pub open spec fn ray_measure(f: int, r: int, df: int, dr: int) -> int {
    if df == 1 {
        8 - f
    } else if df == -1 {
        f + 1
    } else if dr == 1 {
        8 - r
    } else {
        r + 1
    }
}

/// The squares of the ray that starts at file `f`, rank `r` and steps by
/// (`df`, `dr`): each square up to and including the first occupied one.
pub open spec fn ray_bb(f: int, r: int, df: int, dr: int, occ: u64) -> u64
    decreases ray_measure(f, r, df, dr),
{
    if !(0 <= f < 8 && 0 <= r < 8) || !valid_dir(df, dr) {
        0
    } else {
        let s = r * 8 + f;
        bit_spec(s) | (if sq_in(occ, s) {
            0
        } else {
            ray_bb(f + df, r + dr, df, dr, occ)
        })
    }
}

/// Rook attacks from `sq`: the four orthogonal rays (east, west, north, south).
pub open spec fn rook_spec(sq: int, occ: u64) -> u64 {
    let f = sq % 8;
    let r = sq / 8;
    ray_bb(f + 1, r, 1, 0, occ) | ray_bb(f - 1, r, -1, 0, occ) | ray_bb(f, r + 1, 0, 1, occ)
        | ray_bb(f, r - 1, 0, -1, occ)
}

/// Bishop attacks from `sq`: the four diagonal rays.
pub open spec fn bishop_spec(sq: int, occ: u64) -> u64 {
    let f = sq % 8;
    let r = sq / 8;
    ray_bb(f + 1, r + 1, 1, 1, occ) | ray_bb(f - 1, r + 1, -1, 1, occ) | ray_bb(f + 1, r - 1, 1, -1, occ)
        | ray_bb(f - 1, r - 1, -1, -1, occ)
}

pub proof fn lemma_or_assoc(a: u64, b: u64, c: u64)
    ensures
        (a | b) | c == a | (b | c),
        a | 0 == a,
        0 | a == a,
{
    assert((a | b) | c == a | (b | c) && a | 0 == a && 0 | a == a) by (bit_vector);
}

/// Walks one ray, stopping at the first occupied square (which is included).
fn ray_attacks(f0: i32, r0: i32, df: i32, dr: i32, occ: Bitboard) -> (res: Bitboard)
    requires
        -1 <= f0 <= 8,
        -1 <= r0 <= 8,
        valid_dir(df as int, dr as int),
    ensures
        res == ray_bb(f0 as int, r0 as int, df as int, dr as int, occ),
{
    let ghost total = ray_bb(f0 as int, r0 as int, df as int, dr as int, occ);
    let mut acc: u64 = 0;
    let mut f = f0;
    let mut r = r0;
    proof {
        lemma_or_assoc(total, 0, 0);
        lemma_or_assoc(acc, 0, 0);
    }
    while f >= 0 && f < 8 && r >= 0 && r < 8
        invariant_except_break
            -1 <= f <= 8,
            -1 <= r <= 8,
            valid_dir(df as int, dr as int),
            acc | ray_bb(f as int, r as int, df as int, dr as int, occ) == total,
            acc | 0u64 == acc,
        ensures
            acc == total,
        decreases ray_measure(f as int, r as int, df as int, dr as int),
    {
        let s = (r * 8 + f) as u32;
        let b = bit(s);
        let ghost rest = if sq_in(occ, s as int) {
            0u64
        } else {
            ray_bb((f + df) as int, (r + dr) as int, df as int, dr as int, occ)
        };
        proof {
            lemma_or_assoc(acc, b, rest);
        }
        acc = acc | b;
        if occ & b != 0 {
            proof {
                lemma_in_and(occ, b, s as int);
                if !sq_in(occ, s as int) {
                    assert forall|t: int| 0 <= t < 64 implies !sq_in(occ & b, t) by {
                        lemma_in_and(occ, b, t);
                    }
                    lemma_bb_empty(occ & b);
                }
                lemma_or_assoc(acc, 0, 0);
            }
            break;
        }
        proof {
            if sq_in(occ, s as int) {
                lemma_in_and(occ, b, s as int);
                assert(sq_in(occ & b, s as int));
                lemma_in_zero(s as int);
            }
        }
        f = f + df;
        r = r + dr;
        proof {
            lemma_or_assoc(acc, 0, 0);
        }
    }
    proof {
        if !(f >= 0 && f < 8 && r >= 0 && r < 8) {
            lemma_or_assoc(acc, 0, 0);
        }
    }
    acc
}

/// Attacks of a slider on `sq` along the rook (orthogonal) or bishop
/// (diagonal) rays, given the occupancy.
fn sliding_attacks(sq: u32, occ: Bitboard, diagonal: bool) -> (result: Bitboard)
    requires
        sq < 64,
    ensures
        diagonal ==> result == bishop_spec(sq as int, occ),
        !diagonal ==> result == rook_spec(sq as int, occ),
{
    let file = (sq % 8) as i32;
    let rank = (sq / 8) as i32;
    let mut result = 0u64;
    if diagonal {
        result = result | ray_attacks(file + 1, rank + 1, 1, 1, occ);
        result = result | ray_attacks(file - 1, rank + 1, -1, 1, occ);
        result = result | ray_attacks(file + 1, rank - 1, 1, -1, occ);
        result = result | ray_attacks(file - 1, rank - 1, -1, -1, occ);
        proof {
            lemma_or_assoc(ray_bb(file + 1, rank + 1, 1, 1, occ), 0, 0);
        }
    } else {
        result = result | ray_attacks(file + 1, rank, 1, 0, occ);
        result = result | ray_attacks(file - 1, rank, -1, 0, occ);
        result = result | ray_attacks(file, rank + 1, 0, 1, occ);
        result = result | ray_attacks(file, rank - 1, 0, -1, occ);
        proof {
            lemma_or_assoc(ray_bb(file + 1, rank as int, 1, 0, occ), 0, 0);
        }
    }
    result
}

pub fn rook_attacks(sq: Square, occupancy: Bitboard) -> (r: Bitboard)
    requires
        sq < 64,
    ensures
        r == rook_spec(sq as int, occupancy),
{
    sliding_attacks(sq, occupancy, false)
}

pub fn bishop_attacks(sq: Square, occupancy: Bitboard) -> (r: Bitboard)
    requires
        sq < 64,
    ensures
        r == bishop_spec(sq as int, occupancy),
{
    sliding_attacks(sq, occupancy, true)
}

pub fn queen_attacks(sq: Square, occupancy: Bitboard) -> (r: Bitboard)
    requires
        sq < 64,
    ensures
        r == rook_spec(sq as int, occupancy) | bishop_spec(sq as int, occupancy),
{
    rook_attacks(sq, occupancy) | bishop_attacks(sq, occupancy)
}

} // verus!

verus! {

/// The bitboard of all pieces that attack `sq` given the occupancy.
pub open spec fn attackers_spec(sq: int, occ: u64, p: [[u64; 6]; 2]) -> u64 {
    (pawn_bb(sq, Color::White) & p[1][0]) | (pawn_bb(sq, Color::Black) & p[0][0]) | (knight_bb(sq) & (p[0][1]
        | p[1][1])) | (king_bb(sq) & (p[0][5] | p[1][5])) | (rook_spec(sq, occ) & (p[0][3] | p[1][3] | p[0][4]
        | p[1][4])) | (bishop_spec(sq, occ) & (p[0][2] | p[1][2] | p[0][4] | p[1][4]))
}

/// All pieces (of both colors) that attack `sq` given the occupancy:
/// pawns, knights and kings by their leaps, rooks/queens and
/// bishops/queens along the rays from `sq`.
pub fn attackers_to(sq: Square, occ: Bitboard, all_pieces: &[[Bitboard; 6]; 2]) -> (result: Bitboard)
    requires
        sq < 64,
    ensures
        result == attackers_spec(sq as int, occ, *all_pieces),
        forall|t: int| #[trigger] sq_in(result, t) == (
            (sq_in(all_pieces[1][0], t) && pawn_att(sq as int, Color::White, t))
            || (sq_in(all_pieces[0][0], t) && pawn_att(sq as int, Color::Black, t))
            || ((sq_in(all_pieces[0][1], t) || sq_in(all_pieces[1][1], t)) && knight_att(sq as int, t))
            || ((sq_in(all_pieces[0][5], t) || sq_in(all_pieces[1][5], t)) && king_att(sq as int, t))
            || (sq_in(rook_spec(sq as int, occ), t) && (sq_in(all_pieces[0][3], t) || sq_in(all_pieces[1][3], t) || sq_in(all_pieces[0][4], t) || sq_in(all_pieces[1][4], t)))
            || (sq_in(bishop_spec(sq as int, occ), t) && (sq_in(all_pieces[0][2], t) || sq_in(all_pieces[1][2], t) || sq_in(all_pieces[0][4], t) || sq_in(all_pieces[1][4], t)))),
{
    let rq = all_pieces[0][3] | all_pieces[1][3] | all_pieces[0][4] | all_pieces[1][4];
    let bq = all_pieces[0][2] | all_pieces[1][2] | all_pieces[0][4] | all_pieces[1][4];
    let a = pawn_attacks(sq, 0) & all_pieces[1][0];
    let b = pawn_attacks(sq, 1) & all_pieces[0][0];
    let c = knight_attacks(sq) & (all_pieces[0][1] | all_pieces[1][1]);
    let d = king_attacks(sq) & (all_pieces[0][5] | all_pieces[1][5]);
    let e = rook_attacks(sq, occ) & rq;
    let f = bishop_attacks(sq, occ) & bq;
    let mut result = 0u64;
    proof {
        lemma_or_assoc(a, 0u64, 0u64);
    }
    result |= a;
    result |= b;
    result |= c;
    result |= d;
    result |= e;
    result |= f;
    proof {
        assert forall|t: int| #[trigger] sq_in(result, t) == (
            (sq_in(all_pieces[1][0], t) && pawn_att(sq as int, Color::White, t))
            || (sq_in(all_pieces[0][0], t) && pawn_att(sq as int, Color::Black, t))
            || ((sq_in(all_pieces[0][1], t) || sq_in(all_pieces[1][1], t)) && knight_att(sq as int, t))
            || ((sq_in(all_pieces[0][5], t) || sq_in(all_pieces[1][5], t)) && king_att(sq as int, t))
            || (sq_in(rook_spec(sq as int, occ), t) && (sq_in(all_pieces[0][3], t) || sq_in(all_pieces[1][3], t) || sq_in(all_pieces[0][4], t) || sq_in(all_pieces[1][4], t)))
            || (sq_in(bishop_spec(sq as int, occ), t) && (sq_in(all_pieces[0][2], t) || sq_in(all_pieces[1][2], t) || sq_in(all_pieces[0][4], t) || sq_in(all_pieces[1][4], t)))) by {
            broadcast use group_bb;
        }
    }
    result
}

} // verus!
