//! Legal move generation: pins and check masks computed up front, then
//! moves of each piece kind, king moves checked against attacked squares,
//! and castling.
pub mod distinct;
pub mod sound;
use vstd::prelude::*;
use crate::board::attacks::{
    ray_bb, valid_dir, ray_measure, lemma_or_assoc, knight_bb, king_bb, pawn_bb, rook_spec,
    bishop_spec,
};
use crate::board::bitboard::{Bitboard, FULL, sq_in, bit, bit_spec, north, south, group_bb, lsb_spec, clear_lsb, lemma_clear_lsb, pop_count, pop_lsb, lsb, more_than_one, popcount, lemma_bit_and};
use crate::board::attacks::{knight_attacks, king_attacks, pawn_attacks, bishop_attacks, rook_attacks, queen_attacks};
use crate::board::types::{color_of_idx, piece_of_idx, rank_of};
use crate::board::moves::{Move, MoveList, encode, FLAG_QUIET, FLAG_CAPTURE, FLAG_DOUBLE_PUSH, FLAG_EP, FLAG_PROMO_N, FLAG_PROMO_CAPTURE_N, FLAG_CASTLE_KS, FLAG_CASTLE_QS};
use crate::board::position::{PosView, Position};
use crate::board::types::{Color, Piece, CASTLE_WK, CASTLE_WQ, CASTLE_BK, CASTLE_BQ};
use crate::board::types::squares;

verus! {

pub open spec fn sgn(x: int) -> int {
    if x > 0 { 1 } else if x < 0 { -1 } else { 0 }
}

pub open spec fn iabs(x: int) -> int {
    if x < 0 { -x } else { x }
}

/// Squares `a` and `b` are distinct and share a rank, a file or a diagonal.
pub open spec fn aligned(a: int, b: int) -> bool {
    let df = b % 8 - a % 8;
    let dr = b / 8 - a / 8;
    a != b && (df == 0 || dr == 0 || iabs(df) == iabs(dr))
}

/// Number of king steps from `a` to `b` along their line.
pub open spec fn line_dist(a: int, b: int) -> int {
    let df = iabs(b % 8 - a % 8);
    let dr = iabs(b / 8 - a / 8);
    if df > dr { df } else { dr }
}

/// `n` squares starting at (f, r), stepping by (df, dr).
pub open spec fn seg_bb(f: int, r: int, df: int, dr: int, n: nat) -> u64
    decreases n,
{
    if n == 0 {
        0
    } else {
        bit_spec(r * 8 + f) | seg_bb(f + df, r + dr, df, dr, (n - 1) as nat)
    }
}

/// Squares strictly between two aligned squares (empty if not aligned).
pub open spec fn between_spec(a: int, b: int) -> u64 {
    if aligned(a, b) {
        let df = sgn(b % 8 - a % 8);
        let dr = sgn(b / 8 - a / 8);
        seg_bb(a % 8 + df, a / 8 + dr, df, dr, (line_dist(a, b) - 1) as nat)
    } else {
        0
    }
}

/// Squares from `a` through `b` to the edge of the board (empty if not aligned).
pub open spec fn ray_spec(a: int, b: int) -> u64 {
    if aligned(a, b) {
        let df = sgn(b % 8 - a % 8);
        let dr = sgn(b / 8 - a / 8);
        ray_bb(a % 8 + df, a / 8 + dr, df, dr, 0)
    } else {
        0
    }
}

fn signum(x: i32) -> (r: i32)
    ensures
        r == sgn(x as int),
{
    if x > 0 { 1 } else if x < 0 { -1 } else { 0 }
}

fn abs_i32(x: i32) -> (r: i32)
    requires
        x > i32::MIN,
    ensures
        r == iabs(x as int),
{
    if x < 0 { -x } else { x }
}

pub fn compute_between(a: u32, b: u32) -> (result: Bitboard)
    requires
        a < 64,
        b < 64,
    ensures
        result == between_spec(a as int, b as int),
{
    if a == b {
        return 0;
    }
    let af = (a % 8) as i32;
    let ar = (a / 8) as i32;
    let bf = (b % 8) as i32;
    let br = (b / 8) as i32;
    let df = signum(bf - af);
    let dr = signum(br - ar);
    if df == 0 && dr == 0 {
        return 0;
    }
    // Must be on same rank, file, or diagonal
    if df != 0 && dr != 0 && abs_i32(bf - af) != abs_i32(br - ar) {
        return 0;
    }
    if df == 0 && af != bf {
        return 0;
    }
    if dr == 0 && ar != br {
        return 0;
    }
    let ghost dist = line_dist(a as int, b as int);
    let ghost total = seg_bb(af + df, ar + dr, df as int, dr as int, (dist - 1) as nat);
    let mut result = 0u64;
    let mut f = af + df;
    let mut r = ar + dr;
    let ghost mut m: int = dist - 1;
    proof {
        lemma_or_assoc(total, 0, 0);
    }
    while f != bf || r != br
        invariant
            0 <= m < 8,
            0 <= f < 8,
            0 <= r < 8,
            0 <= bf < 8,
            0 <= br < 8,
            -1 <= df <= 1,
            -1 <= dr <= 1,
            !(df == 0 && dr == 0),
            df == 1 ==> f == bf - m,
            df == -1 ==> f == bf + m,
            df == 0 ==> f == bf,
            dr == 1 ==> r == br - m,
            dr == -1 ==> r == br + m,
            dr == 0 ==> r == br,
            result | seg_bb(f as int, r as int, df as int, dr as int, m as nat) == total,
        decreases m,
    {
        let s = (r * 8 + f) as u32;
        proof {
            assert(m > 0);
            assert(seg_bb(f as int, r as int, df as int, dr as int, m as nat) == bit_spec(r * 8 + f) | seg_bb(f + df, r + dr, df as int, dr as int, (m - 1) as nat));
            lemma_or_assoc(result, bit_spec(s as int), seg_bb(f + df, r + dr, df as int, dr as int, (m - 1) as nat));
        }
        result |= bit(s);
        f += df;
        r += dr;
        proof {
            m = m - 1;
        }
    }
    proof {
        lemma_or_assoc(result, 0, 0);
    }
    result
}

} // verus!

verus! {

/// The move from `from` to `to` with flags `fl`.
pub open spec fn mv_spec(from: int, to: int, fl: int) -> Move {
    Move(encode(from, to, fl) as u16)
}

/// Moves from `from` to each square of `targets`, lowest first, flagged as
/// captures where `their` holds the target.
pub open spec fn target_moves(from: int, targets: u64, their: u64) -> Seq<Move>
    decreases targets,
{
    if targets == 0 {
        seq![]
    } else {
        proof {
            lemma_clear_lsb(targets);
        }
        let to = lsb_spec(targets) as int;
        seq![mv_spec(from, to, if sq_in(their, to) { 4 } else { 0 })] + target_moves(
            from,
            clear_lsb(targets),
            their,
        )
    }
}

/// The moves that `f` gives for each square of `bb`, lowest first.
pub open spec fn each_sq(bb: u64, f: spec_fn(int) -> Seq<Move>) -> Seq<Move>
    decreases bb,
{
    if bb == 0 {
        seq![]
    } else {
        proof {
            lemma_clear_lsb(bb);
        }
        f(lsb_spec(bb) as int) + each_sq(clear_lsb(bb), f)
    }
}

/// The four promotions from `from` to `to` (knight, bishop, rook, queen).
pub open spec fn promos(from: int, to: int, capture: bool) -> Seq<Move> {
    let base = if capture { 12 } else { 8 };
    seq![mv_spec(from, to, base), mv_spec(from, to, base + 1), mv_spec(from, to, base + 2), mv_spec(from, to, base + 3)]
}

/// A piece on `from` pinned against the king on `k` may go to `to`:
/// the three squares lie on one line.
pub open spec fn on_pin_ray(from: int, to: int, k: int) -> bool {
    sq_in(ray_spec(k, from), to) || sq_in(ray_spec(from, k), to) || from == k
}

impl PosView {
    pub open spec fn us(self) -> Color {
        self.side
    }

    pub open spec fn them(self) -> Color {
        self.side.opp()
    }

    /// Square of the king of color `c` (64 when there is none).
    pub open spec fn king_of(self, c: Color) -> int {
        lsb_spec(self.piece_bb(c, Piece::King)) as int
    }

    /// Square `sq` is attacked by color `c` when the board's occupancy is `occ`.
    #[verifier::opaque]
    pub open spec fn attacked_occ(self, sq: int, c: Color, occ: u64) -> bool {
        ||| pawn_bb(sq, c.opp()) & self.piece_bb(c, Piece::Pawn) != 0
        ||| knight_bb(sq) & self.piece_bb(c, Piece::Knight) != 0
        ||| king_bb(sq) & self.piece_bb(c, Piece::King) != 0
        ||| bishop_spec(sq, occ) & (self.piece_bb(c, Piece::Bishop) | self.piece_bb(c, Piece::Queen)) != 0
        ||| rook_spec(sq, occ) & (self.piece_bb(c, Piece::Rook) | self.piece_bb(c, Piece::Queen)) != 0
    }

    /// Enemy pieces giving check to our king.
    #[verifier::opaque]
    pub open spec fn checkers(self) -> u64 {
        let them = self.them();
        let k = self.king_of(self.us());
        let all = self.all_bb();
        (pawn_bb(k, self.us()) & self.piece_bb(them, Piece::Pawn)) | (knight_bb(k) & self.piece_bb(them, Piece::Knight))
            | (bishop_spec(k, all) & (self.piece_bb(them, Piece::Bishop) | self.piece_bb(them, Piece::Queen)))
            | (rook_spec(k, all) & (self.piece_bb(them, Piece::Rook) | self.piece_bb(them, Piece::Queen)))
    }

    /// Our pieces pinned by the sliders in `pc` against the king on `k`.
    pub open spec fn pin_fold(self, k: int, pc: u64, our: u64) -> u64
        decreases pc,
    {
        if pc == 0 {
            0
        } else {
            proof {
                lemma_clear_lsb(pc);
            }
            let ray = between_spec(k, lsb_spec(pc) as int) & our;
            let add = if ray != 0 && (ray & ((ray - 1) as u64)) == 0 { ray } else { 0u64 };
            add | self.pin_fold(k, clear_lsb(pc), our)
        }
    }

    /// Our pinned pieces.
    #[verifier::opaque]
    pub open spec fn pinned(self) -> u64 {
        let them = self.them();
        let k = self.king_of(self.us());
        let our = self.color_bb(self.us());
        let x = self.all_bb() ^ our;
        self.pin_fold(k, bishop_spec(k, x) & (self.piece_bb(them, Piece::Bishop) | self.piece_bb(them, Piece::Queen)), our)
            | self.pin_fold(k, rook_spec(k, x) & (self.piece_bb(them, Piece::Rook) | self.piece_bb(them, Piece::Queen)), our)
    }

    /// Target squares that answer the check (all squares when not in check).
    pub open spec fn check_mask(self) -> u64 {
        let ch = self.checkers();
        if pop_count(ch) == 1 {
            let c = lsb_spec(ch) as int;
            between_spec(self.king_of(self.us()), c) | bit_spec(c)
        } else {
            0xFFFF_FFFF_FFFF_FFFFu64
        }
    }

    /// An en-passant capture from `from` to `ep`, removing the pawn on `cap`,
    /// leaves no enemy slider attacking our king on `k`.
    pub open spec fn ep_legal(self, from: int, ep: int, cap: int, k: int) -> bool {
        let them = self.them();
        let occ = (self.all_bb() ^ bit_spec(from) ^ bit_spec(cap)) | bit_spec(ep);
        &&& rook_spec(k, occ) & (self.piece_bb(them, Piece::Rook) | self.piece_bb(them, Piece::Queen)) == 0
        &&& bishop_spec(k, occ) & (self.piece_bb(them, Piece::Bishop) | self.piece_bb(them, Piece::Queen)) == 0
    }

    /// Pawn captures from `sq` to each square of `a` (promotions on the last rank).
    pub open spec fn pawn_caps(self, sq: int, a: u64, is_pinned: bool, k: int, last: int) -> Seq<Move>
        decreases a,
    {
        if a == 0 {
            seq![]
        } else {
            proof {
                lemma_clear_lsb(a);
            }
            let to = lsb_spec(a) as int;
            (if !is_pinned || on_pin_ray(sq, to, k) {
                if to / 8 == last { promos(sq, to, true) } else { seq![mv_spec(sq, to, 4)] }
            } else {
                seq![]
            }) + self.pawn_caps(sq, clear_lsb(a), is_pinned, k, last)
        }
    }

    /// The square in front of our pawn on `sq`, if empty.
    pub open spec fn pawn_push1(self, sq: int) -> u64 {
        let bb = bit_spec(sq);
        let empty = !self.all_bb();
        if self.us() == Color::White { (bb << 8u64) & empty } else { (bb >> 8u64) & empty }
    }

    /// The single push of our pawn on `sq` (the four promotions on the last rank).
    pub open spec fn pawn_single(self, sq: int, pinned: u64, cm: u64, k: int) -> Seq<Move> {
        let last = if self.us() == Color::White { 7int } else { 0int };
        let to = lsb_spec(self.pawn_push1(sq)) as int;
        if sq_in(cm, to) && (!sq_in(pinned, sq) || on_pin_ray(sq, to, k)) {
            if to / 8 == last { promos(sq, to, false) } else { seq![mv_spec(sq, to, 0)] }
        } else {
            seq![]
        }
    }

    /// The double push of our pawn on `sq` from its starting rank.
    pub open spec fn pawn_double(self, sq: int, pinned: u64, cm: u64, k: int) -> Seq<Move> {
        let white = self.us() == Color::White;
        let push1 = self.pawn_push1(sq);
        let empty = !self.all_bb();
        if sq / 8 == (if white { 1int } else { 6int }) {
            let push2 = if white { (push1 << 8u64) & empty } else { (push1 >> 8u64) & empty };
            if push2 != 0 {
                let to2 = lsb_spec(push2) as int;
                if sq_in(cm, to2) && (!sq_in(pinned, sq) || on_pin_ray(sq, to2, k)) {
                    seq![mv_spec(sq, to2, 1)]
                } else {
                    seq![]
                }
            } else {
                seq![]
            }
        } else {
            seq![]
        }
    }

    /// Single push and double push of our pawn on `sq`.
    pub open spec fn pawn_pushes(self, sq: int, pinned: u64, cm: u64, k: int) -> Seq<Move> {
        if self.pawn_push1(sq) != 0 {
            self.pawn_single(sq, pinned, cm, k) + self.pawn_double(sq, pinned, cm, k)
        } else {
            seq![]
        }
    }

    /// The en-passant capture of our pawn on `sq`, if any.
    pub open spec fn pawn_ep(self, sq: int, cm: u64, k: int) -> Seq<Move> {
        let white = self.us() == Color::White;
        let ep = self.ep_square as int;
        if ep != 64 && sq_in(pawn_bb(sq, self.us()), ep) {
            let cap = if white { ep - 8 } else { ep + 8 };
            if (sq_in(cm, cap) || sq_in(cm, ep)) && self.ep_legal(sq, ep, cap, k) {
                seq![mv_spec(sq, ep, 5)]
            } else {
                seq![]
            }
        } else {
            seq![]
        }
    }

    /// The moves of our pawn on `sq`: pushes, double push, captures, en passant.
    #[verifier::opaque]
    pub open spec fn pawn_sq_moves(self, sq: int, pinned: u64, cm: u64, k: int) -> Seq<Move> {
        let last = if self.us() == Color::White { 7int } else { 0int };
        let their = self.color_bb(self.them());
        self.pawn_pushes(sq, pinned, cm, k)
            + self.pawn_caps(sq, (pawn_bb(sq, self.us()) & their) & cm, sq_in(pinned, sq), k, last)
            + self.pawn_ep(sq, cm, k)
    }

    /// Target squares of our knight, bishop, rook or queen on `sq`.
    #[verifier::opaque]
    pub open spec fn piece_targets(self, p: Piece, sq: int, pinned: u64, cm: u64, k: int) -> u64 {
        let own = self.color_bb(self.us());
        let all = self.all_bb();
        let atk = if p == Piece::Knight {
            knight_bb(sq)
        } else if p == Piece::Bishop {
            bishop_spec(sq, all)
        } else if p == Piece::Rook {
            rook_spec(sq, all)
        } else {
            rook_spec(sq, all) | bishop_spec(sq, all)
        };
        let a = atk & !own & cm;
        if p != Piece::Knight && sq_in(pinned, sq) {
            a & (ray_spec(k, sq) | ray_spec(sq, k))
        } else {
            a
        }
    }

    /// The moves of all our pieces of kind `p` (knights only when unpinned).
    pub open spec fn piece_moves(self, p: Piece, pinned: u64, cm: u64, k: int) -> Seq<Move> {
        let pieces = if p == Piece::Knight {
            self.piece_bb(self.us(), p) & !pinned
        } else {
            self.piece_bb(self.us(), p)
        };
        each_sq(pieces, self.piece_f(p, pinned, cm, k))
    }

    pub open spec fn piece_f(self, p: Piece, pinned: u64, cm: u64, k: int) -> spec_fn(int) -> Seq<Move> {
        let their = self.color_bb(self.them());
        |sq: int| target_moves(sq, self.piece_targets(p, sq, pinned, cm, k), their)
    }

    pub open spec fn pawn_f(self, pinned: u64, cm: u64, k: int) -> spec_fn(int) -> Seq<Move> {
        |sq: int| self.pawn_sq_moves(sq, pinned, cm, k)
    }

    /// King moves from `k` to each square of `atks` that is not attacked
    /// once the king has left `k`.
    #[verifier::opaque]
    pub open spec fn king_steps(self, k: int, atks: u64) -> Seq<Move>
        decreases atks,
    {
        if atks == 0 {
            seq![]
        } else {
            proof {
                lemma_clear_lsb(atks);
            }
            let to = lsb_spec(atks) as int;
            let occ = self.all_bb() ^ bit_spec(k);
            let their = self.color_bb(self.them());
            (if !self.attacked_occ(to, self.them(), occ) {
                seq![mv_spec(k, to, if sq_in(their, to) { 4 } else { 0 })]
            } else {
                seq![]
            }) + self.king_steps(k, clear_lsb(atks))
        }
    }

    pub open spec fn king_moves(self) -> Seq<Move> {
        let k = self.king_of(self.us());
        self.king_steps(k, king_bb(k) & !self.color_bb(self.us()))
    }

    /// Castling moves: the right is held, the squares between king and rook
    /// are empty and the king's path is not attacked.
    #[verifier::opaque]
    pub open spec fn castling_moves(self) -> Seq<Move> {
        let them = self.them();
        let all = self.all_bb();
        let occ = all ^ bit_spec(self.king_of(self.us()));
        let att = |s: int| self.attacked_occ(s, them, occ);
        if self.us() == Color::White {
            (if self.castling & 1 != 0 && all & 0x60 == 0 && !att(4) && !att(5) && !att(6) {
                seq![mv_spec(4, 6, 2)]
            } else {
                seq![]
            }) + (if self.castling & 2 != 0 && all & 0xE == 0 && !att(4) && !att(3) && !att(2) {
                seq![mv_spec(4, 2, 3)]
            } else {
                seq![]
            })
        } else {
            (if self.castling & 4 != 0 && all & 0x6000000000000000 == 0 && !att(60) && !att(61) && !att(62) {
                seq![mv_spec(60, 62, 2)]
            } else {
                seq![]
            }) + (if self.castling & 8 != 0 && all & 0x0E00000000000000 == 0 && !att(60) && !att(59) && !att(58) {
                seq![mv_spec(60, 58, 3)]
            } else {
                seq![]
            })
        }
    }

    /// The moves of every piece, given the pins, the check mask and the
    /// king square; castling moves last when `castle` holds.
    pub open spec fn moves_with(self, pinned: u64, cm: u64, k: int, castle: bool) -> Seq<Move> {
        each_sq(self.piece_bb(self.us(), Piece::Pawn), self.pawn_f(pinned, cm, k))
            + self.piece_moves(Piece::Knight, pinned, cm, k)
            + self.piece_moves(Piece::Bishop, pinned, cm, k)
            + self.piece_moves(Piece::Rook, pinned, cm, k)
            + self.piece_moves(Piece::Queen, pinned, cm, k)
            + self.king_moves()
            + (if castle { self.castling_moves() } else { seq![] })
    }

    /// All moves the generator produces, in order.
    #[verifier::opaque]
    pub open spec fn gen_moves(self) -> Seq<Move> {
        let ch = self.checkers();
        if pop_count(ch) > 1 {
            self.king_moves()
        } else {
            self.moves_with(self.pinned(), self.check_mask(), self.king_of(self.us()), pop_count(ch) == 0)
        }
    }
}

} // verus!

verus! {

/// Pushes a move from `from` to each square of `targets`, lowest first,
/// flagged as a capture where `their` holds the target.
fn push_targets(from: u32, targets: Bitboard, their_occ: Bitboard, list: &mut MoveList)
    requires
        from < 64,
        old(list).wf(),
        old(list).len + target_moves(from as int, targets, their_occ).len() <= 256,
    ensures
        final(list).wf(),
        final(list).view() == old(list).view() + target_moves(from as int, targets, their_occ),
{
    let mut atks = targets;
    while atks != 0
        invariant
            from < 64,
            list.wf(),
            list.len + target_moves(from as int, atks, their_occ).len() <= 256,
            list.view() + target_moves(from as int, atks, their_occ) == old(list).view() + target_moves(from as int, targets, their_occ),
        decreases atks,
    {
        let ghost before = atks;
        let to = pop_lsb(&mut atks);
        let b = bit(to);
        proof {
            lemma_bit_and(to as int, their_occ);
        }
        let flag = if b & their_occ != 0 { FLAG_CAPTURE } else { FLAG_QUIET };
        let m = Move::new(from, to, flag);
        let ghost l0 = list.view();
        list.push(m);
        proof {
            assert(target_moves(from as int, before, their_occ) == seq![m] + target_moves(from as int, atks, their_occ));
            assert(l0 + target_moves(from as int, before, their_occ) =~= list.view() + target_moves(from as int, atks, their_occ));
        }
    }
    proof {
        assert(list.view() + target_moves(from as int, 0, their_occ) =~= list.view());
    }
}

} // verus!

verus! {

pub fn compute_ray(a: u32, b: u32) -> (result: Bitboard)
    requires
        a < 64,
        b < 64,
    ensures
        result == ray_spec(a as int, b as int),
{
    if a == b {
        return 0;
    }
    let af = (a % 8) as i32;
    let ar = (a / 8) as i32;
    let bf = (b % 8) as i32;
    let br = (b / 8) as i32;
    let df = signum(bf - af);
    let dr = signum(br - ar);
    if df == 0 && dr == 0 {
        return 0;
    }
    if df != 0 && dr != 0 && abs_i32(bf - af) != abs_i32(br - ar) {
        return 0;
    }
    if df == 0 && af != bf {
        return 0;
    }
    if dr == 0 && ar != br {
        return 0;
    }
    let ghost total = ray_bb((af + df) as int, (ar + dr) as int, df as int, dr as int, 0);
    let mut result = 0u64;
    let mut f = af + df;
    let mut r = ar + dr;
    proof {
        lemma_or_assoc(total, 0, 0);
    }
    while f >= 0 && f < 8 && r >= 0 && r < 8
        invariant
            -1 <= f <= 8,
            -1 <= r <= 8,
            valid_dir(df as int, dr as int),
            result | ray_bb(f as int, r as int, df as int, dr as int, 0) == total,
        decreases ray_measure(f as int, r as int, df as int, dr as int),
    {
        let s = (r * 8 + f) as u32;
        proof {
            broadcast use group_bb;
            assert(!sq_in(0u64, s as int));
            lemma_or_assoc(result, bit_spec(s as int), ray_bb((f + df) as int, (r + dr) as int, df as int, dr as int, 0));
        }
        result |= bit(s);
        f += df;
        r += dr;
    }
    proof {
        lemma_or_assoc(result, 0, 0);
    }
    result
}

/// Squares between two squares along a rank/file/diagonal (exclusive of both ends).
pub fn between(a: u32, b: u32) -> (r: Bitboard)
    requires
        a < 64,
        b < 64,
    ensures
        r == between_spec(a as int, b as int),
{
    compute_between(a, b)
}

/// Squares on the ray from a through b (inclusive of b, exclusive of a).
pub fn ray_through(a: u32, b: u32) -> (r: Bitboard)
    requires
        a < 64,
        b < 64,
    ensures
        r == ray_spec(a as int, b as int),
{
    compute_ray(a, b)
}

/// The moves of all our pieces of kind `p` (knight, bishop, rook or queen).
fn gen_piece_kind(pos: &Position, p: Piece, their_occ: Bitboard, all: Bitboard, pinned: Bitboard, check_mask: Bitboard, king_sq: u32, list: &mut MoveList)
    requires
        pos.wf_board(),
        p == Piece::Knight || p == Piece::Bishop || p == Piece::Rook || p == Piece::Queen,
        king_sq < 64,
        their_occ == pos@.color_bb(pos@.them()),
        all == pos@.all_bb(),
        old(list).wf(),
        old(list).len + pos@.piece_moves(p, pinned, check_mask, king_sq as int).len() <= 256,
    ensures
        final(list).wf(),
        final(list).view() == old(list).view() + pos@.piece_moves(p, pinned, check_mask, king_sq as int),
{
    reveal(PosView::piece_targets);
    proof {
        pos.lemma_bitboards();
    }
    let ui = pos.side.index();
    let mut pieces = pos.pieces[ui][p.index()];
    if p == Piece::Knight {
        pieces = pieces & !pinned;
    }
    let ghost f = pos@.piece_f(p, pinned, check_mask, king_sq as int);
    let ghost start = pieces;
    assert(pos@.piece_moves(p, pinned, check_mask, king_sq as int) == each_sq(start, f));
    while pieces != 0
        invariant
            pos.wf_board(),
            p == Piece::Knight || p == Piece::Bishop || p == Piece::Rook || p == Piece::Queen,
            king_sq < 64,
            ui == pos.side.idx(),
            their_occ == pos@.color_bb(pos@.them()),
            all == pos@.all_bb(),
            pos.occupancy[ui as int] == pos@.color_bb(pos@.us()),
            f == pos@.piece_f(p, pinned, check_mask, king_sq as int),
            list.wf(),
            list.len + each_sq(pieces, f).len() <= 256,
            list.view() + each_sq(pieces, f) == old(list).view() + each_sq(start, f),
        decreases pieces,
    {
        let ghost before = pieces;
        let sq = pop_lsb(&mut pieces);
        let own = pos.occupancy[ui];
        let mut atks = if p == Piece::Knight {
            knight_attacks(sq)
        } else if p == Piece::Bishop {
            bishop_attacks(sq, all)
        } else if p == Piece::Rook {
            rook_attacks(sq, all)
        } else {
            queen_attacks(sq, all)
        } & !own & check_mask;
        let is_pinned = bit(sq) & pinned != 0;
        proof {
            lemma_bit_and(sq as int, pinned);
        }
        if p != Piece::Knight && is_pinned {
            atks &= ray_through(king_sq, sq) | ray_through(sq, king_sq);
        }
        assert(atks == pos@.piece_targets(p, sq as int, pinned, check_mask, king_sq as int)) by {
            reveal(PosView::piece_targets);
        }
        let ghost l0 = list.view();
        assert(each_sq(before, f) == f(sq as int) + each_sq(pieces, f));
        push_targets(sq, atks, their_occ, list);
        assert(l0 + each_sq(before, f) =~= list.view() + each_sq(pieces, f));
    }
    assert(list.view() + each_sq(0, f) =~= list.view());
}

} // verus!

verus! {

/// Enemy pieces that give check to the king on `king_sq`.
fn compute_checkers(pos: &Position, king_sq: u32, them: Color) -> (checkers: Bitboard)
    requires
        pos.wf_board(),
        king_sq < 64,
        king_sq == pos@.king_of(pos@.us()),
        them == pos@.them(),
    ensures
        checkers == pos@.checkers(),
{
    reveal(PosView::checkers);
    proof {
        pos.lemma_bitboards();
    }
    let ti = them.index();
    let all = pos.all;
    let checkers = (pawn_attacks(king_sq, them.flip().index()) & pos.pieces[ti][Piece::Pawn.index()])
        | (knight_attacks(king_sq) & pos.pieces[ti][Piece::Knight.index()])
        | (bishop_attacks(king_sq, all) & (pos.pieces[ti][Piece::Bishop.index()] | pos.pieces[ti][Piece::Queen.index()]))
        | (rook_attacks(king_sq, all) & (pos.pieces[ti][Piece::Rook.index()] | pos.pieces[ti][Piece::Queen.index()]));
    checkers
}

/// Check if `sq` is attacked by `attacker` given a custom occupancy.
fn is_attacked_with_occ(sq: u32, attacker: Color, pos: &Position, occ: Bitboard) -> (r: bool)
    requires
        pos.wf_board(),
        sq < 64,
    ensures
        r == pos@.attacked_occ(sq as int, attacker, occ),
{
    reveal(PosView::attacked_occ);
    proof {
        pos.lemma_bitboards();
    }
    let ai = attacker.index();
    if pawn_attacks(sq, attacker.flip().index()) & pos.pieces[ai][Piece::Pawn.index()] != 0 {
        return true;
    }
    if knight_attacks(sq) & pos.pieces[ai][Piece::Knight.index()] != 0 {
        return true;
    }
    if king_attacks(sq) & pos.pieces[ai][Piece::King.index()] != 0 {
        return true;
    }
    if bishop_attacks(sq, occ) & (pos.pieces[ai][Piece::Bishop.index()] | pos.pieces[ai][Piece::Queen.index()]) != 0 {
        return true;
    }
    if rook_attacks(sq, occ) & (pos.pieces[ai][Piece::Rook.index()] | pos.pieces[ai][Piece::Queen.index()]) != 0 {
        return true;
    }
    false
}

/// Adds to `pinned` each of our pieces that stands alone between the king
/// and a slider of `pc`.
fn collect_pins(king_sq: u32, pc: Bitboard, our_occ: Bitboard, pinned: Bitboard, Ghost(v): Ghost<PosView>) -> (r: Bitboard)
    requires
        king_sq < 64,
    ensures
        r == pinned | v.pin_fold(king_sq as int, pc, our_occ),
{
    let mut pc = pc;
    let mut pinned = pinned;
    let ghost start = pc;
    let ghost acc0 = pinned;
    proof {
        lemma_or_assoc(acc0, 0, 0);
    }
    while pc != 0
        invariant
            king_sq < 64,
            pinned | v.pin_fold(king_sq as int, pc, our_occ) == acc0 | v.pin_fold(king_sq as int, start, our_occ),
        decreases pc,
    {
        let ghost before = pc;
        let pinner = pop_lsb(&mut pc);
        let ray = between(king_sq, pinner) & our_occ;
        let ghost add = if ray != 0 && (ray & ((ray - 1) as u64)) == 0 { ray } else { 0u64 };
        proof {
            lemma_clear_lsb(before);
            assert(v.pin_fold(king_sq as int, before, our_occ) == add | v.pin_fold(king_sq as int, pc, our_occ));
            lemma_or_assoc(pinned, add, v.pin_fold(king_sq as int, pc, our_occ));
        }
        if ray != 0 && !more_than_one(ray) {
            pinned |= ray;
        } else {
            proof {
                assert(pinned | 0u64 == pinned) by (bit_vector);
            }
        }
    }
    proof {
        assert(pinned | 0u64 == pinned) by (bit_vector);
    }
    pinned
}

/// Our pieces pinned against our king by enemy sliders.
fn compute_pinned(pos: &Position, king_sq: u32, us: Color, them: Color) -> (pinned: Bitboard)
    requires
        pos.wf_board(),
        king_sq < 64,
        king_sq == pos@.king_of(pos@.us()),
        us == pos@.us(),
        them == pos@.them(),
    ensures
        pinned == pos@.pinned(),
{
    reveal(PosView::pinned);
    proof {
        pos.lemma_bitboards();
    }
    let ui = us.index();
    let ti = them.index();
    let our_occ = pos.occupancy[ui];
    let diagonal_attackers = pos.pieces[ti][Piece::Bishop.index()] | pos.pieces[ti][Piece::Queen.index()];
    let pc = bishop_attacks(king_sq, pos.all ^ our_occ) & diagonal_attackers;
    let pinned = collect_pins(king_sq, pc, our_occ, 0, Ghost(pos@));
    let orthogonal_attackers = pos.pieces[ti][Piece::Rook.index()] | pos.pieces[ti][Piece::Queen.index()];
    let pc2 = rook_attacks(king_sq, pos.all ^ our_occ) & orthogonal_attackers;
    let pinned = collect_pins(king_sq, pc2, our_occ, pinned, Ghost(pos@));
    proof {
        let a = pos@.pin_fold(king_sq as int, pc, our_occ);
        assert(0u64 | a == a) by (bit_vector);
    }
    pinned
}

} // verus!

verus! {

/// King moves to every square not held by our pieces and not attacked once
/// the king has left its square.
fn gen_king_moves(pos: &Position, king_sq: u32, us: Color, them: Color, their_occ: Bitboard, all: Bitboard, list: &mut MoveList)
    requires
        pos.wf_board(),
        king_sq < 64,
        king_sq == pos@.king_of(pos@.us()),
        us == pos@.us(),
        them == pos@.them(),
        their_occ == pos@.color_bb(pos@.them()),
        old(list).wf(),
        old(list).len + pos@.king_moves().len() <= 256,
    ensures
        final(list).wf(),
        final(list).view() == old(list).view() + pos@.king_moves(),
{
    reveal(PosView::king_steps);
    proof {
        pos.lemma_bitboards();
    }
    let ui = us.index();
    // Remove king from occupancy so it doesn't block its own ray attacks
    let occ_no_king = pos.all ^ bit(king_sq);
    let mut atks = king_attacks(king_sq) & !pos.occupancy[ui];
    let ghost start = atks;
    let ghost v = pos@;
    while atks != 0
        invariant
            pos.wf_board(),
            v == pos@,
            king_sq < 64,
            them == v.them(),
            their_occ == v.color_bb(v.them()),
            occ_no_king == v.all_bb() ^ bit_spec(king_sq as int),
            list.wf(),
            list.len + v.king_steps(king_sq as int, atks).len() <= 256,
            list.view() + v.king_steps(king_sq as int, atks) == old(list).view() + v.king_steps(king_sq as int, start),
        decreases atks,
    {
        let ghost before = atks;
        let to = pop_lsb(&mut atks);
        let ghost l0 = list.view();
        proof {
            reveal(PosView::king_steps);
            lemma_clear_lsb(before);
            lemma_bit_and(to as int, their_occ);
        }
        if !is_attacked_with_occ(to, them, pos, occ_no_king) {
            let flag = if bit(to) & their_occ != 0 { FLAG_CAPTURE } else { FLAG_QUIET };
            list.push(Move::new(king_sq, to, flag));
        }
        proof {
            assert(l0 + v.king_steps(king_sq as int, before) =~= list.view() + v.king_steps(king_sq as int, atks));
        }
    }
    assert(list.view() + v.king_steps(king_sq as int, 0) =~= list.view());
}

/// Castling: the right is held, the squares between king and rook are empty
/// and neither the king's square nor the two it crosses are attacked.
fn gen_castling(pos: &Position, us: Color, all: Bitboard, list: &mut MoveList)
    requires
        pos.wf_board(),
        pos@.king_of(pos@.us()) < 64,
        us == pos@.us(),
        all == pos@.all_bb(),
        old(list).wf(),
        old(list).len + pos@.castling_moves().len() <= 256,
    ensures
        final(list).wf(),
        final(list).view() == old(list).view() + pos@.castling_moves(),
{
    reveal(PosView::castling_moves);
    proof {
        pos.lemma_bitboards();
    }
    let them = us.flip();
    // Remove king from occ so it doesn't block slider attacks through castling squares
    let king_sq = pos.king_sq(us);
    let occ_no_king = all ^ bit(king_sq);
    let ghost l0 = list.view();
    let ghost v = pos@;
    if us == Color::White {
        if pos.castling & CASTLE_WK != 0 {
            if all & 0x60 == 0
                && !is_attacked_with_occ(squares::E1, them, pos, occ_no_king)
                && !is_attacked_with_occ(squares::F1, them, pos, occ_no_king)
                && !is_attacked_with_occ(squares::G1, them, pos, occ_no_king)
            {
                list.push(Move::new(squares::E1, squares::G1, FLAG_CASTLE_KS));
            }
        }
        let ghost l1 = list.view();
        if pos.castling & CASTLE_WQ != 0 {
            if all & 0xE == 0
                && !is_attacked_with_occ(squares::E1, them, pos, occ_no_king)
                && !is_attacked_with_occ(squares::D1, them, pos, occ_no_king)
                && !is_attacked_with_occ(squares::C1, them, pos, occ_no_king)
            {
                list.push(Move::new(squares::E1, squares::C1, FLAG_CASTLE_QS));
            }
        }
        proof {
            assert(list.view() =~= l0 + v.castling_moves());
        }
    } else {
        if pos.castling & CASTLE_BK != 0 {
            if all & 0x6000000000000000 == 0
                && !is_attacked_with_occ(squares::E8, them, pos, occ_no_king)
                && !is_attacked_with_occ(squares::F8, them, pos, occ_no_king)
                && !is_attacked_with_occ(squares::G8, them, pos, occ_no_king)
            {
                list.push(Move::new(squares::E8, squares::G8, FLAG_CASTLE_KS));
            }
        }
        if pos.castling & CASTLE_BQ != 0 {
            if all & 0x0E00000000000000 == 0
                && !is_attacked_with_occ(squares::E8, them, pos, occ_no_king)
                && !is_attacked_with_occ(squares::D8, them, pos, occ_no_king)
                && !is_attacked_with_occ(squares::C8, them, pos, occ_no_king)
            {
                list.push(Move::new(squares::E8, squares::C8, FLAG_CASTLE_QS));
            }
        }
        proof {
            assert(list.view() =~= l0 + v.castling_moves());
        }
    }
}

/// A pinned piece may only move along the line through its king.
fn is_on_pin_ray(from: u32, to: u32, king_sq: u32) -> (r: bool)
    requires
        from < 64,
        to < 64,
        king_sq < 64,
    ensures
        r == on_pin_ray(from as int, to as int, king_sq as int),
{
    proof {
        lemma_bit_and(to as int, ray_spec(king_sq as int, from as int));
        lemma_bit_and(to as int, ray_spec(from as int, king_sq as int));
    }
    ray_through(king_sq, from) & bit(to) != 0 || ray_through(from, king_sq) & bit(to) != 0
        || from == king_sq
}

/// The four promotions (knight, bishop, rook, queen) from `from` to `to`.
fn push_promotions(from: u32, to: u32, is_capture: bool, list: &mut MoveList)
    requires
        from < 64,
        to < 64,
        old(list).len + 4 <= 256,
    ensures
        final(list).wf(),
        final(list).view() == old(list).view() + promos(from as int, to as int, is_capture),
{
    let base = if is_capture { FLAG_PROMO_CAPTURE_N } else { FLAG_PROMO_N };
    let ghost l0 = list.view();
    list.push(Move::new(from, to, base));
    list.push(Move::new(from, to, base + 1));
    list.push(Move::new(from, to, base + 2));
    list.push(Move::new(from, to, base + 3));
    assert(list.view() =~= l0 + promos(from as int, to as int, is_capture));
}

/// After the en-passant capture no enemy slider attacks our king.
fn ep_is_legal(pos: &Position, from: u32, ep_to: u32, cap_sq: u32, king_sq: u32, us: Color) -> (r: bool)
    requires
        pos.wf_board(),
        from < 64,
        ep_to < 64,
        cap_sq < 64,
        king_sq < 64,
        us == pos@.us(),
    ensures
        r == pos@.ep_legal(from as int, ep_to as int, cap_sq as int, king_sq as int),
{
    proof {
        pos.lemma_bitboards();
    }
    let them = us.flip();
    let ti = them.index();
    let occ = (pos.all ^ bit(from) ^ bit(cap_sq)) | bit(ep_to);
    let rq = pos.pieces[ti][Piece::Rook.index()] | pos.pieces[ti][Piece::Queen.index()];
    let bq = pos.pieces[ti][Piece::Bishop.index()] | pos.pieces[ti][Piece::Queen.index()];
    rook_attacks(king_sq, occ) & rq == 0 && bishop_attacks(king_sq, occ) & bq == 0
}

fn gen_knight_moves(pos: &Position, us: Color, their_occ: Bitboard, pinned: Bitboard, check_mask: Bitboard, list: &mut MoveList)
    requires
        pos.wf_board(),
        us == pos@.us(),
        their_occ == pos@.color_bb(pos@.them()),
        old(list).wf(),
        old(list).len + pos@.piece_moves(Piece::Knight, pinned, check_mask, 0).len() <= 256,
    ensures
        final(list).wf(),
        final(list).view() == old(list).view() + pos@.piece_moves(Piece::Knight, pinned, check_mask, 0),
{
    proof {
        pos.lemma_bitboards();
    }
    gen_piece_kind(pos, Piece::Knight, their_occ, pos.all, pinned, check_mask, 0, list);
}

fn gen_bishop_moves(pos: &Position, us: Color, their_occ: Bitboard, all: Bitboard, pinned: Bitboard, check_mask: Bitboard, king_sq: u32, list: &mut MoveList)
    requires
        pos.wf_board(),
        king_sq < 64,
        us == pos@.us(),
        their_occ == pos@.color_bb(pos@.them()),
        all == pos@.all_bb(),
        old(list).wf(),
        old(list).len + pos@.piece_moves(Piece::Bishop, pinned, check_mask, king_sq as int).len() <= 256,
    ensures
        final(list).wf(),
        final(list).view() == old(list).view() + pos@.piece_moves(Piece::Bishop, pinned, check_mask, king_sq as int),
{
    gen_piece_kind(pos, Piece::Bishop, their_occ, all, pinned, check_mask, king_sq, list);
}

fn gen_rook_moves(pos: &Position, us: Color, their_occ: Bitboard, all: Bitboard, pinned: Bitboard, check_mask: Bitboard, king_sq: u32, list: &mut MoveList)
    requires
        pos.wf_board(),
        king_sq < 64,
        us == pos@.us(),
        their_occ == pos@.color_bb(pos@.them()),
        all == pos@.all_bb(),
        old(list).wf(),
        old(list).len + pos@.piece_moves(Piece::Rook, pinned, check_mask, king_sq as int).len() <= 256,
    ensures
        final(list).wf(),
        final(list).view() == old(list).view() + pos@.piece_moves(Piece::Rook, pinned, check_mask, king_sq as int),
{
    gen_piece_kind(pos, Piece::Rook, their_occ, all, pinned, check_mask, king_sq, list);
}

fn gen_queen_moves(pos: &Position, us: Color, their_occ: Bitboard, all: Bitboard, pinned: Bitboard, check_mask: Bitboard, king_sq: u32, list: &mut MoveList)
    requires
        pos.wf_board(),
        king_sq < 64,
        us == pos@.us(),
        their_occ == pos@.color_bb(pos@.them()),
        all == pos@.all_bb(),
        old(list).wf(),
        old(list).len + pos@.piece_moves(Piece::Queen, pinned, check_mask, king_sq as int).len() <= 256,
    ensures
        final(list).wf(),
        final(list).view() == old(list).view() + pos@.piece_moves(Piece::Queen, pinned, check_mask, king_sq as int),
{
    gen_piece_kind(pos, Piece::Queen, their_occ, all, pinned, check_mask, king_sq, list);
}

} // verus!

verus! {

/// Pawn captures from `sq` to each square of `a`, promoting on rank `last`.
fn push_pawn_captures(sq: u32, a: Bitboard, is_pinned: bool, king_sq: u32, last: u32, list: &mut MoveList, Ghost(v): Ghost<PosView>)
    requires
        sq < 64,
        king_sq < 64,
        old(list).wf(),
        old(list).len + v.pawn_caps(sq as int, a, is_pinned, king_sq as int, last as int).len() <= 256,
    ensures
        final(list).wf(),
        final(list).view() == old(list).view() + v.pawn_caps(sq as int, a, is_pinned, king_sq as int, last as int),
{
    let mut a = a;
    let ghost start = a;
    while a != 0
        invariant
            sq < 64,
            king_sq < 64,
            list.wf(),
            list.len + v.pawn_caps(sq as int, a, is_pinned, king_sq as int, last as int).len() <= 256,
            list.view() + v.pawn_caps(sq as int, a, is_pinned, king_sq as int, last as int) == old(list).view() + v.pawn_caps(sq as int, start, is_pinned, king_sq as int, last as int),
        decreases a,
    {
        let ghost before = a;
        let to = pop_lsb(&mut a);
        let ghost l0 = list.view();
        proof {
            lemma_clear_lsb(before);
        }
        if !is_pinned || is_on_pin_ray(sq, to, king_sq) {
            if rank_of(to) == last {
                push_promotions(sq, to, true, list);
            } else {
                list.push(Move::new(sq, to, FLAG_CAPTURE));
            }
        }
        proof {
            assert(l0 + v.pawn_caps(sq as int, before, is_pinned, king_sq as int, last as int) =~= list.view() + v.pawn_caps(sq as int, a, is_pinned, king_sq as int, last as int));
        }
    }
    assert(list.view() + v.pawn_caps(sq as int, 0, is_pinned, king_sq as int, last as int) =~= list.view());
}

/// Single and double pushes of our pawn on `sq`.
fn push_pawn_pushes(pos: &Position, sq: u32, empty: Bitboard, is_pinned: bool, check_mask: Bitboard, pinned: Bitboard, king_sq: u32, list: &mut MoveList)
    requires
        pos.wf_board(),
        sq < 64,
        king_sq < 64,
        empty == !pos@.all_bb(),
        is_pinned == sq_in(pinned, sq as int),
        old(list).wf(),
        old(list).len + pos@.pawn_pushes(sq as int, pinned, check_mask, king_sq as int).len() <= 256,
    ensures
        final(list).wf(),
        final(list).view() == old(list).view() + pos@.pawn_pushes(sq as int, pinned, check_mask, king_sq as int),
{
    let white = pos.side == Color::White;
    let last: u32 = if white { 7 } else { 0 };
    let bb = bit(sq);
    let push1 = if white { north(bb) } else { south(bb) } & empty;
    let ghost l0 = list.view();
    if push1 != 0 {
        let to = lsb(push1);
        proof {
            lemma_bit_and(to as int, check_mask);
        }
        if bit(to) & check_mask != 0 {
            if !is_pinned || is_on_pin_ray(sq, to, king_sq) {
                if rank_of(to) == last {
                    push_promotions(sq, to, false, list);
                } else {
                    list.push(Move::new(sq, to, FLAG_QUIET));
                }
            }
        }
        proof {
            assert(list.view() =~= l0 + pos@.pawn_single(sq as int, pinned, check_mask, king_sq as int));
        }
        let ghost l1 = list.view();
        // Double push
        if rank_of(sq) == (if white { 1 } else { 6 }) {
            let push2 = if white { north(push1) } else { south(push1) } & empty;
            if push2 != 0 {
                let to2 = lsb(push2);
                proof {
                    lemma_bit_and(to2 as int, check_mask);
                }
                if bit(to2) & check_mask != 0 {
                    if !is_pinned || is_on_pin_ray(sq, to2, king_sq) {
                        list.push(Move::new(sq, to2, FLAG_DOUBLE_PUSH));
                    }
                }
            }
        }
        proof {
            assert(list.view() =~= l0 + pos@.pawn_pushes(sq as int, pinned, check_mask, king_sq as int));
        }
    } else {
        proof {
            assert(list.view() =~= l0 + pos@.pawn_pushes(sq as int, pinned, check_mask, king_sq as int));
        }
    }
}

/// The en-passant capture of our pawn on `sq`, when it is legal.
fn push_pawn_ep(pos: &Position, sq: u32, check_mask: Bitboard, king_sq: u32, list: &mut MoveList)
    requires
        pos.wf_board(),
        pos.ep_square <= 64,
        sq < 64,
        king_sq < 64,
        old(list).wf(),
        old(list).len + pos@.pawn_ep(sq as int, check_mask, king_sq as int).len() <= 256,
    ensures
        final(list).wf(),
        final(list).view() == old(list).view() + pos@.pawn_ep(sq as int, check_mask, king_sq as int),
{
    let us = pos.side;
    let ep = pos.ep_square;
    let ghost l0 = list.view();
    if ep != squares::NONE {
        let ep_bb = bit(ep);
        let pa = pawn_attacks(sq, us.index());
        proof {
            lemma_bit_and(ep as int, pa);
            assert(pa == pawn_bb(sq as int, us));
        }
        if pa & ep_bb != 0 {
            // The captured pawn square
            let cap_sq = if us == Color::White { ep - 8 } else { ep + 8 };
            proof {
                lemma_bit_and(cap_sq as int, check_mask);
                lemma_bit_and(ep as int, check_mask);
            }
            // Check if ep resolves check (captured pawn was the checker)
            if bit(cap_sq) & check_mask != 0 || bit(ep) & check_mask != 0 {
                // Check that ep doesn't expose king (horizontal pin)
                if ep_is_legal(pos, sq, ep, cap_sq, king_sq, us) {
                    list.push(Move::new(sq, ep, FLAG_EP));
                }
            }
        }
    }
    proof {
        assert(list.view() =~= l0 + pos@.pawn_ep(sq as int, check_mask, king_sq as int));
    }
}

/// All moves of our pawn on `sq`.
fn gen_pawn_sq(pos: &Position, sq: u32, their_occ: Bitboard, empty: Bitboard, pinned: Bitboard, check_mask: Bitboard, king_sq: u32, list: &mut MoveList)
    requires
        pos.wf_board(),
        pos.ep_square <= 64,
        sq < 64,
        king_sq < 64,
        their_occ == pos@.color_bb(pos@.them()),
        empty == !pos@.all_bb(),
        old(list).wf(),
        old(list).len + pos@.pawn_sq_moves(sq as int, pinned, check_mask, king_sq as int).len() <= 256,
    ensures
        final(list).wf(),
        final(list).view() == old(list).view() + pos@.pawn_sq_moves(sq as int, pinned, check_mask, king_sq as int),
{
    reveal(PosView::pawn_sq_moves);
    let us = pos.side;
    let ghost v = pos@;
    let ghost l0 = list.view();
    let ghost last: int = if us == Color::White { 7 } else { 0 };
    let is_pinned = bit(sq) & pinned != 0;
    proof {
        lemma_bit_and(sq as int, pinned);
    }
    push_pawn_pushes(pos, sq, empty, is_pinned, check_mask, pinned, king_sq, list);
    let atks = pawn_attacks(sq, us.index()) & their_occ;
    let a = atks & check_mask;
    let last: u32 = if us == Color::White { 7 } else { 0 };
    proof {
        assert(atks == pawn_bb(sq as int, us) & their_occ);
        assert(pos@.pawn_sq_moves(sq as int, pinned, check_mask, king_sq as int) == pos@.pawn_pushes(sq as int, pinned, check_mask, king_sq as int)
            + v.pawn_caps(sq as int, a, is_pinned, king_sq as int, last as int) + pos@.pawn_ep(sq as int, check_mask, king_sq as int));
        assert(list.view().len() == list.len);
        assert(l0.len() == old(list).len);
    }
    push_pawn_captures(sq, a, is_pinned, king_sq, last, list, Ghost(pos@));
    proof {
        assert(list.view().len() == list.len);
    }
    push_pawn_ep(pos, sq, check_mask, king_sq, list);
    proof {
        assert(list.view() =~= l0 + pos@.pawn_sq_moves(sq as int, pinned, check_mask, king_sq as int));
    }
}

fn gen_pawn_moves(pos: &Position, us: Color, their_occ: Bitboard, empty: Bitboard, pinned: Bitboard, check_mask: Bitboard, king_sq: u32, list: &mut MoveList)
    requires
        pos.wf_board(),
        pos.ep_square <= 64,
        king_sq < 64,
        us == pos@.us(),
        their_occ == pos@.color_bb(pos@.them()),
        empty == !pos@.all_bb(),
        old(list).wf(),
        old(list).len + each_sq(pos@.piece_bb(pos@.us(), Piece::Pawn), pos@.pawn_f(pinned, check_mask, king_sq as int)).len() <= 256,
    ensures
        final(list).wf(),
        final(list).view() == old(list).view() + each_sq(pos@.piece_bb(pos@.us(), Piece::Pawn), pos@.pawn_f(pinned, check_mask, king_sq as int)),
{
    proof {
        pos.lemma_bitboards();
    }
    let ui = us.index();
    let mut pawns = pos.pieces[ui][Piece::Pawn.index()];
    let ghost f = pos@.pawn_f(pinned, check_mask, king_sq as int);
    let ghost start = pawns;
    while pawns != 0
        invariant
            pos.wf_board(),
            pos.ep_square <= 64,
            king_sq < 64,
            their_occ == pos@.color_bb(pos@.them()),
            empty == !pos@.all_bb(),
            f == pos@.pawn_f(pinned, check_mask, king_sq as int),
            list.wf(),
            list.len + each_sq(pawns, f).len() <= 256,
            list.view() + each_sq(pawns, f) == old(list).view() + each_sq(start, f),
        decreases pawns,
    {
        let ghost before = pawns;
        let sq = pop_lsb(&mut pawns);
        let ghost l0 = list.view();
        proof {
            lemma_clear_lsb(before);
            assert(each_sq(before, f) == f(sq as int) + each_sq(pawns, f));
        }
        gen_pawn_sq(pos, sq, their_occ, empty, pinned, check_mask, king_sq, list);
        assert(l0 + each_sq(before, f) =~= list.view() + each_sq(pawns, f));
    }
    assert(list.view() + each_sq(0, f) =~= list.view());
}

} // verus!

verus! {

/// Appends to `list` all legal moves of the side to move, in this order:
/// pawns, knights, bishops, rooks, queens, king, castling (only king moves
/// in double check).
pub fn generate_moves(pos: &Position, list: &mut MoveList)
    requires
        pos.wf_board(),
        pos.ep_square <= 64,
        pos@.king_of(pos@.us()) < 64,
        old(list).wf(),
        old(list).len + pos@.gen_moves().len() <= 256,
    ensures
        final(list).wf(),
        final(list).view() == old(list).view() + pos@.gen_moves(),
{
    proof {
        pos.lemma_bitboards();
        reveal(PosView::gen_moves);
    }
    let ghost v = pos@;
    let us = pos.side;
    let them = us.flip();
    let ui = us.index();
    let ti = them.index();

    let their_occ = pos.occupancy[ti];
    let all = pos.all;
    let empty = !all;

    let king_sq = pos.king_sq(us);

    // Compute checkers
    let checkers = compute_checkers(pos, king_sq, them);
    let num_checkers = popcount(checkers);

    // In double check, only king moves are legal
    if num_checkers > 1 {
        gen_king_moves(pos, king_sq, us, them, their_occ, all, list);
        return;
    }

    // Compute pinned pieces and check/block mask
    let (pinned, check_mask) = if num_checkers == 1 {
        let checker_sq = lsb(checkers);
        let cm = between(king_sq, checker_sq) | bit(checker_sq);
        (compute_pinned(pos, king_sq, us, them), cm)
    } else {
        (compute_pinned(pos, king_sq, us, them), FULL)
    };
    proof {
        assert(check_mask == v.check_mask());
    }
    gen_all_kinds(pos, their_occ, empty, pinned, check_mask, king_sq, num_checkers == 0, list);
}

/// Moves of every piece kind given the pins and the check mask, then
/// castling when `castle` holds.
#[verifier::rlimit(40)]
fn gen_all_kinds(pos: &Position, their_occ: Bitboard, empty: Bitboard, pinned: Bitboard, check_mask: Bitboard, king_sq: u32, castle: bool, list: &mut MoveList)
    requires
        pos.wf_board(),
        pos.ep_square <= 64,
        king_sq < 64,
        king_sq == pos@.king_of(pos@.us()),
        their_occ == pos@.color_bb(pos@.them()),
        empty == !pos@.all_bb(),
        old(list).wf(),
        old(list).len + pos@.moves_with(pinned, check_mask, king_sq as int, castle).len() <= 256,
    ensures
        final(list).wf(),
        final(list).view() == old(list).view() + pos@.moves_with(pinned, check_mask, king_sq as int, castle),
{
    proof {
        pos.lemma_bitboards();
        reveal(PosView::gen_moves);
    }
    let ghost v = pos@;
    let us = pos.side;
    let them = us.flip();
    let all = pos.all;
    let ghost k = king_sq as int;
    let ghost l0 = list.view();
    proof {
        assert(v.piece_f(Piece::Knight, pinned, check_mask, 0) =~= v.piece_f(Piece::Knight, pinned, check_mask, k)) by {
            reveal(PosView::piece_targets);
        }
        assert(list.view().len() == list.len);
    }
    gen_pawn_moves(pos, us, their_occ, empty, pinned, check_mask, king_sq, list);
    assert(list.view().len() == list.len);
    gen_knight_moves(pos, us, their_occ, pinned, check_mask, list);
    assert(list.view().len() == list.len);
    gen_bishop_moves(pos, us, their_occ, all, pinned, check_mask, king_sq, list);
    assert(list.view().len() == list.len);
    gen_rook_moves(pos, us, their_occ, all, pinned, check_mask, king_sq, list);
    assert(list.view().len() == list.len);
    gen_queen_moves(pos, us, their_occ, all, pinned, check_mask, king_sq, list);
    assert(list.view().len() == list.len);
    gen_king_moves(pos, king_sq, us, them, their_occ, all, list);
    assert(list.view().len() == list.len);
    if castle {
        gen_castling(pos, us, all, list);
    }
    proof {
        assert(list.view() =~= l0 + v.moves_with(pinned, check_mask, k, castle));
    }
}

/// Generate all legal moves for the current side.
pub fn generate_legal_moves(pos: &Position) -> (list: MoveList)
    requires
        pos.wf_board(),
        pos.ep_square <= 64,
        pos@.king_of(pos@.us()) < 64,
        pos@.gen_moves().len() <= 256,
    ensures
        list.wf(),
        list.view() == pos@.gen_moves(),
{
    let mut list = MoveList::new();
    generate_moves(pos, &mut list);
    assert(list.view() =~= pos@.gen_moves());
    list
}

} // verus!
