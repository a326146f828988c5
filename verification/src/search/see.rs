//! Static exchange evaluation: the material balance of the capture
//! sequence on one square when both sides recapture with their least
//! valuable piece, each capture answered by the best reply.
use vstd::prelude::*;
use crate::board::attacks::{attackers_to, attackers_spec};
use crate::board::moves::Move;
use crate::board::position::Position;
use crate::board::types::Piece;
use crate::board::bitboard::sq_in;

verus! {

/// SEE piece values (approximate, for exchange evaluation)
pub const SEE_VAL: [i32; 6] = [100, 300, 300, 500, 900, 20_000];

/// The first piece kind (pawn first) among `pieces` with an attacker in
/// `side_attackers`, or the king at square 0 when there is none.
pub open spec fn lva_spec(side_attackers: u64, pieces: [u64; 6], p: int) -> (u32, Piece)
    decreases 6 - p,
{
    if p < 0 || p >= 6 {
        (0, Piece::King)
    } else if side_attackers & pieces[p] != 0 {
        (crate::board::bitboard::lsb_spec(side_attackers & pieces[p]), crate::board::types::piece_of_idx(p))
    } else {
        lva_spec(side_attackers, pieces, p + 1)
    }
}

/// The least valuable attacker: its square and kind.
pub fn see_find_lva(side_attackers: u64, pieces: &[u64; 6]) -> (r: (u32, Piece))
    ensures
        r == lva_spec(side_attackers, *pieces, 0),
        r.0 < 64 || r == (0u32, Piece::King),
{
    let mut p: usize = 0;
    while p < 6
        invariant
            p <= 6,
            lva_spec(side_attackers, *pieces, p as int) == lva_spec(side_attackers, *pieces, 0),
        decreases 6 - p,
    {
        let overlap = side_attackers & pieces[p];
        if overlap != 0 {
            let sq = crate::board::bitboard::lsb(overlap);
            return (sq, Piece::from_index(p));
        }
        p += 1;
    }
    (0, Piece::King)
}

/// The other side's index is a side index too.
proof fn lemma_other_side(x: usize)
    ensures
        x < 2 ==> x ^ 1 < 2 && x ^ 1 == 1 - x,
{
    assert(x < 2 ==> x ^ 1 < 2 && x ^ 1 == 1 - x) by (bit_vector);
}

/// The gains of the exchange on `to` from step `d` on. At each step the
/// side `stm` recaptures with its least valuable attacker among the pieces
/// still on the board (`occ`; its own pieces `by0` or `by1`), and the gain
/// is the value `av` of the piece it takes minus the previous gain `g`. The
/// exchange ends when the side has no attacker, or after step 31.
pub open spec fn see_gains(p: [[u64; 6]; 2], to: int, occ: u64, by0: u64, by1: u64, stm: int, av: int, g: int, d: int) -> Seq<int>
    decreases 32 - d,
{
    if d < 1 || d >= 32 {
        seq![]
    } else {
        let side = attackers_spec(to, occ, p) & occ & (if stm == 0 { by0 } else { by1 });
        if side == 0 {
            seq![]
        } else {
            let (lsq, lp) = lva_spec(side, p[stm], 0);
            let gd = av - g;
            let lb: u64 = if lsq < 64 { 1u64 << lsq } else { 0 };
            seq![gd] + see_gains(
                p,
                to,
                occ ^ lb,
                if stm == 0 { by0 ^ lb } else { by0 },
                if stm == 0 { by1 } else { by1 ^ lb },
                1 - stm,
                SEE_VAL[lp.idx()] as int,
                gd,
                d + 1,
            )
        }
    }
}

/// The value of an exchange from its gains, read back from the last
/// capture: a side that recaptures takes the smaller of its own gain and
/// the negated value of the rest of the exchange, `-max(-gain, rest)`.
pub open spec fn see_back(gs: Seq<int>) -> int
    decreases gs.len(),
{
    if gs.len() == 0 {
        0
    } else if gs.len() == 1 {
        gs[0]
    } else {
        let rest = see_back(gs.drop_first());
        if -rest < gs[0] { -rest } else { gs[0] }
    }
}

/// The gains of the exchange that `mv` starts.
pub open spec fn see_gains_full(pos: &Position, mv: Move) -> Seq<int> {
    let to = mv.to_spec();
    let mover = pos.at(mv.from_spec()).unwrap().1;
    let cap: int = match pos.at(to) {
        Some((_, q)) => SEE_VAL[q.idx()] as int,
        None => 0,
    };
    let promo = mv.is_promotion_spec();
    let av: int = if promo { SEE_VAL[4] as int } else { SEE_VAL[mover.idx()] as int };
    let g0: int = if promo { cap + SEE_VAL[4] - SEE_VAL[0] } else { cap };
    let fb: u64 = 1u64 << (mv.from_spec() as u64);
    let occ = (pos.occupancy[0] | pos.occupancy[1]) ^ fb;
    let si = pos.side.idx();
    let by0 = if si == 0 { pos.occupancy[0] ^ fb } else { pos.occupancy[0] };
    let by1 = if si == 0 { pos.occupancy[1] } else { pos.occupancy[1] ^ fb };
    seq![g0] + see_gains(pos.pieces, to, occ, by0, by1, 1 - si, av, g0, 1)
}

/// The static exchange value of `mv` on `pos` (0 for en passant and for a
/// move from an empty square): the moving piece (a queen when promoting)
/// takes what stands on the target, then both sides recapture.
pub open spec fn see_spec(pos: &Position, mv: Move) -> int {
    if mv.flags_spec() == 5 || pos.at(mv.from_spec()) is None {
        0
    } else {
        see_back(see_gains_full(pos, mv))
    }
}

/// Static exchange evaluation of `mv`: the expected material gain of the
/// capture sequence it starts (0 for en passant and for an empty from
/// square).
pub fn see(pos: &Position, mv: Move) -> (r: i32)
    ensures
        r == see_spec(pos, mv),
        mv.flags_spec() == 5 ==> r == 0,
        mv.flags_spec() != 5 && pos.at(mv.from_spec()) is None ==> r == 0,
        -700_000 <= r <= 700_000,
{
    if mv.is_ep() {
        return 0;
    }
    let to = mv.to();
    let from = mv.from();
    let captured_val = match pos.piece_at(to) {
        Some((_, p)) => SEE_VAL[p.index()],
        None => 0,
    };
    let mover_piece = match pos.piece_at(from) {
        Some((_, p)) => p,
        None => {
            return 0;
        },
    };
    let mut attacker_val = if mv.is_promotion() { SEE_VAL[Piece::Queen.index()] } else { SEE_VAL[mover_piece.index()] };
    let mut gain = [0i32; 32];
    gain[0] = captured_val;
    if mv.is_promotion() {
        gain[0] = gain[0] + SEE_VAL[Piece::Queen.index()] - SEE_VAL[Piece::Pawn.index()];
    }
    // Track occupancy and per-color occupancy separately so captured pieces
    // are excluded from subsequent attacker lookups.
    let mut occ = (pos.occupancy[0] | pos.occupancy[1]) ^ (1u64 << from);
    let mut by_color = [pos.occupancy[0], pos.occupancy[1]];
    let si = pos.side.index();
    by_color.set(si, by_color[si] ^ (1u64 << from));
    let mut stm = si ^ 1;
    let mut d: usize = 1;
    proof {
        lemma_other_side(si);
    }
    let ghost full = seq![gain[0] as int] + see_gains(pos.pieces, to as int, occ, by_color[0], by_color[1], stm as int, attacker_val as int, gain[0] as int, 1);
    assert(full == see_gains_full(pos, mv)) by {
        assert(to as int == mv.to_spec());
    }
    loop
        invariant_except_break
            d < 32,
        invariant
            1 <= d <= 32,
            to < 64,
            stm < 2,
            0 <= attacker_val <= 20_000,
            forall|i: int| 0 <= i < d ==> -21_000 * (i + 1) <= #[trigger] gain[i] <= 21_000 * (i + 1),
            forall|i: int| d <= i < 32 ==> #[trigger] gain[i] == 0,
            full == Seq::new(d as nat, |k: int| gain[k] as int) + see_gains(pos.pieces, to as int, occ, by_color[0], by_color[1], stm as int, attacker_val as int, gain[d - 1] as int, d as int),
        ensures
            1 <= d <= 32,
            full == Seq::new(d as nat, |k: int| gain[k] as int),
            forall|i: int| 0 <= i < d ==> -21_000 * (i + 1) <= #[trigger] gain[i] <= 21_000 * (i + 1),
        decreases 32 - d,
    {
        // Only pieces still on the board attack (x-ray sliders appear as occ shrinks).
        let all_attackers = attackers_to(to, occ, &pos.pieces) & occ;
        let side_attackers = all_attackers & by_color[stm];
        let ghost rest = see_gains(pos.pieces, to as int, occ, by_color[0], by_color[1], stm as int, attacker_val as int, gain[d - 1] as int, d as int);
        if side_attackers == 0 {
            proof {
                assert(rest == Seq::<int>::empty());
                assert(full =~= Seq::new(d as nat, |k: int| gain[k] as int));
            }
            break;
        }
        // Least valuable attacker
        let ghost g_prev = gain[d - 1] as int;
        let ghost av = attacker_val as int;
        let ghost pre = Seq::new(d as nat, |k: int| gain[k] as int);
        let (lva_sq, lva_piece) = see_find_lva(side_attackers, &pos.pieces[stm]);
        gain[d] = attacker_val - gain[d - 1];
        attacker_val = SEE_VAL[lva_piece.index()];
        // Remove the attacker; the occupancy update reveals x-ray sliders.
        let lb = if lva_sq < 64 { 1u64 << lva_sq } else { 0 };
        occ ^= lb;
        by_color.set(stm, by_color[stm] ^ lb);
        proof {
            lemma_other_side(stm);
        }
        stm ^= 1;
        d += 1;
        proof {
            let next = see_gains(pos.pieces, to as int, occ, by_color[0], by_color[1], stm as int, attacker_val as int, gain[d - 1] as int, d as int);
            assert(rest == seq![av - g_prev] + next);
            assert(Seq::new(d as nat, |k: int| gain[k] as int) =~= pre.push(av - g_prev));
            assert(full =~= Seq::new(d as nat, |k: int| gain[k] as int) + next);
        }
        if d >= 32 {
            proof {
                assert(full =~= Seq::new(d as nat, |k: int| gain[k] as int));
            }
            break;
        }
    }
    // Negamax the gains back to the first capture.
    assert forall|i: int| 0 <= i < 32 implies -672_000 <= #[trigger] gain[i] <= 672_000 by {
        if i < d {
            assert(-21_000 * (i + 1) >= -672_000);
        }
    }
    let ghost n = d as int;
    d -= 1;
    proof {
        assert(full.subrange(d as int, n) =~= seq![full[d as int]]);
    }
    while d > 0
        invariant
            d < n <= 32,
            full.len() == n,
            forall|i: int| 0 <= i < 32 ==> -672_000 <= #[trigger] gain[i] <= 672_000,
            forall|k: int| 0 <= k < d ==> #[trigger] gain[k] as int == full[k],
            gain[d as int] as int == see_back(full.subrange(d as int, n)),
        decreases d,
    {
        let a = -gain[d];
        let b = gain[d - 1];
        proof {
            let sub = full.subrange(d - 1, n);
            assert(sub.drop_first() =~= full.subrange(d as int, n));
            assert(sub[0] == full[d - 1]);
        }
        gain[d - 1] = if a < b { a } else { b };
        d -= 1;
    }
    proof {
        assert(full.subrange(0, n) =~= full);
    }
    gain[0]
}

/// An exchange nobody answers: when, with the mover lifted from its square,
/// no piece of the opponent attacks the target, the exchange is worth what
/// the move takes at once: the value of the piece on the target (if any),
/// plus for a promotion the 800 that a queen gains over a pawn.
pub proof fn lemma_see_unanswered(pos: &Position, mv: Move)
    requires
        mv.flags_spec() != 5,
        pos.at(mv.from_spec()) is Some,
        ({
            let occ = (pos.occupancy[0] | pos.occupancy[1]) ^ (1u64 << (mv.from_spec() as u64));
            attackers_spec(mv.to_spec(), occ, pos.pieces) & occ & pos.occupancy[1 - pos.side.idx()] == 0
        }),
    ensures
        see_spec(pos, mv) == (match pos.at(mv.to_spec()) {
            Some((_, q)) => SEE_VAL[q.idx()] as int,
            None => 0int,
        }) + (if mv.is_promotion_spec() { 800int } else { 0int }),
{
    let si = pos.side.idx();
    let fb: u64 = 1u64 << (mv.from_spec() as u64);
    let occ = (pos.occupancy[0] | pos.occupancy[1]) ^ fb;
    let by0 = if si == 0 { pos.occupancy[0] ^ fb } else { pos.occupancy[0] };
    let by1 = if si == 0 { pos.occupancy[1] } else { pos.occupancy[1] ^ fb };
    let full = see_gains_full(pos, mv);
    let to = mv.to_spec();
    let mover = pos.at(mv.from_spec()).unwrap().1;
    let cap: int = match pos.at(to) {
        Some((_, q)) => SEE_VAL[q.idx()] as int,
        None => 0,
    };
    let promo = mv.is_promotion_spec();
    let av: int = if promo { SEE_VAL[4] as int } else { SEE_VAL[mover.idx()] as int };
    let g0: int = if promo { cap + SEE_VAL[4] - SEE_VAL[0] } else { cap };
    assert(see_gains(pos.pieces, to, occ, by0, by1, 1 - si, av, g0, 1) =~= Seq::<int>::empty());
    assert(full =~= seq![g0]);
}

} // verus!
