//! Self-checks of the move generator: a brute-force legal move count
//! (every pseudo-legal move, kept when it leaves the mover's king safe), a
//! perft that compares it with the generator at every node, per-move perft
//! counts, and a scan of the generated moves for impossible ones.
use vstd::prelude::*;
use vstd::string::StringExecFns;
use crate::board::attacks::{
    knight_bb, king_bb, pawn_bb, rook_spec, bishop_spec, knight_att, king_att, pawn_att, knight_attacks,
    king_attacks, pawn_attacks, bishop_attacks, rook_attacks, queen_attacks,
};
use crate::board::bitboard::{Bitboard, sq_in, bit, lsb_spec, clear_lsb, lemma_clear_lsb, pop_lsb, lemma_bit_and, lemma_lsb, group_bb};
use crate::board::moves::lemma_move_roundtrip;
use crate::board::moves::{
    Move, FLAG_QUIET, FLAG_DOUBLE_PUSH, FLAG_CASTLE_KS, FLAG_CASTLE_QS, FLAG_CAPTURE, FLAG_EP,
    FLAG_PROMO_N, FLAG_PROMO_CAPTURE_N,
};
use crate::board::position::{PosView, Position, castle_rook, ep_victim, attacked_spec};
use crate::board::types::{Color, Piece, color_of_idx, piece_of_idx, rank_of, CASTLE_WK, CASTLE_WQ, CASTLE_BK, CASTLE_BQ};
use crate::movegen::{mv_spec, target_moves, promos, each_sq};
use crate::uci::{move_sound, perft_ok, perft_spec, perft_sum, lemma_perft_sum_mono};
use crate::board::fen::fen_text;
use crate::movegen::generate_legal_moves;

verus! {

/// Square `sq` is attacked by a piece of color `c` in `v` (the test that
/// `Position::is_attacked` makes, read on the board content).
pub open spec fn att_view(v: PosView, sq: int, c: Color) -> bool {
    exists|t: int|
        0 <= t < 64 && #[trigger] sq_in(v.color_bb(c), t) && {
            ||| sq_in(v.piece_bb(c, Piece::Pawn), t) && pawn_att(sq, c.opp(), t)
            ||| sq_in(v.piece_bb(c, Piece::Knight), t) && knight_att(sq, t)
            ||| sq_in(v.piece_bb(c, Piece::King), t) && king_att(sq, t)
            ||| (sq_in(v.piece_bb(c, Piece::Bishop), t) || sq_in(v.piece_bb(c, Piece::Queen), t))
                && sq_in(bishop_spec(sq, v.all_bb()), t)
            ||| (sq_in(v.piece_bb(c, Piece::Rook), t) || sq_in(v.piece_bb(c, Piece::Queen), t))
                && sq_in(rook_spec(sq, v.all_bb()), t)
        }
}

/// On a consistent position the bitboard test is the content test.
proof fn lemma_att_view(pos: &Position, sq: int, c: Color)
    requires
        pos.wf_board(),
    ensures
        attacked_spec(pos, sq, c) == att_view(pos@, sq, c),
{
    pos.lemma_bitboards();
    let ci = c.idx();
    assert(color_of_idx(ci) == c);
    assert(pos.occupancy[ci] == pos@.color_bb(c));
    assert(pos.pieces[ci][0] == pos@.piece_bb(c, piece_of_idx(0)));
    assert(pos.pieces[ci][1] == pos@.piece_bb(c, piece_of_idx(1)));
    assert(pos.pieces[ci][2] == pos@.piece_bb(c, piece_of_idx(2)));
    assert(pos.pieces[ci][3] == pos@.piece_bb(c, piece_of_idx(3)));
    assert(pos.pieces[ci][4] == pos@.piece_bb(c, piece_of_idx(4)));
    assert(pos.pieces[ci][5] == pos@.piece_bb(c, piece_of_idx(5)));
}

/// The side to move is in check: its king (the lowest one, as
/// `Position::king_sq` finds it) is attacked.
pub open spec fn side_in_check(v: PosView) -> bool {
    att_view(v, lsb_spec(v.piece_bb(v.side, Piece::King)) as int, v.side.opp())
}

/// `Position::in_check` tests `side_in_check` on the position's content.
pub proof fn lemma_in_check_view(pos: &Position)
    requires
        pos.wf_board(),
    ensures
        attacked_spec(pos, lsb_spec(pos.pieces[pos.side.idx()][5]) as int, pos.side.opp())
            == side_in_check(pos@),
{
    pos.lemma_bitboards();
    let si = pos.side.idx();
    assert(color_of_idx(si) == pos.side);
    assert(pos.pieces[si][5] == pos@.piece_bb(pos.side, piece_of_idx(5)));
    lemma_att_view(pos, lsb_spec(pos.pieces[si][5]) as int, pos.side.opp());
}

/// Pushes of our pawn on `sq`: one square forward when empty (the four
/// promotions on the last rank), and two squares from the starting rank.
pub open spec fn pawn_push_pseudo(v: PosView, sq: int) -> Seq<Move> {
    let all = v.all_bb();
    if v.side == Color::White {
        let to = sq + 8;
        if to < 64 && !sq_in(all, to) {
            (if to / 8 == 7 { promos(sq, to, false) } else { seq![mv_spec(sq, to, 0)] }) + (if sq / 8 == 1
                && sq + 16 < 64 && !sq_in(all, sq + 16) {
                seq![mv_spec(sq, sq + 16, 1)]
            } else {
                seq![]
            })
        } else {
            seq![]
        }
    } else {
        let to = sq - 8;
        if sq >= 8 && !sq_in(all, to) {
            (if to / 8 == 0 { promos(sq, to, false) } else { seq![mv_spec(sq, to, 0)] }) + (if sq / 8 == 6
                && sq >= 16 && !sq_in(all, sq - 16) {
                seq![mv_spec(sq, sq - 16, 1)]
            } else {
                seq![]
            })
        } else {
            seq![]
        }
    }
}

/// Captures of our pawn on `sq` onto each square of `caps`, lowest first
/// (the four promotions on rank `last`).
pub open spec fn pawn_cap_pseudo(sq: int, caps: u64, last: int) -> Seq<Move>
    decreases caps,
{
    if caps == 0 {
        seq![]
    } else {
        proof {
            lemma_clear_lsb(caps);
        }
        let to = lsb_spec(caps) as int;
        (if to / 8 == last { promos(sq, to, true) } else { seq![mv_spec(sq, to, 4)] }) + pawn_cap_pseudo(
            sq,
            clear_lsb(caps),
            last,
        )
    }
}

/// The pseudo-legal moves of our pawn on `sq`: pushes, captures, and the
/// en-passant capture when the pawn attacks the en-passant square.
pub open spec fn pawn_pseudo(v: PosView, sq: int) -> Seq<Move> {
    let us = v.side;
    let atk = pawn_bb(sq, us);
    pawn_push_pseudo(v, sq) + pawn_cap_pseudo(sq, atk & v.color_bb(us.opp()), if us == Color::White { 7 } else { 0 })
        + (if v.ep_square != 64 && sq_in(atk, v.ep_square as int) {
        seq![mv_spec(sq, v.ep_square as int, 5)]
    } else {
        seq![]
    })
}

/// Castling of our king on `sq`: not in check, the right held, the squares
/// between king and rook empty and the square the king crosses not attacked.
pub open spec fn castle_pseudo(v: PosView, sq: int) -> Seq<Move> {
    let them = v.side.opp();
    let all = v.all_bb();
    if att_view(v, sq, them) {
        seq![]
    } else if v.side == Color::White {
        (if v.castling & 1 != 0 && all & 0x60 == 0 && !att_view(v, 5, them) { seq![mv_spec(4, 6, 2)] } else { seq![] })
            + (if v.castling & 2 != 0 && all & 0xE == 0 && !att_view(v, 3, them) { seq![mv_spec(4, 2, 3)] } else { seq![] })
    } else {
        (if v.castling & 4 != 0 && all & 0x6000000000000000 == 0 && !att_view(v, 61, them) {
            seq![mv_spec(60, 62, 2)]
        } else {
            seq![]
        }) + (if v.castling & 8 != 0 && all & 0x0E00000000000000 == 0 && !att_view(v, 59, them) {
            seq![mv_spec(60, 58, 3)]
        } else {
            seq![]
        })
    }
}

/// The pseudo-legal moves of our piece on `sq`, pins and checks ignored.
pub open spec fn piece_pseudo(v: PosView, sq: int) -> Seq<Move> {
    let our = v.color_bb(v.side);
    let their = v.color_bb(v.side.opp());
    let all = v.all_bb();
    match v.at(sq) {
        Some((_, Piece::Pawn)) => pawn_pseudo(v, sq),
        Some((_, Piece::Knight)) => target_moves(sq, knight_bb(sq) & !our, their),
        Some((_, Piece::Bishop)) => target_moves(sq, bishop_spec(sq, all) & !our, their),
        Some((_, Piece::Rook)) => target_moves(sq, rook_spec(sq, all) & !our, their),
        Some((_, Piece::Queen)) => target_moves(sq, (rook_spec(sq, all) | bishop_spec(sq, all)) & !our, their),
        Some((_, Piece::King)) => target_moves(sq, king_bb(sq) & !our, their) + castle_pseudo(v, sq),
        None => seq![],
    }
}

/// All pseudo-legal moves, our pieces taken from the lowest square up.
pub open spec fn pseudo_moves(v: PosView) -> Seq<Move> {
    each_sq(v.color_bb(v.side), |sq: int| piece_pseudo(v, sq))
}

/// After `m` the mover's king is on the board and not attacked.
pub open spec fn king_safe_after(v: PosView, m: Move) -> bool {
    let w = v.make_view(m);
    let k = lsb_spec(w.piece_bb(v.side, Piece::King)) as int;
    k < 64 && !att_view(w, k, v.side.opp())
}

/// Number of moves of `s` that can be made and leave the mover's king safe.
pub open spec fn legal_in(v: PosView, s: Seq<Move>) -> nat
    decreases s.len(),
{
    if s.len() == 0 {
        0
    } else {
        legal_in(v, s.drop_last()) + if move_sound(v, s.last()) && king_safe_after(v, s.last()) {
            1nat
        } else {
            0nat
        }
    }
}

/// Whether `mv` can be made on `pos` and taken back (`move_sound`).
pub fn move_sound_exec(pos: &Position, mv: Move) -> (r: bool)
    ensures
        r == move_sound(pos@, mv),
{
    let from = mv.from();
    let to = mv.to();
    let fl = mv.flags();
    let us = pos.side;
    let them = us.flip();
    let mover = match pos.piece_at(from) {
        Some((c, p)) => {
            if c != us {
                return false;
            }
            p
        },
        None => {
            return false;
        },
    };
    if pos.halfmove_clock >= 255 || (them == Color::White && pos.fullmove >= 65535) || fl == 6 || fl == 7 {
        return false;
    }
    let target = pos.piece_at(to);
    if fl == FLAG_QUIET {
        target.is_none()
    } else if fl == FLAG_DOUBLE_PUSH {
        mover == Piece::Pawn && target.is_none() && (us == Color::Black || to >= 8) && (us == Color::White || to < 56)
    } else if fl == FLAG_CASTLE_KS || fl == FLAG_CASTLE_QS {
        let ks = fl == FLAG_CASTLE_KS;
        let (rf, rt): (u32, u32) = if ks {
            if us == Color::White { (7, 5) } else { (63, 61) }
        } else {
            if us == Color::White { (0, 3) } else { (56, 59) }
        };
        let rook_home = match pos.piece_at(rf) {
            Some((c, p)) => c == us && p == Piece::Rook,
            None => false,
        };
        mover == Piece::King && target.is_none() && rf != to && rt != to && rook_home && (rt == from
            || pos.piece_at(rt).is_none()) && rt != from
    } else if fl == FLAG_CAPTURE {
        match target {
            Some((c, _)) => c == them,
            None => false,
        }
    } else if fl == FLAG_EP {
        if mover != Piece::Pawn || target.is_some() || (us == Color::White && to < 8) || (us == Color::Black && to >= 56) {
            return false;
        }
        let victim = if us == Color::White { to - 8 } else { to + 8 };
        match pos.piece_at(victim) {
            Some((c, p)) => c == them && p == Piece::Pawn,
            None => false,
        }
    } else if fl < 12 {
        mover == Piece::Pawn && target.is_none()
    } else {
        mover == Piece::Pawn && match target {
            Some((c, _)) => c == them,
            None => false,
        }
    }
}


/// Pushes the four promotions from `from` to `to`.
fn push_promos(from: u32, to: u32, capture: bool, list: &mut Vec<Move>)
    requires
        from < 64,
        to < 64,
    ensures
        final(list)@ == old(list)@ + promos(from as int, to as int, capture),
{
    let base: u16 = if capture { FLAG_PROMO_CAPTURE_N } else { FLAG_PROMO_N };
    list.push(Move::new(from, to, base));
    list.push(Move::new(from, to, base + 1));
    list.push(Move::new(from, to, base + 2));
    list.push(Move::new(from, to, base + 3));
    proof {
        assert(final(list)@ =~= old(list)@ + promos(from as int, to as int, capture));
    }
}

/// Pushes a move from `from` to each square of `targets`, lowest first,
/// flagged as a capture where `their` holds the target.
fn push_target_moves(from: u32, targets: Bitboard, their: Bitboard, list: &mut Vec<Move>)
    requires
        from < 64,
    ensures
        final(list)@ == old(list)@ + target_moves(from as int, targets, their),
{
    let mut atks = targets;
    while atks != 0
        invariant
            from < 64,
            list@ + target_moves(from as int, atks, their) == old(list)@ + target_moves(from as int, targets, their),
        decreases atks,
    {
        let ghost before = atks;
        let to = pop_lsb(&mut atks);
        proof {
            lemma_bit_and(to as int, their);
        }
        let f = if their & bit(to) != 0 { FLAG_CAPTURE } else { FLAG_QUIET };
        let ghost l0 = list@;
        list.push(Move::new(from, to, f));
        proof {
            assert(target_moves(from as int, before, their) == seq![list@.last()] + target_moves(from as int, atks, their));
            assert(l0 + target_moves(from as int, before, their) =~= list@ + target_moves(from as int, atks, their));
        }
    }
    proof {
        assert(list@ + target_moves(from as int, 0, their) =~= list@);
    }
}

/// Pushes the captures of our pawn on `sq` onto each square of `caps`.
fn push_pawn_caps(sq: u32, caps: Bitboard, last: u32, list: &mut Vec<Move>)
    requires
        sq < 64,
    ensures
        final(list)@ == old(list)@ + pawn_cap_pseudo(sq as int, caps, last as int),
{
    let mut cap_bb = caps;
    while cap_bb != 0
        invariant
            sq < 64,
            list@ + pawn_cap_pseudo(sq as int, cap_bb, last as int) == old(list)@ + pawn_cap_pseudo(sq as int, caps, last as int),
        decreases cap_bb,
    {
        let ghost before = cap_bb;
        let to = pop_lsb(&mut cap_bb);
        let ghost l0 = list@;
        if rank_of(to) == last {
            push_promos(sq, to, true, list);
        } else {
            list.push(Move::new(sq, to, FLAG_CAPTURE));
        }
        proof {
            assert(l0 + pawn_cap_pseudo(sq as int, before, last as int) =~= list@ + pawn_cap_pseudo(sq as int, cap_bb, last as int));
        }
    }
    proof {
        assert(list@ + pawn_cap_pseudo(sq as int, 0, last as int) =~= list@);
    }
}

/// Pushes the pseudo-legal moves of our pawn on `sq`.
fn push_pawn_pseudo(pos: &Position, sq: u32, all: Bitboard, their: Bitboard, list: &mut Vec<Move>)
    requires
        sq < 64,
        all == pos@.all_bb(),
        their == pos@.color_bb(pos.side.opp()),
        pos.ep_square <= 64,
    ensures
        final(list)@ == old(list)@ + pawn_pseudo(pos@, sq as int),
{
    let ghost v = pos@;
    let us = pos.side;
    let attacks = pawn_attacks(sq, us.index());
    assert(attacks == pawn_bb(sq as int, us));
    if us == Color::White {
        let to = sq + 8;
        if to < 64 {
            proof {
                lemma_bit_and(to as int, all);
            }
            if all & bit(to) == 0 {
                if rank_of(to) == 7 {
                    push_promos(sq, to, false, list);
                } else {
                    list.push(Move::new(sq, to, FLAG_QUIET));
                }
                if rank_of(sq) == 1 {
                    let to2 = sq + 16;
                    if to2 < 64 {
                        proof {
                            lemma_bit_and(to2 as int, all);
                        }
                        if all & bit(to2) == 0 {
                            list.push(Move::new(sq, to2, FLAG_DOUBLE_PUSH));
                        }
                    }
                }
            }
        }
    } else {
        if sq >= 8 {
            let to = sq - 8;
            proof {
                lemma_bit_and(to as int, all);
            }
            if all & bit(to) == 0 {
                if rank_of(to) == 0 {
                    push_promos(sq, to, false, list);
                } else {
                    list.push(Move::new(sq, to, FLAG_QUIET));
                }
                if rank_of(sq) == 6 && sq >= 16 {
                    let to2 = sq - 16;
                    proof {
                        lemma_bit_and(to2 as int, all);
                    }
                    if all & bit(to2) == 0 {
                        list.push(Move::new(sq, to2, FLAG_DOUBLE_PUSH));
                    }
                }
            }
        }
    }
    proof {
        assert(list@ =~= old(list)@ + pawn_push_pseudo(v, sq as int));
    }
    let ghost l1 = list@;
    push_pawn_caps(sq, attacks & their, if us == Color::White { 7 } else { 0 }, list);
    let ghost l2 = list@;
    let ep = pos.ep_square;
    if ep != 64 {
        proof {
            lemma_bit_and(ep as int, attacks);
        }
        if attacks & bit(ep) != 0 {
            list.push(Move::new(sq, ep, FLAG_EP));
        }
    }
    proof {
        assert(list@ =~= old(list)@ + pawn_pseudo(v, sq as int));
    }
}

/// Pushes the castling moves of our king on `sq`.
fn push_castle_pseudo(pos: &Position, sq: u32, all: Bitboard, list: &mut Vec<Move>)
    requires
        pos.wf_board(),
        sq < 64,
        all == pos@.all_bb(),
    ensures
        final(list)@ == old(list)@ + castle_pseudo(pos@, sq as int),
{
    let us = pos.side;
    let them = us.flip();
    proof {
        lemma_att_view(pos, sq as int, them);
        lemma_att_view(pos, 5, them);
        lemma_att_view(pos, 3, them);
        lemma_att_view(pos, 61, them);
        lemma_att_view(pos, 59, them);
    }
    if !pos.is_attacked(sq, them) {
        if us == Color::White {
            if pos.castling & CASTLE_WK != 0 && all & 0x60 == 0 && !pos.is_attacked(5, them) {
                list.push(Move::new(4, 6, FLAG_CASTLE_KS));
            }
            if pos.castling & CASTLE_WQ != 0 && all & 0xE == 0 && !pos.is_attacked(3, them) {
                list.push(Move::new(4, 2, FLAG_CASTLE_QS));
            }
        } else {
            if pos.castling & CASTLE_BK != 0 && all & 0x6000000000000000 == 0 && !pos.is_attacked(61, them) {
                list.push(Move::new(60, 62, FLAG_CASTLE_KS));
            }
            if pos.castling & CASTLE_BQ != 0 && all & 0x0E00000000000000 == 0 && !pos.is_attacked(59, them) {
                list.push(Move::new(60, 58, FLAG_CASTLE_QS));
            }
        }
    }
    proof {
        assert(list@ =~= old(list)@ + castle_pseudo(pos@, sq as int));
    }
}

/// Every pseudo-legal move of the side to move: for each of our pieces, the
/// squares it attacks that we do not hold (pawn pushes and captures, the
/// en-passant capture and castling included), pins and checks ignored.
pub fn pseudo_legal_moves(pos: &Position) -> (r: Vec<Move>)
    requires
        pos.wf_board(),
        pos.ep_square <= 64,
    ensures
        r@ == pseudo_moves(pos@),
{
    proof {
        pos.lemma_bitboards();
    }
    let ghost v = pos@;
    let ghost f = |sq: int| piece_pseudo(v, sq);
    let us = pos.side;
    let ui = us.index();
    let ti = us.flip().index();
    let all = pos.all;
    let our_occ = pos.occupancy[ui];
    let their_occ = pos.occupancy[ti];
    assert(color_of_idx(ui as int) == us);
    assert(color_of_idx(ti as int) == us.opp());
    assert(our_occ == v.color_bb(us));
    assert(their_occ == v.color_bb(us.opp()));
    let mut pseudo: Vec<Move> = Vec::new();
    let mut bb = our_occ;
    while bb != 0
        invariant
            pos.wf_board(),
            pos.ep_square <= 64,
            v == pos@,
            f == (|sq: int| piece_pseudo(v, sq)),
            us == pos.side,
            all == v.all_bb(),
            our_occ == v.color_bb(us),
            their_occ == v.color_bb(us.opp()),
            our_occ == pos.occupancy[us.idx()],
            forall|s: int| #[trigger] sq_in(bb, s) ==> sq_in(our_occ, s),
            pseudo@ + each_sq(bb, f) == each_sq(our_occ, f),
        decreases bb,
    {
        let ghost before = bb;
        let ghost p0 = pseudo@;
        proof {
            lemma_clear_lsb(bb);
        }
        let sq = pop_lsb(&mut bb);
        assert(sq_in(our_occ, sq as int));
        let piece = match pos.piece_at(sq) {
            Some((_, p)) => p,
            None => Piece::Pawn,
        };
        match piece {
            Piece::Pawn => push_pawn_pseudo(pos, sq, all, their_occ, &mut pseudo),
            Piece::Knight => push_target_moves(sq, knight_attacks(sq) & !our_occ, their_occ, &mut pseudo),
            Piece::Bishop => push_target_moves(sq, bishop_attacks(sq, all) & !our_occ, their_occ, &mut pseudo),
            Piece::Rook => push_target_moves(sq, rook_attacks(sq, all) & !our_occ, their_occ, &mut pseudo),
            Piece::Queen => push_target_moves(sq, queen_attacks(sq, all) & !our_occ, their_occ, &mut pseudo),
            Piece::King => {
                push_target_moves(sq, king_attacks(sq) & !our_occ, their_occ, &mut pseudo);
                push_castle_pseudo(pos, sq, all, &mut pseudo);
            },
        }
        proof {
            assert(pseudo@ == p0 + f(sq as int));
            assert(each_sq(before, f) == f(sq as int) + each_sq(bb, f));
            assert(p0 + each_sq(before, f) =~= pseudo@ + each_sq(bb, f));
        }
    }
    proof {
        assert(pseudo@ + each_sq(0, f) =~= pseudo@);
    }
    pseudo
}


/// Number of legal moves found by brute force: each pseudo-legal move that
/// can be made is made, counted when the mover's king is then on the board
/// and not attacked, and taken back.
pub fn brute_force_legal_count(pos: &mut Position) -> (r: usize)
    requires
        old(pos).wf(),
    ensures
        final(pos).wf(),
        final(pos)@ == old(pos)@,
        r == legal_in(old(pos)@, pseudo_moves(old(pos)@)),
{
    let ghost v = pos@;
    let us = pos.side;
    let them = us.flip();
    let pseudo = pseudo_legal_moves(pos);
    let mut legal: usize = 0;
    let mut i: usize = 0;
    while i < pseudo.len()
        invariant
            pos.wf(),
            pos@ == v,
            us == v.side,
            them == v.side.opp(),
            pseudo@ == pseudo_moves(v),
            i <= pseudo@.len(),
            legal <= i,
            legal == legal_in(v, pseudo@.take(i as int)),
        decreases pseudo@.len() - i,
    {
        let m = pseudo[i];
        let mut safe = false;
        if move_sound_exec(pos, m) {
            proof {
                crate::board::position::lemma_make_unmake(v, m);
            }
            pos.make_move(m);
            let ksq = pos.king_sq(us);
            proof {
                pos.lemma_bitboards();
                assert(pos.pieces[us.idx()][5] == pos@.piece_bb(color_of_idx(us.idx()), piece_of_idx(5)));
                if ksq < 64 {
                    lemma_att_view(pos, ksq as int, them);
                }
            }
            safe = ksq < 64 && !pos.is_attacked(ksq, them);
            pos.unmake_move(m);
        }
        proof {
            assert(safe == (move_sound(v, m) && king_safe_after(v, m)));
            assert(pseudo@.take(i + 1).drop_last() =~= pseudo@.take(i as int));
        }
        if safe {
            legal += 1;
        }
        i += 1;
    }
    proof {
        assert(pseudo@.take(i as int) =~= pseudo@);
    }
    legal
}


/// A node where the generator and the brute-force count disagree.
pub struct Mismatch {
    pub depth: u32,
    pub fast: usize,
    pub slow: usize,
    pub fen: String,
}

/// Perft that compares, at every node above the leaves, the number of
/// generated moves with the brute-force count, and adds a report for each
/// node where they differ (in the order the nodes are visited).
pub fn perft_crosscheck(pos: &mut Position, depth: u32, reports: &mut Vec<Mismatch>) -> (nodes: u64)
    requires
        old(pos).wf(),
        perft_ok(old(pos)@, depth as nat),
        perft_spec(old(pos)@, depth as nat) <= u64::MAX,
    ensures
        nodes == perft_spec(old(pos)@, depth as nat),
        final(pos).wf(),
        final(pos)@ == old(pos)@,
        final(reports)@.len() >= old(reports)@.len(),
        forall|j: int| 0 <= j < old(reports)@.len() ==> #[trigger] final(reports)@[j] == old(reports)@[j],
        forall|j: int| old(reports)@.len() <= j < final(reports)@.len() ==> #[trigger] final(reports)@[j].fast
            != final(reports)@[j].slow,
        depth > 0 && old(pos)@.gen_moves().len() != legal_in(old(pos)@, pseudo_moves(old(pos)@)) ==> {
            &&& final(reports)@.len() > old(reports)@.len()
            &&& final(reports)@[old(reports)@.len() as int].depth == depth
            &&& final(reports)@[old(reports)@.len() as int].fast == old(pos)@.gen_moves().len()
            &&& final(reports)@[old(reports)@.len() as int].slow == legal_in(old(pos)@, pseudo_moves(old(pos)@))
            &&& final(reports)@[old(reports)@.len() as int].fen@ == fen_text(old(pos)@)
        },
    decreases depth,
{
    if depth == 0 {
        return 1;
    }
    let ghost v = pos@;
    let ghost r0 = reports@;
    proof {
        pos.lemma_bitboards();
    }
    let fast = generate_legal_moves(pos);
    let slow = brute_force_legal_count(pos);
    if slow != fast.len {
        let fen = pos.to_fen();
        reports.push(Mismatch { depth, fast: fast.len, slow, fen });
    }
    let ghost r1 = reports@;
    if depth == 1 {
        return fast.len as u64;
    }
    let ms = fast.iter();
    let mut nodes = 0u64;
    let mut i: usize = 0;
    while i < ms.len()
        invariant
            depth >= 2,
            ms@ == v.gen_moves(),
            pos.wf(),
            pos@ == v,
            perft_ok(v, depth as nat),
            perft_spec(v, depth as nat) <= u64::MAX,
            i <= ms@.len(),
            nodes == perft_sum(v, depth as nat, i as nat),
            reports@.len() >= r1.len(),
            forall|j: int| 0 <= j < r1.len() ==> #[trigger] reports@[j] == r1[j],
            forall|j: int| r0.len() <= j < reports@.len() ==> #[trigger] reports@[j].fast != reports@[j].slow,
            r1.len() >= r0.len(),
        decreases ms@.len() - i,
    {
        let m = ms[i];
        proof {
            assert(move_sound(v, v.gen_moves()[i as int]));
            crate::board::position::lemma_make_unmake(v, m);
            lemma_perft_sum_mono(v, depth as nat, (i + 1) as nat, ms@.len());
        }
        pos.make_move(m);
        let ghost rb = reports@;
        let n = perft_crosscheck(pos, depth - 1, reports);
        pos.unmake_move(m);
        nodes = nodes + n;
        proof {
            assert forall|j: int| 0 <= j < r1.len() implies #[trigger] reports@[j] == r1[j] by {
                assert(reports@[j] == rb[j]);
            }
            assert forall|j: int| r0.len() <= j < reports@.len() implies #[trigger] reports@[j].fast != reports@[j].slow by {
                if j < rb.len() {
                    assert(reports@[j] == rb[j]);
                }
            }
        }
        i += 1;
    }
    nodes
}


/// With one ply left, every generated move starts exactly one path.
proof fn lemma_perft_sum_one(v: PosView, n: nat)
    requires
        n <= v.gen_moves().len(),
    ensures
        perft_sum(v, 1, n) == n,
    decreases n,
{
    if n > 0 {
        lemma_perft_sum_one(v, (n - 1) as nat);
        let c = v.make_view(v.gen_moves()[n - 1]);
        assert(perft_spec(c, 0) == 1);
        assert(perft_sum(v, 1, n) == perft_sum(v, 1, (n - 1) as nat) + perft_spec(c, 0));
    }
}

/// Perft split by the first move: for each generated move, in order, the
/// number of paths of length `depth` that start with it; and their total.
pub fn perft_divide(pos: &mut Position, depth: u32) -> (r: (Vec<(Move, u64)>, u64))
    requires
        old(pos).wf(),
        depth >= 1,
        perft_ok(old(pos)@, depth as nat),
        forall|i: int| 0 <= i < old(pos)@.gen_moves().len() ==> move_sound(old(pos)@, #[trigger] old(pos)@.gen_moves()[i]),
        perft_spec(old(pos)@, depth as nat) <= u64::MAX,
    ensures
        final(pos).wf(),
        final(pos)@ == old(pos)@,
        r.0@.len() == old(pos)@.gen_moves().len(),
        forall|i: int| 0 <= i < r.0@.len() ==> (#[trigger] r.0@[i]).0 == old(pos)@.gen_moves()[i]
            && r.0@[i].1 == perft_spec(old(pos)@.make_view(old(pos)@.gen_moves()[i]), (depth - 1) as nat),
        r.1 == perft_spec(old(pos)@, depth as nat),
{
    let ghost v = pos@;
    proof {
        pos.lemma_bitboards();
        if depth == 1 {
            lemma_perft_sum_one(v, v.gen_moves().len());
        }
    }
    let moves = generate_legal_moves(pos);
    let ms = moves.iter();
    let mut counts: Vec<(Move, u64)> = Vec::new();
    let mut total = 0u64;
    let mut i: usize = 0;
    while i < ms.len()
        invariant
            depth >= 1,
            ms@ == v.gen_moves(),
            pos.wf(),
            pos@ == v,
            perft_ok(v, depth as nat),
            forall|k: int| 0 <= k < v.gen_moves().len() ==> move_sound(v, #[trigger] v.gen_moves()[k]),
            perft_spec(v, depth as nat) <= u64::MAX,
            perft_spec(v, depth as nat) == perft_sum(v, depth as nat, v.gen_moves().len()),
            i <= ms@.len(),
            total == perft_sum(v, depth as nat, i as nat),
            counts@.len() == i,
            forall|k: int| 0 <= k < i ==> (#[trigger] counts@[k]).0 == v.gen_moves()[k]
                && counts@[k].1 == perft_spec(v.make_view(v.gen_moves()[k]), (depth - 1) as nat),
        decreases ms@.len() - i,
    {
        let m = ms[i];
        proof {
            assert(move_sound(v, v.gen_moves()[i as int]));
            crate::board::position::lemma_make_unmake(v, m);
            lemma_perft_sum_mono(v, depth as nat, (i + 1) as nat, ms@.len());
        }
        pos.make_move(m);
        let n = crate::uci::perft(pos, depth - 1);
        pos.unmake_move(m);
        counts.push((m, n));
        total = total + n;
        i += 1;
    }
    (counts, total)
}


/// Generated moves that leave the mover's king attacked (or off the board),
/// over all move paths of length `depth` from `v`; paths stop at the first
/// such move.
pub open spec fn illegal_count(v: PosView, depth: nat) -> nat
    decreases depth, v.gen_moves().len() + 1,
{
    if depth == 0 {
        0
    } else {
        illegal_sum(v, depth, v.gen_moves().len())
    }
}

/// The same count over paths starting with one of the first `n` moves.
pub open spec fn illegal_sum(v: PosView, depth: nat, n: nat) -> nat
    decreases depth, n,
{
    if depth == 0 || n == 0 || n > v.gen_moves().len() {
        0
    } else {
        let m = v.gen_moves()[n - 1];
        illegal_sum(v, depth, (n - 1) as nat) + if !king_safe_after(v, m) {
            1nat
        } else if depth > 1 {
            illegal_count(v.make_view(m), (depth - 1) as nat)
        } else {
            0nat
        }
    }
}

proof fn lemma_illegal_sum_mono(v: PosView, depth: nat, n: nat, m: nat)
    requires
        n <= m <= v.gen_moves().len(),
    ensures
        illegal_sum(v, depth, n) <= illegal_sum(v, depth, m),
    decreases m,
{
    if n < m {
        lemma_illegal_sum_mono(v, depth, n, (m - 1) as nat);
    }
}

/// A note on a generated move: `label`, the move, `sep` and a FEN record.
fn move_note(label: &str, m: Move, sep: &str, fen: &String) -> (r: String)
    ensures
        r@ == label@ + m.uci_spec() + sep@ + fen@,
{
    let mut s = String::new();
    s.append(label);
    let u = m.to_uci();
    s.append(u.as_str());
    s.append(sep);
    s.append(fen.as_str());
    proof {
        assert(s@ =~= label@ + m.uci_spec() + sep@ + fen@);
    }
    s
}

/// Scans the generated moves of every position within `depth` moves:
/// counts the moves that leave the mover's king attacked (not searched
/// further), and adds a note for each of them, for each move generated
/// twice, for each capture onto a square without an enemy piece and for
/// each move from a square without our piece.
pub fn find_illegal_moves(pos: &mut Position, depth: u32, notes: &mut Vec<String>) -> (count: u64)
    requires
        old(pos).wf(),
        perft_ok(old(pos)@, (depth + 1) as nat),
        illegal_count(old(pos)@, depth as nat) <= u64::MAX,
    ensures
        count == illegal_count(old(pos)@, depth as nat),
        final(pos).wf(),
        final(pos)@ == old(pos)@,
        final(notes)@.len() >= old(notes)@.len(),
        forall|j: int| 0 <= j < old(notes)@.len() ==> #[trigger] final(notes)@[j] == old(notes)@[j],
    decreases depth,
{
    if depth == 0 {
        return 0;
    }
    let ghost v = pos@;
    let ghost n0 = notes@;
    let side_before = pos.side;
    proof {
        pos.lemma_bitboards();
    }
    let moves = generate_legal_moves(pos);
    let ms = moves.iter();
    let fen = pos.to_fen();
    // Moves generated twice
    let mut i: usize = 0;
    while i < ms.len()
        invariant
            i <= ms@.len(),
            notes@.len() >= n0.len(),
            forall|j: int| 0 <= j < n0.len() ==> #[trigger] notes@[j] == n0[j],
        decreases ms@.len() - i,
    {
        let mut j: usize = 0;
        let mut seen = false;
        while j < i
            invariant
                j <= i,
                i < ms@.len(),
            decreases i - j,
        {
            if ms[j] == ms[i] {
                seen = true;
            }
            j += 1;
        }
        if seen {
            notes.push(move_note("DUPLICATE MOVE: ", ms[i], " in ", &fen));
        }
        i += 1;
    }
    let mut count = 0u64;
    let mut i: usize = 0;
    while i < ms.len()
        invariant
            depth >= 1,
            ms@ == v.gen_moves(),
            pos.wf(),
            pos@ == v,
            side_before == v.side,
            perft_ok(v, (depth + 1) as nat),
            illegal_count(v, depth as nat) <= u64::MAX,
            i <= ms@.len(),
            count == illegal_sum(v, depth as nat, i as nat),
            notes@.len() >= n0.len(),
            forall|j: int| 0 <= j < n0.len() ==> #[trigger] notes@[j] == n0[j],
        decreases ms@.len() - i,
    {
        let m = ms[i];
        let flags = m.flags();
        if flags == FLAG_CAPTURE || (flags >= 12 && flags <= 15) {
            let phantom = match pos.piece_at(m.to()) {
                Some((c, _)) => c == side_before,
                None => true,
            };
            if phantom {
                notes.push(move_note("PHANTOM CAPTURE: ", m, " in ", &fen));
            }
        }
        let no_piece = match pos.piece_at(m.from()) {
            Some((c, _)) => c != side_before,
            None => true,
        };
        if no_piece {
            notes.push(move_note("NO PIECE AT FROM: ", m, " in ", &fen));
        }
        proof {
            assert(move_sound(v, v.gen_moves()[i as int]));
            crate::board::position::lemma_make_unmake(v, m);
            lemma_illegal_sum_mono(v, depth as nat, (i + 1) as nat, ms@.len());
        }
        pos.make_move(m);
        let ksq = pos.king_sq(side_before);
        proof {
            pos.lemma_bitboards();
            assert(pos.pieces[side_before.idx()][5] == pos@.piece_bb(color_of_idx(side_before.idx()), piece_of_idx(5)));
            if ksq < 64 {
                lemma_att_view(pos, ksq as int, pos.side);
            }
        }
        let attacked = ksq >= 64 || pos.is_attacked(ksq, pos.side);
        proof {
            assert(attacked == !king_safe_after(v, m));
        }
        if attacked {
            let after = pos.to_fen();
            notes.push(move_note("ILLEGAL MOVE: ", m, " from ", &after));
            count += 1;
        } else if depth > 1 {
            let ghost nb = notes@;
            let c = find_illegal_moves(pos, depth - 1, notes);
            proof {
                assert forall|j: int| 0 <= j < n0.len() implies #[trigger] notes@[j] == n0[j] by {
                    assert(notes@[j] == nb[j]);
                }
            }
            count += c;
        }
        pos.unmake_move(m);
        i += 1;
    }
    count
}

/// A move from `ms` of our pawn on `sq` has the shape pawn moves have: it
/// starts on `sq`; unless it is en passant, it is a promotion exactly when
/// it lands on the last rank, and then all four promotions to that square
/// with the same capture flag are in `ms`; a double push starts on the
/// second rank and crosses two empty squares straight ahead.
pub open spec fn pawn_move_fits(v: PosView, ms: Seq<Move>, m: Move, sq: int) -> bool {
    let white = v.us() == Color::White;
    let last: int = if white { 7 } else { 0 };
    let start: int = if white { 1 } else { 6 };
    &&& m.from_spec() == sq
    &&& m.flags_spec() != 5 ==> (m.is_promotion_spec() <==> m.to_spec() / 8 == last)
    &&& m.is_promotion_spec() ==> forall|b: int|
        0 <= b < 4 ==> ms.contains(#[trigger] mv_spec(sq, m.to_spec(), (m.flags_spec() / 4) * 4 + b))
    &&& m.flags_spec() == 1 ==> {
        &&& sq / 8 == start
        &&& m.to_spec() == (if white { sq + 16 } else { sq - 16 })
        &&& !sq_in(v.all_bb(), m.to_spec())
        &&& !sq_in(v.all_bb(), (sq + m.to_spec()) / 2)
    }
}

/// Every move of `ms` fits the shape of a move of our pawn on `sq`.
pub open spec fn pawn_list_shape(v: PosView, ms: Seq<Move>, sq: int) -> bool {
    forall|i: int| 0 <= i < ms.len() ==> #[trigger] pawn_move_fits(v, ms, ms[i], sq)
}

proof fn lemma_shape_concat(v: PosView, x: Seq<Move>, y: Seq<Move>, sq: int)
    requires
        pawn_list_shape(v, x, sq),
        pawn_list_shape(v, y, sq),
    ensures
        pawn_list_shape(v, x + y, sq),
{
    let z = x + y;
    assert forall|i: int| 0 <= i < z.len() implies #[trigger] pawn_move_fits(v, z, z[i], sq) by {
        let m = z[i];
        let (src, off) = if i < x.len() { (x, 0int) } else { (y, x.len() as int) };
        assert(m == src[i - off]);
        assert(pawn_move_fits(v, src, src[i - off], sq));
        if m.is_promotion_spec() {
            assert forall|b: int| 0 <= b < 4 implies z.contains(#[trigger] mv_spec(sq, m.to_spec(), (m.flags_spec() / 4) * 4 + b)) by {
                let w = mv_spec(sq, m.to_spec(), (m.flags_spec() / 4) * 4 + b);
                assert(src.contains(w));
                let j = choose|j: int| 0 <= j < src.len() && src[j] == w;
                assert(z[j + off] == w);
            }
        }
    }
}

/// The four promotions from `sq` to `to` fit the pawn shape.
proof fn lemma_promos_shape(v: PosView, sq: int, to: int, capture: bool)
    requires
        0 <= sq < 64,
        0 <= to < 64,
        to / 8 == (if v.us() == Color::White { 7int } else { 0int }),
    ensures
        pawn_list_shape(v, promos(sq, to, capture), sq),
{
    let ps = promos(sq, to, capture);
    let base: int = if capture { 12 } else { 8 };
    assert forall|j: int| 0 <= j < 4 implies (#[trigger] mv_spec(sq, to, base + j)).from_spec() == sq
        && mv_spec(sq, to, base + j).to_spec() == to && mv_spec(sq, to, base + j).flags_spec() == base + j by {
        lemma_move_roundtrip(sq, to, base + j);
    }
    assert forall|i: int| 0 <= i < ps.len() implies #[trigger] pawn_move_fits(v, ps, ps[i], sq) by {
        assert(ps[i] == mv_spec(sq, to, base + i));
        assert forall|b: int| 0 <= b < 4 implies ps.contains(#[trigger] mv_spec(sq, to, ((base + i) / 4) * 4 + b)) by {
            assert(ps[b] == mv_spec(sq, to, ((base + i) / 4) * 4 + b));
        }
    }
}

/// One move from `sq` to `to` with flags `fl` (no promotion) fits the pawn
/// shape when it is en passant or does not land on the last rank.
proof fn lemma_one_shape(v: PosView, sq: int, to: int, fl: int)
    requires
        0 <= sq < 64,
        0 <= to < 64,
        fl == 0 || fl == 4 || fl == 5,
        fl != 5 ==> to / 8 != (if v.us() == Color::White { 7int } else { 0int }),
    ensures
        pawn_list_shape(v, seq![mv_spec(sq, to, fl)], sq),
{
    lemma_move_roundtrip(sq, to, fl);
    let ms = seq![mv_spec(sq, to, fl)];
    assert(pawn_move_fits(v, ms, ms[0], sq));
}

proof fn lemma_caps_shape(v: PosView, sq: int, a: u64, is_pinned: bool, k: int, last: int)
    requires
        0 <= sq < 64,
        last == (if v.us() == Color::White { 7int } else { 0int }),
    ensures
        pawn_list_shape(v, v.pawn_caps(sq, a, is_pinned, k, last), sq),
    decreases a,
{
    if a != 0 {
        lemma_clear_lsb(a);
        lemma_lsb(a);
        let to = lsb_spec(a) as int;
        let head = if !is_pinned || crate::movegen::on_pin_ray(sq, to, k) {
            if to / 8 == last { promos(sq, to, true) } else { seq![mv_spec(sq, to, 4)] }
        } else {
            seq![]
        };
        if !is_pinned || crate::movegen::on_pin_ray(sq, to, k) {
            if to / 8 == last {
                lemma_promos_shape(v, sq, to, true);
            } else {
                lemma_one_shape(v, sq, to, 4);
            }
        }
        lemma_caps_shape(v, sq, clear_lsb(a), is_pinned, k, last);
        lemma_shape_concat(v, head, v.pawn_caps(sq, clear_lsb(a), is_pinned, k, last), sq);
        assert(v.pawn_caps(sq, a, is_pinned, k, last) == head + v.pawn_caps(sq, clear_lsb(a), is_pinned, k, last));
    }
}

proof fn lemma_pushes_shape(v: PosView, sq: int, pinned: u64, cm: u64, k: int)
    requires
        0 <= sq < 64,
    ensures
        pawn_list_shape(v, v.pawn_pushes(sq, pinned, cm, k), sq),
{
    broadcast use group_bb;
    let white = v.us() == Color::White;
    let last: int = if white { 7 } else { 0 };
    let push1 = v.pawn_push1(sq);
    if push1 != 0 {
        lemma_lsb(push1);
        let to = lsb_spec(push1) as int;
        if sq_in(cm, to) && (!sq_in(pinned, sq) || crate::movegen::on_pin_ray(sq, to, k)) {
            if to / 8 == last {
                lemma_promos_shape(v, sq, to, false);
            } else {
                lemma_one_shape(v, sq, to, 0);
            }
        }
        let single = v.pawn_single(sq, pinned, cm, k);
        let double = v.pawn_double(sq, pinned, cm, k);
        assert(pawn_list_shape(v, single, sq));
        let empty = !v.all_bb();
        if double.len() > 0 {
            let push2 = if white { (push1 << 8u64) & empty } else { (push1 >> 8u64) & empty };
            lemma_lsb(push2);
            let to2 = lsb_spec(push2) as int;
            assert(sq_in(push2, to2));
            let bb = crate::board::bitboard::bit_spec(sq);
            if white {
                assert(push2 == (push1 << 8u64) & empty);
                assert(sq_in(push1 << 8u64, to2));
                crate::board::bitboard::lemma_in_shl(push1, 8u64, to2);
                assert(sq_in(push1, to2 - 8));
                assert(push1 == (bb << 8u64) & empty);
                assert(sq_in(bb << 8u64, to2 - 8));
                crate::board::bitboard::lemma_in_shl(bb, 8u64, to2 - 8);
                assert(sq_in(bb, to2 - 16));
            } else {
                assert(push2 == (push1 >> 8u64) & empty);
                assert(sq_in(push1 >> 8u64, to2));
                crate::board::bitboard::lemma_in_shr(push1, 8u64, to2);
                assert(sq_in(push1, to2 + 8));
                assert(push1 == (bb >> 8u64) & empty);
                assert(sq_in(bb >> 8u64, to2 + 8));
                crate::board::bitboard::lemma_in_shr(bb, 8u64, to2 + 8);
                assert(sq_in(bb, to2 + 16));
            }
            assert(to2 == (if white { sq + 16 } else { sq - 16 }));
            lemma_move_roundtrip(sq, to2, 1);
            assert(double == seq![mv_spec(sq, to2, 1)]);
            assert(pawn_move_fits(v, double, double[0], sq));
        }
        lemma_shape_concat(v, single, double, sq);
    }
}

/// The moves the generator lists for our pawn on `sq` (given the pinned
/// pieces, the check mask and the king square) have the shape of pawn
/// moves: each starts on `sq`; unless it is en passant, it is a promotion
/// exactly when it lands on the last rank, and then all four promotions
/// to that square are listed; a double push starts on the second rank and
/// crosses two empty squares straight ahead.
pub proof fn lemma_pawn_moves_shape(v: PosView, sq: int, pinned: u64, cm: u64, k: int)
    requires
        v.wf(),
        0 <= sq < 64,
    ensures
        pawn_list_shape(v, v.pawn_sq_moves(sq, pinned, cm, k), sq),
{
    reveal(PosView::pawn_sq_moves);
    let last: int = if v.us() == Color::White { 7 } else { 0 };
    let their = v.color_bb(v.them());
    let pu = v.pawn_pushes(sq, pinned, cm, k);
    let ca = v.pawn_caps(sq, (pawn_bb(sq, v.us()) & their) & cm, sq_in(pinned, sq), k, last);
    let ep = v.pawn_ep(sq, cm, k);
    lemma_pushes_shape(v, sq, pinned, cm, k);
    lemma_caps_shape(v, sq, (pawn_bb(sq, v.us()) & their) & cm, sq_in(pinned, sq), k, last);
    if ep.len() > 0 {
        lemma_one_shape(v, sq, v.ep_square as int, 5);
    }
    lemma_shape_concat(v, pu, ca, sq);
    lemma_shape_concat(v, pu + ca, ep, sq);
}

/// A move that fits the pawn shape within `x` (or within `y`) fits it
/// within `x + y`.
proof fn lemma_fits_grow(v: PosView, x: Seq<Move>, y: Seq<Move>, m: Move, sq: int)
    requires
        pawn_move_fits(v, x, m, sq) || pawn_move_fits(v, y, m, sq),
    ensures
        pawn_move_fits(v, x + y, m, sq),
{
    let z = x + y;
    if m.is_promotion_spec() {
        assert forall|b: int| 0 <= b < 4 implies z.contains(#[trigger] mv_spec(sq, m.to_spec(), (m.flags_spec() / 4) * 4 + b)) by {
            let w = mv_spec(sq, m.to_spec(), (m.flags_spec() / 4) * 4 + b);
            if pawn_move_fits(v, x, m, sq) {
                assert(x.contains(w));
                let j = choose|j: int| 0 <= j < x.len() && x[j] == w;
                assert(z[j] == w);
            } else {
                assert(y.contains(w));
                let j = choose|j: int| 0 <= j < y.len() && y[j] == w;
                assert(z[j + x.len()] == w);
            }
        }
    }
}

/// Every move of `ms` comes from a square of `bb` and fits the shape of
/// the moves of a pawn there.
pub open spec fn from_pawns_shape(v: PosView, ms: Seq<Move>, bb: u64) -> bool {
    forall|i: int| 0 <= i < ms.len() ==> #[trigger] pawn_from_pawn(v, ms, ms[i], bb)
}

/// `m` comes from a square of `bb` and fits the shape of the moves of a
/// pawn there.
pub open spec fn pawn_from_pawn(v: PosView, ms: Seq<Move>, m: Move, bb: u64) -> bool {
    exists|sq: int| 0 <= sq < 64 && sq_in(bb, sq) && #[trigger] pawn_move_fits(v, ms, m, sq)
}

proof fn lemma_each_pawn_shape(v: PosView, bb: u64, pinned: u64, cm: u64, k: int)
    requires
        v.wf(),
    ensures
        from_pawns_shape(v, each_sq(bb, v.pawn_f(pinned, cm, k)), bb),
    decreases bb,
{
    let f = v.pawn_f(pinned, cm, k);
    if bb != 0 {
        lemma_clear_lsb(bb);
        lemma_lsb(bb);
        let sq = lsb_spec(bb) as int;
        let head = f(sq);
        let rest = each_sq(clear_lsb(bb), f);
        let ms = each_sq(bb, f);
        assert(ms == head + rest);
        lemma_pawn_moves_shape(v, sq, pinned, cm, k);
        lemma_each_pawn_shape(v, clear_lsb(bb), pinned, cm, k);
        assert forall|i: int| 0 <= i < ms.len() implies #[trigger] pawn_from_pawn(v, ms, ms[i], bb) by {
            if i < head.len() {
                assert(pawn_move_fits(v, head, head[i], sq));
                lemma_fits_grow(v, head, rest, head[i], sq);
                assert(ms[i] == head[i]);
                assert(pawn_move_fits(v, ms, ms[i], sq));
            } else {
                let j = i - head.len();
                assert(ms[i] == rest[j]);
                assert(pawn_from_pawn(v, rest, rest[j], clear_lsb(bb)));
                let t = choose|t: int| 0 <= t < 64 && sq_in(clear_lsb(bb), t) && #[trigger] pawn_move_fits(v, rest, rest[j], t);
                lemma_fits_grow(v, head, rest, rest[j], t);
                assert(sq_in(bb, t));
                assert(pawn_move_fits(v, ms, ms[i], t));
            }
        }
        assert(from_pawns_shape(v, ms, bb));
    } else {
        assert(each_sq(bb, f) =~= Seq::<Move>::empty());
    }
}

/// Every move of the pawn generator starts on a square holding one of our
/// pawns and has the shape of a pawn move there: away from en passant it
/// is a promotion exactly when it lands on the last rank, and then all
/// four promotions to that square are listed; a double push starts on the
/// second rank and crosses two empty squares straight ahead.
pub proof fn lemma_pawn_generator_shape(v: PosView, pinned: u64, cm: u64, k: int)
    requires
        v.wf(),
    ensures
        from_pawns_shape(v, each_sq(v.piece_bb(v.us(), Piece::Pawn), v.pawn_f(pinned, cm, k)), v.piece_bb(v.us(), Piece::Pawn)),
{
    lemma_each_pawn_shape(v, v.piece_bb(v.us(), Piece::Pawn), pinned, cm, k);
}

} // verus!
