//! Every generated move can be made: the mover is ours and the target
//! fits the move's flag, on positions whose castling rights, en-passant
//! square and clocks agree with the board.
use vstd::prelude::*;
use crate::board::bitboard::{sq_in, lsb_spec, clear_lsb, lemma_clear_lsb, lemma_lsb, bit_spec, group_bb};
use crate::board::moves::{Move, lemma_move_roundtrip};
use crate::board::position::{PosView, lemma_mb_bb, keep_piece, keep_color, keep_any, ep_victim};
use crate::board::types::{Color, Piece};
use crate::movegen::{mv_spec, target_moves, each_sq, promos};
use crate::uci::move_sound;

verus! {

/// The position agrees with what making a move needs: each castling right
/// held has its king and rook at home, an en-passant square is empty with
/// the pawn that passed it just beyond it, and the clocks leave room for
/// one more move.
pub open spec fn make_ready(v: PosView) -> bool {
    &&& v.halfmove_clock < 255
    &&& v.fullmove < 65535
    &&& v.castling & 1 != 0 ==> v.at(4) == Some((Color::White, Piece::King)) && v.at(7) == Some((Color::White, Piece::Rook))
    &&& v.castling & 2 != 0 ==> v.at(4) == Some((Color::White, Piece::King)) && v.at(0) == Some((Color::White, Piece::Rook))
    &&& v.castling & 4 != 0 ==> v.at(60) == Some((Color::Black, Piece::King)) && v.at(63) == Some((Color::Black, Piece::Rook))
    &&& v.castling & 8 != 0 ==> v.at(60) == Some((Color::Black, Piece::King)) && v.at(56) == Some((Color::Black, Piece::Rook))
    &&& v.ep_square != 64 ==> {
        &&& v.at(v.ep_square as int) is None
        &&& (v.us() == Color::White ==> 8 <= v.ep_square)
        &&& (v.us() == Color::Black ==> v.ep_square < 56)
        &&& v.at(ep_victim(v.us(), v.ep_square as int)) == Some((v.them(), Piece::Pawn))
    }
}

/// Every move of `s` can be made on `v`.
pub open spec fn all_sound(v: PosView, s: Seq<Move>) -> bool {
    forall|i: int| 0 <= i < s.len() ==> move_sound(v, #[trigger] s[i])
}

/// The board content read through the bitboards of the view.
proof fn lemma_content(v: PosView)
    requires
        v.wf(),
    ensures
        forall|s: int| #[trigger] sq_in(v.all_bb(), s) == (0 <= s < 64 && v.at(s) is Some),
        forall|s: int| #[trigger] sq_in(v.color_bb(Color::White), s) == (0 <= s < 64 && v.at(s) is Some && v.at(s).unwrap().0 == Color::White),
        forall|s: int| #[trigger] sq_in(v.color_bb(Color::Black), s) == (0 <= s < 64 && v.at(s) is Some && v.at(s).unwrap().0 == Color::Black),
{
    lemma_mb_bb(v.mailbox, keep_any(), 64);
    lemma_mb_bb(v.mailbox, keep_color(Color::White), 64);
    lemma_mb_bb(v.mailbox, keep_color(Color::Black), 64);
}

proof fn lemma_append_sound(v: PosView, x: Seq<Move>, y: Seq<Move>)
    requires
        all_sound(v, x),
        all_sound(v, y),
    ensures
        all_sound(v, x + y),
{
    let z = x + y;
    assert forall|i: int| 0 <= i < z.len() implies move_sound(v, #[trigger] z[i]) by {
        if i < x.len() {
            assert(z[i] == x[i]);
        } else {
            assert(z[i] == y[i - x.len()]);
        }
    }
}

/// A quiet move or a capture by our piece on `from` to a square `to` that
/// holds none of ours can be made.
proof fn lemma_step_sound(v: PosView, from: int, to: int, fl: int)
    requires
        v.wf(),
        make_ready(v),
        0 <= from < 64,
        0 <= to < 64,
        v.at(from) is Some && v.at(from).unwrap().0 == v.us(),
        !sq_in(v.color_bb(v.us()), to),
        fl == (if sq_in(v.color_bb(v.them()), to) { 4int } else { 0int }),
    ensures
        move_sound(v, mv_spec(from, to, fl)),
{
    lemma_content(v);
    lemma_move_roundtrip(from, to, fl);
}

proof fn lemma_targets_sound(v: PosView, from: int, targets: u64)
    requires
        v.wf(),
        make_ready(v),
        0 <= from < 64,
        v.at(from) is Some && v.at(from).unwrap().0 == v.us(),
        forall|s: int| sq_in(targets, s) ==> !sq_in(v.color_bb(v.us()), s),
    ensures
        all_sound(v, target_moves(from, targets, v.color_bb(v.them()))),
    decreases targets,
{
    let their = v.color_bb(v.them());
    if targets != 0 {
        lemma_clear_lsb(targets);
        lemma_lsb(targets);
        let to = lsb_spec(targets) as int;
        let fl: int = if sq_in(their, to) { 4 } else { 0 };
        lemma_step_sound(v, from, to, fl);
        lemma_targets_sound(v, from, clear_lsb(targets));
        lemma_append_sound(v, seq![mv_spec(from, to, fl)], target_moves(from, clear_lsb(targets), their));
        assert(target_moves(from, targets, their) == seq![mv_spec(from, to, fl)] + target_moves(from, clear_lsb(targets), their));
    }
}

proof fn lemma_each_sound(v: PosView, bb: u64, f: spec_fn(int) -> Seq<Move>)
    requires
        forall|sq: int| 0 <= sq < 64 && sq_in(bb, sq) ==> #[trigger] all_sound(v, f(sq)),
    ensures
        all_sound(v, each_sq(bb, f)),
    decreases bb,
{
    if bb != 0 {
        lemma_clear_lsb(bb);
        lemma_lsb(bb);
        let sq = lsb_spec(bb) as int;
        assert(all_sound(v, f(sq)));
        assert forall|t: int| 0 <= t < 64 && sq_in(clear_lsb(bb), t) implies #[trigger] all_sound(v, f(t)) by {
            assert(sq_in(bb, t));
        }
        lemma_each_sound(v, clear_lsb(bb), f);
        lemma_append_sound(v, f(sq), each_sq(clear_lsb(bb), f));
        assert(each_sq(bb, f) == f(sq) + each_sq(clear_lsb(bb), f));
    }
}

proof fn lemma_pieces_sound(v: PosView, p: Piece, pinned: u64, cm: u64, k: int)
    requires
        v.wf(),
        make_ready(v),
        p == Piece::Knight || p == Piece::Bishop || p == Piece::Rook || p == Piece::Queen,
    ensures
        all_sound(v, v.piece_moves(p, pinned, cm, k)),
{
    broadcast use group_bb;
    reveal(PosView::piece_targets);
    lemma_mb_bb(v.mailbox, keep_piece(v.us(), p), 64);
    let f = v.piece_f(p, pinned, cm, k);
    let bb = if p == Piece::Knight { v.piece_bb(v.us(), p) & !pinned } else { v.piece_bb(v.us(), p) };
    assert forall|sq: int| 0 <= sq < 64 && sq_in(bb, sq) implies #[trigger] all_sound(v, f(sq)) by {
        assert(sq_in(v.piece_bb(v.us(), p), sq));
        let t = v.piece_targets(p, sq, pinned, cm, k);
        assert forall|s: int| sq_in(t, s) implies !sq_in(v.color_bb(v.us()), s) by {
        }
        lemma_targets_sound(v, sq, t);
    }
    lemma_each_sound(v, bb, f);
}

proof fn lemma_king_steps_sound(v: PosView, k: int, atks: u64)
    requires
        v.wf(),
        make_ready(v),
        0 <= k < 64,
        v.at(k) is Some && v.at(k).unwrap().0 == v.us(),
        forall|s: int| sq_in(atks, s) ==> !sq_in(v.color_bb(v.us()), s),
    ensures
        all_sound(v, v.king_steps(k, atks)),
    decreases atks,
{
    reveal(PosView::king_steps);
    if atks != 0 {
        lemma_clear_lsb(atks);
        lemma_lsb(atks);
        let to = lsb_spec(atks) as int;
        let occ = v.all_bb() ^ bit_spec(k);
        let their = v.color_bb(v.them());
        let fl: int = if sq_in(their, to) { 4 } else { 0 };
        lemma_step_sound(v, k, to, fl);
        let head = if !v.attacked_occ(to, v.them(), occ) { seq![mv_spec(k, to, fl)] } else { seq![] };
        lemma_king_steps_sound(v, k, clear_lsb(atks));
        lemma_append_sound(v, head, v.king_steps(k, clear_lsb(atks)));
        assert(v.king_steps(k, atks) == head + v.king_steps(k, clear_lsb(atks)));
    }
}

proof fn lemma_caps_sound(v: PosView, sq: int, a: u64, is_pinned: bool, k: int, last: int)
    requires
        v.wf(),
        make_ready(v),
        0 <= sq < 64,
        v.at(sq) == Some((v.us(), Piece::Pawn)),
        forall|s: int| sq_in(a, s) ==> sq_in(v.color_bb(v.them()), s),
    ensures
        all_sound(v, v.pawn_caps(sq, a, is_pinned, k, last)),
    decreases a,
{
    if a != 0 {
        lemma_content(v);
        lemma_clear_lsb(a);
        lemma_lsb(a);
        let to = lsb_spec(a) as int;
        let on = !is_pinned || crate::movegen::on_pin_ray(sq, to, k);
        let head = if on {
            if to / 8 == last { promos(sq, to, true) } else { seq![mv_spec(sq, to, 4)] }
        } else {
            seq![]
        };
        assert forall|j: int| 12 <= j < 16 implies move_sound(v, #[trigger] mv_spec(sq, to, j)) by {
            lemma_move_roundtrip(sq, to, j);
        }
        lemma_move_roundtrip(sq, to, 4);
        assert(all_sound(v, head)) by {
            if on && to / 8 == last {
                assert forall|i: int| 0 <= i < head.len() implies move_sound(v, #[trigger] head[i]) by {
                    assert(head[i] == mv_spec(sq, to, 12 + i));
                }
            }
        }
        lemma_caps_sound(v, sq, clear_lsb(a), is_pinned, k, last);
        lemma_append_sound(v, head, v.pawn_caps(sq, clear_lsb(a), is_pinned, k, last));
        assert(v.pawn_caps(sq, a, is_pinned, k, last) == head + v.pawn_caps(sq, clear_lsb(a), is_pinned, k, last));
    }
}

/// A pawn move from `sq` to the empty square `to` with flags `fl`
/// (quiet, double push, or a quiet promotion) can be made.
proof fn lemma_push_sound(v: PosView, sq: int, to: int, fl: int)
    requires
        v.wf(),
        make_ready(v),
        0 <= sq < 64,
        0 <= to < 64,
        v.at(sq) == Some((v.us(), Piece::Pawn)),
        !sq_in(v.all_bb(), to),
        fl == 0 || 8 <= fl < 12 || (fl == 1 && (v.us() == Color::White ==> to >= 8) && (v.us() == Color::Black ==> to < 56)),
    ensures
        move_sound(v, mv_spec(sq, to, fl)),
{
    lemma_content(v);
    lemma_move_roundtrip(sq, to, fl);
}

proof fn lemma_pushes_sound(v: PosView, sq: int, pinned: u64, cm: u64, k: int)
    requires
        v.wf(),
        make_ready(v),
        0 <= sq < 64,
        v.at(sq) == Some((v.us(), Piece::Pawn)),
    ensures
        all_sound(v, v.pawn_pushes(sq, pinned, cm, k)),
{
    let white = v.us() == Color::White;
    let empty = !v.all_bb();
    let single = v.pawn_single(sq, pinned, cm, k);
    let double = v.pawn_double(sq, pinned, cm, k);
    let push1 = v.pawn_push1(sq);
    if push1 != 0 {
        lemma_lsb(push1);
        let to = lsb_spec(push1) as int;
        let bb = bit_spec(sq);
        let sh = if white { bb << 8u64 } else { bb >> 8u64 };
        assert(push1 == sh & empty);
        crate::board::bitboard::lemma_in_and(sh, empty, to);
        crate::board::bitboard::lemma_in_not(v.all_bb(), to);
        assert(!sq_in(v.all_bb(), to));
        assert forall|j: int| 8 <= j < 12 implies move_sound(v, #[trigger] mv_spec(sq, to, j)) by {
            lemma_push_sound(v, sq, to, j);
        }
        lemma_push_sound(v, sq, to, 0);
        assert(all_sound(v, single)) by {
            if single.len() == 4 {
                assert forall|i: int| 0 <= i < single.len() implies move_sound(v, #[trigger] single[i]) by {
                    assert(single[i] == mv_spec(sq, to, 8 + i));
                }
            }
        }
        if double.len() > 0 {
            let push2 = if white { (push1 << 8u64) & empty } else { (push1 >> 8u64) & empty };
            lemma_lsb(push2);
            let to2 = lsb_spec(push2) as int;
            assert(sq_in(push2, to2));
            if white {
                crate::board::bitboard::lemma_in_and(push1 << 8u64, empty, to2);
                crate::board::bitboard::lemma_in_shl(push1, 8u64, to2);
                crate::board::bitboard::lemma_in_and(bb << 8u64, empty, to2 - 8);
                crate::board::bitboard::lemma_in_shl(bb, 8u64, to2 - 8);
                crate::board::bitboard::lemma_in_bit(sq, to2 - 16);
            } else {
                crate::board::bitboard::lemma_in_and(push1 >> 8u64, empty, to2);
                crate::board::bitboard::lemma_in_shr(push1, 8u64, to2);
                crate::board::bitboard::lemma_in_and(bb >> 8u64, empty, to2 + 8);
                crate::board::bitboard::lemma_in_shr(bb, 8u64, to2 + 8);
                crate::board::bitboard::lemma_in_bit(sq, to2 + 16);
            }
            assert(to2 == (if white { sq + 16 } else { sq - 16 }));
            crate::board::bitboard::lemma_in_not(v.all_bb(), to2);
            lemma_push_sound(v, sq, to2, 1);
            assert(double == seq![mv_spec(sq, to2, 1)]);
            assert(move_sound(v, double[0]));
        }
        lemma_append_sound(v, single, double);
    }
}

proof fn lemma_pawn_sq_sound(v: PosView, sq: int, pinned: u64, cm: u64, k: int)
    requires
        v.wf(),
        make_ready(v),
        0 <= sq < 64,
        v.at(sq) == Some((v.us(), Piece::Pawn)),
    ensures
        all_sound(v, v.pawn_sq_moves(sq, pinned, cm, k)),
{
    reveal(PosView::pawn_sq_moves);
    let last: int = if v.us() == Color::White { 7 } else { 0 };
    let their = v.color_bb(v.them());
    let a = (crate::board::attacks::pawn_bb(sq, v.us()) & their) & cm;
    let pu = v.pawn_pushes(sq, pinned, cm, k);
    let ca = v.pawn_caps(sq, a, sq_in(pinned, sq), k, last);
    let ep = v.pawn_ep(sq, cm, k);
    lemma_pushes_sound(v, sq, pinned, cm, k);
    assert forall|s: int| sq_in(a, s) implies sq_in(their, s) by {
        crate::board::bitboard::lemma_in_and(crate::board::attacks::pawn_bb(sq, v.us()) & their, cm, s);
        crate::board::bitboard::lemma_in_and(crate::board::attacks::pawn_bb(sq, v.us()), their, s);
    }
    lemma_caps_sound(v, sq, a, sq_in(pinned, sq), k, last);
    if ep.len() > 0 {
        lemma_content(v);
        lemma_move_roundtrip(sq, v.ep_square as int, 5);
        assert(move_sound(v, ep[0]));
    }
    lemma_append_sound(v, pu, ca);
    lemma_append_sound(v, pu + ca, ep);
}

proof fn lemma_castling_sound(v: PosView)
    requires
        v.wf(),
        make_ready(v),
    ensures
        all_sound(v, v.castling_moves()),
{
    broadcast use group_bb;
    reveal(PosView::castling_moves);
    lemma_content(v);
    assert(((0x60u64 >> 5u64) & 1u64 == 1u64) && ((0x60u64 >> 6u64) & 1u64 == 1u64)
        && ((0xEu64 >> 2u64) & 1u64 == 1u64) && ((0xEu64 >> 3u64) & 1u64 == 1u64)
        && ((0x6000000000000000u64 >> 61u64) & 1u64 == 1u64) && ((0x6000000000000000u64 >> 62u64) & 1u64 == 1u64)
        && ((0x0E00000000000000u64 >> 58u64) & 1u64 == 1u64) && ((0x0E00000000000000u64 >> 59u64) & 1u64 == 1u64))
        by (bit_vector);
    let all = v.all_bb();
    assert(sq_in(0x60u64, 5) && sq_in(0x60u64, 6) && sq_in(0xEu64, 2) && sq_in(0xEu64, 3));
    assert(sq_in(0x6000000000000000u64, 61) && sq_in(0x6000000000000000u64, 62));
    assert(sq_in(0x0E00000000000000u64, 58) && sq_in(0x0E00000000000000u64, 59));
    assert(all & 0x60 == 0 ==> !sq_in(all, 5) && !sq_in(all, 6)) by {
        if all & 0x60 == 0 {
            assert(!sq_in(all & 0x60u64, 5) && !sq_in(all & 0x60u64, 6));
        }
    }
    assert(all & 0xE == 0 ==> !sq_in(all, 2) && !sq_in(all, 3)) by {
        if all & 0xE == 0 {
            assert(!sq_in(all & 0xEu64, 2) && !sq_in(all & 0xEu64, 3));
        }
    }
    assert(all & 0x6000000000000000 == 0 ==> !sq_in(all, 61) && !sq_in(all, 62)) by {
        if all & 0x6000000000000000 == 0 {
            assert(!sq_in(all & 0x6000000000000000u64, 61) && !sq_in(all & 0x6000000000000000u64, 62));
        }
    }
    assert(all & 0x0E00000000000000 == 0 ==> !sq_in(all, 58) && !sq_in(all, 59)) by {
        if all & 0x0E00000000000000 == 0 {
            assert(!sq_in(all & 0x0E00000000000000u64, 58) && !sq_in(all & 0x0E00000000000000u64, 59));
        }
    }
    lemma_move_roundtrip(4, 6, 2);
    lemma_move_roundtrip(4, 2, 3);
    lemma_move_roundtrip(60, 62, 2);
    lemma_move_roundtrip(60, 58, 3);
    let c = v.castling_moves();
    assert forall|i: int| 0 <= i < c.len() implies move_sound(v, #[trigger] c[i]) by {
    }
}

/// Every move the generator lists can be made (and taken back) on a
/// consistent position whose side to move has its king on the board and
/// whose castling rights, en-passant square and clocks agree with the
/// board (`make_ready`).
pub proof fn lemma_gen_moves_sound(v: PosView)
    requires
        v.wf(),
        make_ready(v),
        v.king_of(v.us()) < 64,
    ensures
        all_sound(v, v.gen_moves()),
{
    broadcast use group_bb;
    reveal(PosView::gen_moves);
    lemma_content(v);
    let k = v.king_of(v.us());
    let kb = v.piece_bb(v.us(), Piece::King);
    lemma_lsb(kb);
    lemma_mb_bb(v.mailbox, keep_piece(v.us(), Piece::King), 64);
    let own = v.color_bb(v.us());
    assert forall|s: int| sq_in(crate::board::attacks::king_bb(k) & !own, s) implies !sq_in(own, s) by {}
    lemma_king_steps_sound(v, k, crate::board::attacks::king_bb(k) & !own);
    let km = v.king_moves();
    if crate::board::bitboard::pop_count(v.checkers()) <= 1 {
        let pinned = v.pinned();
        let cm = v.check_mask();
        let castle = crate::board::bitboard::pop_count(v.checkers()) == 0;
        let pf = v.pawn_f(pinned, cm, k);
        let pb = v.piece_bb(v.us(), Piece::Pawn);
        lemma_mb_bb(v.mailbox, keep_piece(v.us(), Piece::Pawn), 64);
        assert forall|sq: int| 0 <= sq < 64 && sq_in(pb, sq) implies #[trigger] all_sound(v, pf(sq)) by {
            lemma_pawn_sq_sound(v, sq, pinned, cm, k);
        }
        lemma_each_sound(v, pb, pf);
        lemma_pieces_sound(v, Piece::Knight, pinned, cm, k);
        lemma_pieces_sound(v, Piece::Bishop, pinned, cm, k);
        lemma_pieces_sound(v, Piece::Rook, pinned, cm, k);
        lemma_pieces_sound(v, Piece::Queen, pinned, cm, k);
        let x0 = each_sq(pb, pf);
        let x1 = x0 + v.piece_moves(Piece::Knight, pinned, cm, k);
        let x2 = x1 + v.piece_moves(Piece::Bishop, pinned, cm, k);
        let x3 = x2 + v.piece_moves(Piece::Rook, pinned, cm, k);
        let x4 = x3 + v.piece_moves(Piece::Queen, pinned, cm, k);
        let x5 = x4 + km;
        lemma_append_sound(v, x0, v.piece_moves(Piece::Knight, pinned, cm, k));
        lemma_append_sound(v, x1, v.piece_moves(Piece::Bishop, pinned, cm, k));
        lemma_append_sound(v, x2, v.piece_moves(Piece::Rook, pinned, cm, k));
        lemma_append_sound(v, x3, v.piece_moves(Piece::Queen, pinned, cm, k));
        lemma_append_sound(v, x4, km);
        let c = if castle { v.castling_moves() } else { seq![] };
        lemma_castling_sound(v);
        lemma_append_sound(v, x5, c);
        assert(v.gen_moves() == x5 + c);
    }
}

/// On such a position a generated move meets what `make_move` requires,
/// and making it and taking it back gives the position back.
pub proof fn lemma_generated_make_unmake(v: PosView, m: Move)
    requires
        v.wf(),
        make_ready(v),
        v.king_of(v.us()) < 64,
        v.gen_moves().contains(m),
    ensures
        v.move_ok(m),
        v.make_view(m).unmake_ok(m),
        v.make_view(m).unmake_view(m) == v,
{
    lemma_gen_moves_sound(v);
    let i = choose|i: int| 0 <= i < v.gen_moves().len() && v.gen_moves()[i] == m;
    assert(move_sound(v, v.gen_moves()[i]));
    crate::board::position::lemma_make_unmake(v, m);
}

} // verus!
