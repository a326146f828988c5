//! The generator lists no move twice.
use vstd::prelude::*;
use crate::board::bitboard::{sq_in, lsb_spec, clear_lsb, lemma_clear_lsb, lemma_lsb, group_bb};
use crate::board::moves::{Move, lemma_move_roundtrip};
use crate::board::position::{PosView, lemma_mb_bb, keep_piece};
use crate::board::types::{Color, Piece};
use crate::movegen::{mv_spec, target_moves, each_sq, promos};

verus! {

/// No move occurs twice in `s`.
pub open spec fn no_dup(s: Seq<Move>) -> bool {
    forall|i: int, j: int| 0 <= i < j < s.len() ==> #[trigger] s[i] != #[trigger] s[j]
}

/// Two sequences share no move.
pub open spec fn apart(x: Seq<Move>, y: Seq<Move>) -> bool {
    forall|i: int, j: int| 0 <= i < x.len() && 0 <= j < y.len() ==> #[trigger] x[i] != #[trigger] y[j]
}

proof fn lemma_concat(x: Seq<Move>, y: Seq<Move>)
    requires
        no_dup(x),
        no_dup(y),
        apart(x, y),
    ensures
        no_dup(x + y),
{
    let z = x + y;
    assert forall|i: int, j: int| 0 <= i < j < z.len() implies #[trigger] z[i] != #[trigger] z[j] by {
        if j < x.len() {
            assert(z[i] == x[i] && z[j] == x[j]);
        } else if i >= x.len() {
            assert(z[i] == y[i - x.len()] && z[j] == y[j - x.len()]);
        } else {
            assert(z[i] == x[i] && z[j] == y[j - x.len()]);
        }
    }
}

/// Every move of `s` goes from `from` to a square of `tos`, with flags
/// quiet or capture.
pub open spec fn steps_from(s: Seq<Move>, from: int, tos: u64) -> bool {
    forall|k: int| 0 <= k < s.len() ==> {
        &&& (#[trigger] s[k]).from_spec() == from
        &&& sq_in(tos, s[k].to_spec())
        &&& s[k].flags_spec() == 0 || s[k].flags_spec() == 4
    }
}

proof fn lemma_targets(from: int, targets: u64, their: u64)
    requires
        0 <= from < 64,
    ensures
        no_dup(target_moves(from, targets, their)),
        steps_from(target_moves(from, targets, their), from, targets),
    decreases targets,
{
    if targets != 0 {
        lemma_clear_lsb(targets);
        lemma_lsb(targets);
        let to = lsb_spec(targets) as int;
        let fl: int = if sq_in(their, to) { 4 } else { 0 };
        lemma_move_roundtrip(from, to, fl);
        let head = seq![mv_spec(from, to, fl)];
        let rest = target_moves(from, clear_lsb(targets), their);
        lemma_targets(from, clear_lsb(targets), their);
        assert(apart(head, rest)) by {
            assert forall|i: int, j: int| 0 <= i < head.len() && 0 <= j < rest.len() implies #[trigger] head[i] != #[trigger] rest[j] by {
                assert(sq_in(clear_lsb(targets), rest[j].to_spec()));
            }
        }
        lemma_concat(head, rest);
        assert(target_moves(from, targets, their) == head + rest);
        let all = head + rest;
        assert forall|k: int| 0 <= k < all.len() implies {
            &&& (#[trigger] all[k]).from_spec() == from
            &&& sq_in(targets, all[k].to_spec())
            &&& all[k].flags_spec() == 0 || all[k].flags_spec() == 4
        } by {
            if k >= 1 {
                assert(all[k] == rest[k - 1]);
            }
        }
    }
}

/// The moves `f` lists for `sq` start there, none twice, and none carries
/// a castling flag.
pub open spec fn sq_list_ok(f: spec_fn(int) -> Seq<Move>, sq: int) -> bool {
    &&& no_dup(f(sq))
    &&& forall|k: int| 0 <= k < f(sq).len() ==> (#[trigger] f(sq)[k]).from_spec() == sq
        && f(sq)[k].flags_spec() != 2 && f(sq)[k].flags_spec() != 3
}

proof fn lemma_each(bb: u64, f: spec_fn(int) -> Seq<Move>)
    requires
        forall|sq: int| 0 <= sq < 64 && sq_in(bb, sq) ==> #[trigger] sq_list_ok(f, sq),
    ensures
        no_dup(each_sq(bb, f)),
        forall|k: int| 0 <= k < each_sq(bb, f).len() ==> sq_in(bb, (#[trigger] each_sq(bb, f)[k]).from_spec())
            && each_sq(bb, f)[k].flags_spec() != 2 && each_sq(bb, f)[k].flags_spec() != 3,
    decreases bb,
{
    if bb != 0 {
        lemma_clear_lsb(bb);
        lemma_lsb(bb);
        let sq = lsb_spec(bb) as int;
        let head = f(sq);
        let rb = clear_lsb(bb);
        let rest = each_sq(rb, f);
        assert(sq_list_ok(f, sq));
        assert forall|t: int| 0 <= t < 64 && sq_in(rb, t) implies #[trigger] sq_list_ok(f, t) by {
            assert(sq_in(bb, t));
        }
        lemma_each(rb, f);
        assert(apart(head, rest)) by {
            assert forall|i: int, j: int| 0 <= i < head.len() && 0 <= j < rest.len() implies #[trigger] head[i] != #[trigger] rest[j] by {
                assert(sq_in(rb, rest[j].from_spec()));
                assert(head[i].from_spec() == sq);
            }
        }
        lemma_concat(head, rest);
        let all = each_sq(bb, f);
        assert(all == head + rest);
        assert forall|k: int| 0 <= k < all.len() implies sq_in(bb, (#[trigger] all[k]).from_spec())
            && all[k].flags_spec() != 2 && all[k].flags_spec() != 3 by {
            if k < head.len() {
                assert(all[k] == head[k]);
            } else {
                assert(all[k] == rest[k - head.len()]);
            }
        }
    }
}

/// The four promotions from `sq` to `to` are distinct, with flags
/// `base` to `base + 3`.
proof fn lemma_promos(sq: int, to: int, capture: bool)
    requires
        0 <= sq < 64,
        0 <= to < 64,
    ensures
        no_dup(promos(sq, to, capture)),
        forall|k: int| 0 <= k < 4 ==> (#[trigger] promos(sq, to, capture)[k]).from_spec() == sq
            && promos(sq, to, capture)[k].to_spec() == to
            && promos(sq, to, capture)[k].flags_spec() == (if capture { 12int } else { 8int }) + k,
        promos(sq, to, capture).len() == 4,
{
    let base: int = if capture { 12 } else { 8 };
    let ps = promos(sq, to, capture);
    assert forall|k: int| 0 <= k < 4 implies (#[trigger] ps[k]).from_spec() == sq && ps[k].to_spec() == to
        && ps[k].flags_spec() == base + k by {
        assert(ps[k] == mv_spec(sq, to, base + k));
        lemma_move_roundtrip(sq, to, base + k);
    }
}

/// Every move of `s` goes from `sq` to a square of `a` as a capture
/// (promoting or not).
pub open spec fn caps_from(s: Seq<Move>, sq: int, a: u64) -> bool {
    forall|k: int| 0 <= k < s.len() ==> {
        &&& (#[trigger] s[k]).from_spec() == sq
        &&& sq_in(a, s[k].to_spec())
        &&& s[k].flags_spec() == 4 || 12 <= s[k].flags_spec() <= 15
    }
}

proof fn lemma_caps(v: PosView, sq: int, a: u64, is_pinned: bool, k: int, last: int)
    requires
        0 <= sq < 64,
    ensures
        no_dup(v.pawn_caps(sq, a, is_pinned, k, last)),
        caps_from(v.pawn_caps(sq, a, is_pinned, k, last), sq, a),
    decreases a,
{
    if a != 0 {
        lemma_clear_lsb(a);
        lemma_lsb(a);
        let to = lsb_spec(a) as int;
        let on = !is_pinned || crate::movegen::on_pin_ray(sq, to, k);
        let head = if on {
            if to / 8 == last { promos(sq, to, true) } else { seq![mv_spec(sq, to, 4)] }
        } else {
            seq![]
        };
        if on && to / 8 == last {
            lemma_promos(sq, to, true);
        }
        lemma_move_roundtrip(sq, to, 4);
        assert(no_dup(head));
        assert(caps_from(head, sq, a));
        let rest = v.pawn_caps(sq, clear_lsb(a), is_pinned, k, last);
        lemma_caps(v, sq, clear_lsb(a), is_pinned, k, last);
        assert(apart(head, rest)) by {
            assert forall|i: int, j: int| 0 <= i < head.len() && 0 <= j < rest.len() implies #[trigger] head[i] != #[trigger] rest[j] by {
                assert(sq_in(clear_lsb(a), rest[j].to_spec()));
                assert(head[i].to_spec() == to);
            }
        }
        lemma_concat(head, rest);
        let all = v.pawn_caps(sq, a, is_pinned, k, last);
        assert(all == head + rest);
        assert forall|i: int| 0 <= i < all.len() implies {
            &&& (#[trigger] all[i]).from_spec() == sq
            &&& sq_in(a, all[i].to_spec())
            &&& all[i].flags_spec() == 4 || 12 <= all[i].flags_spec() <= 15
        } by {
            if i < head.len() {
                assert(all[i] == head[i]);
            } else {
                assert(all[i] == rest[i - head.len()]);
            }
        }
    }
}

/// The moves listed for our pawn on `sq` are distinct, start on `sq` and
/// carry no castling flag.
proof fn lemma_pawn_sq(v: PosView, sq: int, pinned: u64, cm: u64, k: int)
    requires
        v.wf(),
        0 <= sq < 64,
    ensures
        sq_list_ok(v.pawn_f(pinned, cm, k), sq),
{
    reveal(PosView::pawn_sq_moves);
    let last: int = if v.us() == Color::White { 7 } else { 0 };
    let their = v.color_bb(v.them());
    let a = (crate::board::attacks::pawn_bb(sq, v.us()) & their) & cm;
    let single = v.pawn_single(sq, pinned, cm, k);
    let double = v.pawn_double(sq, pinned, cm, k);
    let pu = v.pawn_pushes(sq, pinned, cm, k);
    let ca = v.pawn_caps(sq, a, sq_in(pinned, sq), k, last);
    let ep = v.pawn_ep(sq, cm, k);
    // pushes: quiet or quiet promotions, then the double push
    let push1 = v.pawn_push1(sq);
    if push1 != 0 {
        lemma_lsb(push1);
        let to = lsb_spec(push1) as int;
        lemma_promos(sq, to, false);
        lemma_move_roundtrip(sq, to, 0);
        if double.len() > 0 {
            let empty = !v.all_bb();
            let push2 = if v.us() == Color::White { (push1 << 8u64) & empty } else { (push1 >> 8u64) & empty };
            lemma_lsb(push2);
            lemma_move_roundtrip(sq, lsb_spec(push2) as int, 1);
        }
        assert(apart(single, double));
        lemma_concat(single, double);
    }
    assert(no_dup(pu));
    assert forall|i: int| 0 <= i < pu.len() implies (#[trigger] pu[i]).from_spec() == sq
        && (pu[i].flags_spec() == 0 || pu[i].flags_spec() == 1 || 8 <= pu[i].flags_spec() <= 11) by {
        if i < single.len() {
            assert(pu[i] == single[i]);
        } else {
            assert(pu[i] == double[i - single.len()]);
        }
    }
    lemma_caps(v, sq, a, sq_in(pinned, sq), k, last);
    lemma_concat(pu, ca);
    if ep.len() > 0 {
        lemma_move_roundtrip(sq, v.ep_square as int, 5);
    }
    lemma_concat(pu + ca, ep);
    let all = pu + ca + ep;
    assert(v.pawn_f(pinned, cm, k)(sq) == all);
    assert forall|i: int| 0 <= i < all.len() implies (#[trigger] all[i]).from_spec() == sq
        && all[i].flags_spec() != 2 && all[i].flags_spec() != 3 by {
        if i < pu.len() {
            assert(all[i] == pu[i]);
        } else if i < pu.len() + ca.len() {
            assert(all[i] == ca[i - pu.len()]);
        } else {
            assert(all[i] == ep[i - pu.len() - ca.len()]);
        }
    }
}

proof fn lemma_king_steps(v: PosView, k: int, atks: u64)
    requires
        0 <= k < 64,
    ensures
        no_dup(v.king_steps(k, atks)),
        steps_from(v.king_steps(k, atks), k, atks),
    decreases atks,
{
    reveal(PosView::king_steps);
    if atks != 0 {
        lemma_clear_lsb(atks);
        lemma_lsb(atks);
        let to = lsb_spec(atks) as int;
        let occ = v.all_bb() ^ crate::board::bitboard::bit_spec(k);
        let their = v.color_bb(v.them());
        let fl: int = if sq_in(their, to) { 4 } else { 0 };
        lemma_move_roundtrip(k, to, fl);
        let head = if !v.attacked_occ(to, v.them(), occ) { seq![mv_spec(k, to, fl)] } else { seq![] };
        let rest = v.king_steps(k, clear_lsb(atks));
        lemma_king_steps(v, k, clear_lsb(atks));
        assert(apart(head, rest)) by {
            assert forall|i: int, j: int| 0 <= i < head.len() && 0 <= j < rest.len() implies #[trigger] head[i] != #[trigger] rest[j] by {
                assert(sq_in(clear_lsb(atks), rest[j].to_spec()));
            }
        }
        lemma_concat(head, rest);
        let all = v.king_steps(k, atks);
        assert(all == head + rest);
        assert forall|i: int| 0 <= i < all.len() implies {
            &&& (#[trigger] all[i]).from_spec() == k
            &&& sq_in(atks, all[i].to_spec())
            &&& all[i].flags_spec() == 0 || all[i].flags_spec() == 4
        } by {
            if i < head.len() {
                assert(all[i] == head[i]);
            } else {
                assert(all[i] == rest[i - head.len()]);
            }
        }
    }
}

/// Castling moves are distinct and carry a castling flag.
proof fn lemma_castling(v: PosView)
    ensures
        no_dup(v.castling_moves()),
        forall|i: int| 0 <= i < v.castling_moves().len() ==> (#[trigger] v.castling_moves()[i]).flags_spec() == 2
            || v.castling_moves()[i].flags_spec() == 3,
{
    reveal(PosView::castling_moves);
    lemma_move_roundtrip(4, 6, 2);
    lemma_move_roundtrip(4, 2, 3);
    lemma_move_roundtrip(60, 62, 2);
    lemma_move_roundtrip(60, 58, 3);
    let c = v.castling_moves();
    assert(c.len() <= 2);
    assert forall|i: int| 0 <= i < c.len() implies (#[trigger] c[i]).flags_spec() == 2 || c[i].flags_spec() == 3 by {
    }
    assert(c.len() == 2 ==> c[0].flags_spec() == 2 && c[1].flags_spec() == 3);
}

/// The piece kind (by index) of the side to move on the from square of
/// `m`, or 9 when there is none.
pub open spec fn kind_idx(v: PosView, m: Move) -> int {
    match v.at(m.from_spec()) {
        Some((c, p)) => if c == v.us() { p.idx() } else { 9 },
        None => 9,
    }
}

/// `s` has no move twice, each of its moves starts on a piece of the side
/// to move of kind index `lo` to `hi`, and none carries a castling flag.
pub open spec fn kinds_ok(v: PosView, s: Seq<Move>, lo: int, hi: int) -> bool {
    &&& no_dup(s)
    &&& forall|i: int| 0 <= i < s.len() ==> lo <= #[trigger] kind_idx(v, s[i]) <= hi
        && s[i].flags_spec() != 2 && s[i].flags_spec() != 3
}

proof fn lemma_join(v: PosView, x: Seq<Move>, y: Seq<Move>, n: int)
    requires
        kinds_ok(v, x, 0, n - 1),
        kinds_ok(v, y, n, n),
    ensures
        kinds_ok(v, x + y, 0, n),
{
    assert(apart(x, y)) by {
        assert forall|i: int, j: int| 0 <= i < x.len() && 0 <= j < y.len() implies #[trigger] x[i] != #[trigger] y[j] by {
            assert(kind_idx(v, x[i]) < n);
            assert(kind_idx(v, y[j]) == n);
        }
    }
    lemma_concat(x, y);
    let z = x + y;
    assert forall|i: int| 0 <= i < z.len() implies 0 <= #[trigger] kind_idx(v, z[i]) <= n
        && z[i].flags_spec() != 2 && z[i].flags_spec() != 3 by {
        if i < x.len() {
            assert(z[i] == x[i]);
        } else {
            assert(z[i] == y[i - x.len()]);
        }
    }
}

/// The moves listed from squares of `bb`, all within our pieces of kind
/// `p`, satisfy `kinds_ok` for that kind.
proof fn lemma_kind_part(v: PosView, p: Piece, bb: u64, f: spec_fn(int) -> Seq<Move>)
    requires
        v.wf(),
        forall|s: int| sq_in(bb, s) ==> sq_in(v.piece_bb(v.us(), p), s),
        forall|sq: int| 0 <= sq < 64 && sq_in(bb, sq) ==> #[trigger] sq_list_ok(f, sq),
    ensures
        kinds_ok(v, each_sq(bb, f), p.idx(), p.idx()),
{
    lemma_each(bb, f);
    lemma_mb_bb(v.mailbox, keep_piece(v.us(), p), 64);
    let es = each_sq(bb, f);
    assert forall|i: int| 0 <= i < es.len() implies p.idx() <= #[trigger] kind_idx(v, es[i]) <= p.idx()
        && es[i].flags_spec() != 2 && es[i].flags_spec() != 3 by {
        let s = es[i].from_spec();
        assert(sq_in(bb, s));
        assert(sq_in(v.piece_bb(v.us(), p), s));
    }
}

proof fn lemma_piece_part(v: PosView, p: Piece, pinned: u64, cm: u64, k: int)
    requires
        v.wf(),
        p == Piece::Knight || p == Piece::Bishop || p == Piece::Rook || p == Piece::Queen,
    ensures
        kinds_ok(v, v.piece_moves(p, pinned, cm, k), p.idx(), p.idx()),
{
    broadcast use group_bb;
    let f = v.piece_f(p, pinned, cm, k);
    let their = v.color_bb(v.them());
    let bb = if p == Piece::Knight { v.piece_bb(v.us(), p) & !pinned } else { v.piece_bb(v.us(), p) };
    assert forall|sq: int| 0 <= sq < 64 && sq_in(bb, sq) implies #[trigger] sq_list_ok(f, sq) by {
        lemma_targets(sq, v.piece_targets(p, sq, pinned, cm, k), their);
        assert(f(sq) == target_moves(sq, v.piece_targets(p, sq, pinned, cm, k), their));
    }
    lemma_kind_part(v, p, bb, f);
}

/// The generator lists no move twice, for a position whose side to move
/// has its king on the board.
pub proof fn lemma_gen_moves_distinct(v: PosView)
    requires
        v.wf(),
        v.king_of(v.us()) < 64,
    ensures
        no_dup(v.gen_moves()),
{
    broadcast use group_bb;
    reveal(PosView::gen_moves);
    let k = v.king_of(v.us());
    let kb = v.piece_bb(v.us(), Piece::King);
    lemma_lsb(kb);
    lemma_mb_bb(v.mailbox, keep_piece(v.us(), Piece::King), 64);
    let km = v.king_moves();
    lemma_king_steps(v, k, crate::board::attacks::king_bb(k) & !v.color_bb(v.us()));
    assert(kinds_ok(v, km, 5, 5)) by {
        assert forall|i: int| 0 <= i < km.len() implies 5 <= #[trigger] kind_idx(v, km[i]) <= 5
            && km[i].flags_spec() != 2 && km[i].flags_spec() != 3 by {
            assert(km[i].from_spec() == k);
        }
    }
    if crate::board::bitboard::pop_count(v.checkers()) <= 1 {
        let pinned = v.pinned();
        let cm = v.check_mask();
        let castle = crate::board::bitboard::pop_count(v.checkers()) == 0;
        let pf = v.pawn_f(pinned, cm, k);
        let pb = v.piece_bb(v.us(), Piece::Pawn);
        assert forall|sq: int| 0 <= sq < 64 && sq_in(pb, sq) implies #[trigger] sq_list_ok(pf, sq) by {
            lemma_pawn_sq(v, sq, pinned, cm, k);
        }
        lemma_kind_part(v, Piece::Pawn, pb, pf);
        let x0 = each_sq(pb, pf);
        let x1 = x0 + v.piece_moves(Piece::Knight, pinned, cm, k);
        let x2 = x1 + v.piece_moves(Piece::Bishop, pinned, cm, k);
        let x3 = x2 + v.piece_moves(Piece::Rook, pinned, cm, k);
        let x4 = x3 + v.piece_moves(Piece::Queen, pinned, cm, k);
        let x5 = x4 + km;
        lemma_piece_part(v, Piece::Knight, pinned, cm, k);
        lemma_piece_part(v, Piece::Bishop, pinned, cm, k);
        lemma_piece_part(v, Piece::Rook, pinned, cm, k);
        lemma_piece_part(v, Piece::Queen, pinned, cm, k);
        lemma_join(v, x0, v.piece_moves(Piece::Knight, pinned, cm, k), 1);
        lemma_join(v, x1, v.piece_moves(Piece::Bishop, pinned, cm, k), 2);
        lemma_join(v, x2, v.piece_moves(Piece::Rook, pinned, cm, k), 3);
        lemma_join(v, x3, v.piece_moves(Piece::Queen, pinned, cm, k), 4);
        lemma_join(v, x4, km, 5);
        let c = if castle { v.castling_moves() } else { seq![] };
        lemma_castling(v);
        assert(no_dup(c));
        assert(apart(x5, c)) by {
            assert forall|i: int, j: int| 0 <= i < x5.len() && 0 <= j < c.len() implies #[trigger] x5[i] != #[trigger] c[j] by {
                assert(kinds_ok(v, x5, 0, 5));
                assert(0 <= kind_idx(v, x5[i]) <= 5);
                assert(x5[i].flags_spec() != 2 && x5[i].flags_spec() != 3);
                assert(c[j] == v.castling_moves()[j]);
            }
        }
        lemma_concat(x5, c);
        assert(v.gen_moves() == x5 + c);
    }
}

} // verus!
