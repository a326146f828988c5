//! Alpha-beta search: principal variation search with a transposition
//! table, null-move pruning, reductions, extensions and quiescence search,
//! and static exchange evaluation for move ordering.
pub mod order;
pub mod see;
use vstd::prelude::*;
use std::time::{Duration, Instant};
use crate::board::moves::{Move, MoveList};
use crate::board::position::{Position, PosView};
use crate::board::types::{Color, Piece, color_of_idx, piece_of_idx};
use crate::eval::{evaluate, eval_ok, eval_phase, pawns_inside, eval_spec};
use crate::movegen::generate_legal_moves;
use crate::tt::{TT, TTEntry, TT_EXACT, TT_LOWER, TT_UPPER};
use crate::uci::{playable, move_sound};
use crate::crosscheck::{side_in_check, lemma_in_check_view};
use crate::strutil::push_char;
use crate::board::fen::{push_dec, dec_text};
use order::sort_by_score_desc;
use see::see;

verus! {

pub const MATE_SCORE: i32 = 30_000;
pub const MATE_THRESHOLD: i32 = 29_000;
pub const INF: i32 = 32_000;
pub const MAX_PLY: usize = 128;

/// MVV-LVA for initial move ordering within winning captures
pub const MVV: [i32; 6] = [100, 300, 300, 500, 900, 2000];
pub const LVA: [i32; 6] = [6, 5, 4, 3, 2, 1];

pub const RFP_MARGIN: [i32; 9] = [0, 80, 160, 240, 320, 400, 480, 560, 640];
pub const FP_MARGIN: [i32; 5] = [0, 100, 200, 300, 400];
/// Late move pruning counts (improving / not improving)
pub const LMP_IMPROVING: [usize; 5] = [0, 10, 16, 24, 32];
pub const LMP_NOT_IMPROVING: [usize; 5] = [0, 5, 9, 14, 19];
pub const PROBCUT_MARGIN: i32 = 150;
/// Skip the full evaluation when the quick one is far outside the window
pub const LAZY_EVAL_MARGIN: i32 = 300;
pub const CORRHIST_SIZE: usize = 16384;
pub const CORRHIST_GRAIN: i32 = 256;
pub const CORRHIST_MAX: i32 = 262144;

/// A mate score stored in the table is made relative to the node that
/// stores it.
pub open spec fn tt_score_to_spec(score: int, ply: int) -> int {
    if score > MATE_THRESHOLD { score + ply } else if score < -MATE_THRESHOLD { score - ply } else { score }
}

/// A mate score read from the table is made relative to the root again.
pub open spec fn tt_score_from_spec(score: int, ply: int) -> int {
    if score > MATE_THRESHOLD { score - ply } else if score < -MATE_THRESHOLD { score + ply } else { score }
}

pub fn tt_score_to(score: i32, ply: usize) -> (r: i32)
    requires
        -100_000_000 <= score <= 100_000_000,
        ply <= MAX_PLY,
    ensures
        r == tt_score_to_spec(score as int, ply as int),
{
    if score > MATE_THRESHOLD { score + ply as i32 } else if score < -MATE_THRESHOLD { score - ply as i32 } else { score }
}

pub fn tt_score_from(score: i32, ply: usize) -> (r: i32)
    requires
        -100_000_000 <= score <= 100_000_000,
        ply <= MAX_PLY,
    ensures
        r == tt_score_from_spec(score as int, ply as int),
{
    if score > MATE_THRESHOLD { score - ply as i32 } else if score < -MATE_THRESHOLD { score + ply as i32 } else { score }
}

/// Reading back a score stored at the same ply gives the score itself.
pub proof fn lemma_tt_score_roundtrip(score: int, ply: int)
    requires
        ply >= 0,
    ensures
        tt_score_from_spec(tt_score_to_spec(score, ply), ply) == score,
{
}

/// A position the search can visit: moves can be generated and made, and
/// it can be evaluated (no pawn on its last rank, both kings present).
pub open spec fn node_ok(v: PosView) -> bool {
    &&& playable(v)
    &&& v.piece_bb(Color::White, Piece::Pawn) & 0xFF00_0000_0000_0000u64 == 0
    &&& v.piece_bb(Color::Black, Piece::Pawn) & 0xFFu64 == 0
    &&& v.piece_bb(Color::White, Piece::King) != 0
    &&& v.piece_bb(Color::Black, Piece::King) != 0
}

/// A null move fits the clocks.
pub open spec fn null_fits(v: PosView) -> bool {
    v.halfmove_clock < 255 && (v.side == Color::Black ==> v.fullmove < 65535)
}

/// Quiescence reach: every position reached within `n` generated moves
/// from `v` can be visited, and each move on the way can be made and
/// undone.
#[verifier::opaque]
pub open spec fn qs_ok(v: PosView, n: nat) -> bool
    decreases n,
{
    &&& node_ok(v)
    &&& n > 0 ==> forall|i: int| 0 <= i < v.gen_moves().len() ==> move_sound(v, #[trigger] v.gen_moves()[i])
        && qs_ok(v.make_view(v.gen_moves()[i]), (n - 1) as nat)
}

/// Search reach below the root: `v` can be visited; unless it is drawn
/// (where the search stops), quiescence can start there, and every
/// position after a generated move, or after a null move where the side to
/// move is not in check, has search reach one ply less deep.
#[verifier::opaque]
pub open spec fn search_ok(v: PosView, n: nat) -> bool
    decreases n,
{
    &&& node_ok(v)
    &&& !drawn(v) ==> qs_ok(v, n)
    &&& !drawn(v) && n > 0 ==> {
        &&& forall|i: int| 0 <= i < v.gen_moves().len() ==> move_sound(v, #[trigger] v.gen_moves()[i])
            && search_ok(v.make_view(v.gen_moves()[i]), (n - 1) as nat)
        &&& !side_in_check(v) ==> null_fits(v) && search_ok(v.null_view(), (n - 1) as nat)
    }
}

/// Search reach at the root, which is searched whether drawn or not: `v`
/// can be visited, and every position after a generated move, or after a
/// null move where the side to move is not in check, has search reach one
/// ply less deep.
#[verifier::opaque]
pub open spec fn root_ok(v: PosView, n: nat) -> bool {
    &&& node_ok(v)
    &&& n > 0 ==> {
        &&& forall|i: int| 0 <= i < v.gen_moves().len() ==> move_sound(v, #[trigger] v.gen_moves()[i])
            && search_ok(v.make_view(v.gen_moves()[i]), (n - 1) as nat)
        &&& !side_in_check(v) ==> null_fits(v) && search_ok(v.null_view(), (n - 1) as nat)
    }
}

proof fn lemma_eval_ok(pos: &Position)
    requires
        pos.wf_board(),
        node_ok(pos@),
    ensures
        eval_ok(pos),
{
    pos.lemma_bitboards();
    assert(pos.pieces[0][0] == pos@.piece_bb(color_of_idx(0), piece_of_idx(0)));
    assert(pos.pieces[1][0] == pos@.piece_bb(color_of_idx(1), piece_of_idx(0)));
    assert(pos.pieces[0][5] == pos@.piece_bb(color_of_idx(0), piece_of_idx(5)));
    assert(pos.pieces[1][5] == pos@.piece_bb(color_of_idx(1), piece_of_idx(5)));
}

/// The static evaluation of a position, from the side to move.
#[verifier::opaque]
pub open spec fn static_eval(p: &Position) -> int {
    eval_spec(p)
}

/// Evaluation of a visited position.
fn eval_node(pos: &Position) -> (r: i32)
    requires
        pos.wf_board(),
        node_ok(pos@),
    ensures
        r == static_eval(pos),
        -10_000_000 <= r <= 10_000_000,
{
    proof {
        lemma_eval_ok(pos);
        reveal(static_eval);
    }
    evaluate(pos)
}

#[verifier::external_type_specification]
#[verifier::external_body]
pub struct ExInstant(Instant);

/// The time since `start` (calls `Instant::elapsed`). Trusted: nothing is
/// claimed of the result, which depends on the clock.
#[verifier::external_body]
fn instant_elapsed(start: &Instant) -> Duration {
    start.elapsed()
}

/// The whole milliseconds in `d` (calls `Duration::as_millis`). Trusted:
/// the value is left unsaid, as `Duration` is opaque here.
#[verifier::external_body]
fn duration_millis(d: &Duration) -> u128 {
    d.as_millis()
}

/// Milliseconds since `start`, cut to 64 bits.
fn elapsed_since(start: &Instant) -> u64 {
    let d = instant_elapsed(start);
    let ms = duration_millis(&d);
    ms as u64
}

pub struct SearchParams {
    pub start: Instant,
    pub soft_limit: Option<u64>,
    pub hard_limit: Option<u64>,
    pub depth_limit: Option<u32>,
    pub node_limit: Option<u64>,
}

pub struct SearchResult {
    pub best_move: Move,
    pub score: i32,
    pub depth: u32,
    pub nodes: u64,
}

} // verus!

verus! {

/// Width of one row of the principal-variation table.
pub const PV_W: usize = 129;

/// Search state: node count, move-ordering heuristics (killer moves,
/// history tables, countermoves), the reduction table, static evaluations
/// along the current line, the principal variation and the correction
/// history of the static evaluation.
pub struct Search {
    pub nodes: u64,
    killers: Vec<Move>,
    history: Vec<i32>,
    cont_hist: Vec<i32>,
    cap_hist: Vec<i32>,
    countermoves: Vec<Move>,
    lmr: Vec<i32>,
    eval_stack: Vec<i32>,
    pv: Vec<Move>,
    pv_len: Vec<usize>,
    prev_move: Vec<Move>,
    pub stopped: bool,
    corrhist: Vec<i32>,
    cont_hist2: Vec<i32>,
    root_best_nodes: u64,
    root_total_nodes: u64,
}

fn filled_i32(n: usize, x: i32) -> (v: Vec<i32>)
    ensures
        v@.len() == n,
        forall|i: int| 0 <= i < n ==> v@[i] == x,
{
    let mut v: Vec<i32> = Vec::new();
    let mut i: usize = 0;
    while i < n
        invariant
            i <= n,
            v@.len() == i,
            forall|j: int| 0 <= j < i ==> v@[j] == x,
        decreases n - i,
    {
        v.push(x);
        i += 1;
    }
    v
}

fn filled_move(n: usize, x: Move) -> (v: Vec<Move>)
    ensures
        v@.len() == n,
        forall|i: int| 0 <= i < n ==> v@[i] == x,
{
    let mut v: Vec<Move> = Vec::new();
    let mut i: usize = 0;
    while i < n
        invariant
            i <= n,
            v@.len() == i,
            forall|j: int| 0 <= j < i ==> v@[j] == x,
        decreases n - i,
    {
        v.push(x);
        i += 1;
    }
    v
}

fn filled_usize(n: usize, x: usize) -> (v: Vec<usize>)
    ensures
        v@.len() == n,
        forall|i: int| 0 <= i < n ==> v@[i] == x,
{
    let mut v: Vec<usize> = Vec::new();
    let mut i: usize = 0;
    while i < n
        invariant
            i <= n,
            v@.len() == i,
            forall|j: int| 0 <= j < i ==> v@[j] == x,
        decreases n - i,
    {
        v.push(x);
        i += 1;
    }
    v
}

/// A reduction table entry is within reach.
pub open spec fn lmr_ok(t: Seq<i32>) -> bool {
    t.len() == 4096 && forall|i: int| 0 <= i < 4096 ==> 0 <= #[trigger] t[i] <= 64
}

impl Search {
    /// Nodes searched so far.
    pub closed spec fn node_count(&self) -> u64 {
        self.nodes
    }

    /// The search was stopped by a limit.
    pub closed spec fn is_stopped(&self) -> bool {
        self.stopped
    }

    #[verifier::opaque]
    pub closed spec fn wf(&self) -> bool {
        &&& self.killers@.len() == 2 * MAX_PLY
        &&& self.history@.len() == 4096
        &&& self.cont_hist@.len() == 4096
        &&& self.cont_hist2@.len() == 4096
        &&& self.cap_hist@.len() == 4096
        &&& self.countermoves@.len() == 4096
        &&& lmr_ok(self.lmr@)
        &&& self.eval_stack@.len() == MAX_PLY
        &&& self.pv@.len() == PV_W * PV_W
        &&& self.pv_len@.len() == PV_W
        &&& forall|p: int| 0 <= p < PV_W ==> #[trigger] self.pv_len@[p] + p <= PV_W
        &&& self.prev_move@.len() == MAX_PLY
        &&& self.corrhist@.len() == 2 * CORRHIST_SIZE
        &&& forall|i: int| 0 <= i < self.corrhist@.len() ==> -CORRHIST_MAX <= #[trigger] self.corrhist@[i] <= CORRHIST_MAX
    }

    /// The principal variation from the root.
    pub closed spec fn pv_root(&self) -> Seq<Move> {
        self.pv@.subrange(0, self.pv_len@[0] as int)
    }

    /// Nodes spent below the best root move in the last iteration.
    pub closed spec fn root_best(&self) -> u64 {
        self.root_best_nodes
    }

    /// Nodes spent below all root moves in the last iteration.
    pub closed spec fn root_total(&self) -> u64 {
        self.root_total_nodes
    }

    /// The first move of the principal variation (the null move if empty).
    pub closed spec fn pv_first(&self) -> Move {
        if self.pv_len@.len() > 0 && self.pv_len@[0] > 0 && self.pv@.len() > 0 { self.pv@[0] } else { Move(0) }
    }

    /// A fresh search state; `lmr` holds the late-move reductions by
    /// depth and move number (`lmr[d * 64 + i]`).
    pub fn new(lmr: Vec<i32>) -> (s: Self)
        requires
            lmr_ok(lmr@),
        ensures
            s.wf(),
            s.node_count() == 0,
            !s.is_stopped(),
    {
        proof {
            reveal(Search::wf);
        }
        let s = Search {
            nodes: 0,
            killers: filled_move(2 * MAX_PLY, Move(0)),
            history: filled_i32(4096, 0),
            cont_hist: filled_i32(4096, 0),
            cap_hist: filled_i32(4096, 0),
            countermoves: filled_move(4096, Move(0)),
            lmr,
            eval_stack: filled_i32(MAX_PLY, 0),
            pv: filled_move(PV_W * PV_W, Move(0)),
            pv_len: filled_usize(PV_W, 0),
            prev_move: filled_move(MAX_PLY, Move(0)),
            stopped: false,
            corrhist: filled_i32(2 * CORRHIST_SIZE, 0),
            cont_hist2: filled_i32(4096, 0),
            root_best_nodes: 0,
            root_total_nodes: 0,
        };
        s
    }

    /// Milliseconds since the search started.
    pub fn elapsed_ms(&self, params: &SearchParams) -> u64 {
        elapsed_since(&params.start)
    }

    /// Every 4096 nodes: stop once the hard time limit or the node limit is reached.
    fn check_time(&mut self, params: &SearchParams)
        requires
            old(self).wf(),
        ensures
            final(self).wf(),
            final(self).nodes == old(self).nodes,
            old(self).stopped ==> final(self).stopped,
            old(self).nodes & 4095 != 0 ==> final(self).stopped == old(self).stopped,
            (old(self).nodes & 4095 == 0 && params.node_limit is Some && old(self).nodes >= params.node_limit->0) ==> final(self).stopped,
            unlimited(params) ==> final(self).stopped == old(self).stopped,
            final(self).pv_first() == old(self).pv_first(),
    {
        proof {
            reveal(Search::wf);
        }
        if self.nodes & 4095 != 0 {
            return;
        }
        if let Some(lim) = params.hard_limit {
            if self.elapsed_ms(params) >= lim {
                self.stopped = true;
            }
        }
        if let Some(lim) = params.node_limit {
            if self.nodes >= lim {
                self.stopped = true;
            }
        }
    }

    /// History score of a quiet move: from-to history plus the two
    /// continuation histories (sums wrap as in an optimized build).
    fn hist_score(&self, mv: Move, ply: usize) -> (r: i32)
        requires
            self.wf(),
            ply < MAX_PLY,
    {
        proof {
            reveal(Search::wf);
        }
        let h = self.history[mv.from() as usize * 64 + mv.to() as usize];
        let pm = self.prev_move[if ply > 0 { ply - 1 } else { 0 }];
        let ch = if !pm.is_null() { self.cont_hist[pm.to() as usize * 64 + mv.to() as usize] } else { 0 };
        let pm2 = if ply >= 2 { self.prev_move[ply - 2] } else { Move(0) };
        let ch2 = if !pm2.is_null() { self.cont_hist2[pm2.to() as usize * 64 + mv.to() as usize] } else { 0 };
        h.wrapping_add(ch).wrapping_add(ch2)
    }

    /// Move-ordering score: table move first, then captures by SEE sign and
    /// MVV-LVA, promotions, killers, countermove, then history.
    fn score_move(&self, pos: &Position, mv: Move, tt_move: Move, ply: usize) -> (r: i32)
        requires
            self.wf(),
            ply < MAX_PLY,
        ensures
            mv == tt_move ==> r == 10_000_000,
    {
        proof {
            reveal(Search::wf);
        }
        if mv == tt_move {
            return 10_000_000;
        }
        if mv.is_capture() || mv.is_ep() {
            let see_score = see(pos, mv);
            let victim = if mv.is_ep() {
                0
            } else {
                match pos.piece_at(mv.to()) {
                    Some((_, p)) => p.index(),
                    None => 0,
                }
            };
            let attacker = match pos.piece_at(mv.from()) {
                Some((_, p)) => p.index(),
                None => 0,
            };
            let mvvlva = MVV[victim] - LVA[attacker];
            let ch = self.cap_hist[mv.from() as usize * 64 + mv.to() as usize];
            return if see_score >= 0 { 2_000_000 + mvvlva + ch / 32 } else { -2_000_000 + mvvlva + ch / 32 };
        }
        if mv.is_promotion() {
            return 1_900_000;
        }
        if mv == self.killers[ply * 2] {
            return 800_000;
        }
        if mv == self.killers[ply * 2 + 1] {
            return 700_000;
        }
        // Countermove heuristic
        let pm = self.prev_move[if ply > 0 { ply - 1 } else { 0 }];
        if !pm.is_null() && mv == self.countermoves[pm.from() as usize * 64 + pm.to() as usize] {
            return 600_000;
        }
        self.hist_score(mv, ply)
    }

    /// The moves of `moves`, best ordering score first.
    fn order_moves(&self, pos: &Position, moves: &MoveList, tt_move: Move, ply: usize) -> (r: Vec<Move>)
        requires
            self.wf(),
            moves.wf(),
            ply < MAX_PLY,
        ensures
            r@.len() == moves.view().len(),
            forall|i: int| 0 <= i < r@.len() ==> moves.view().contains(#[trigger] r@[i]),
    {
        let ms = moves.iter();
        let mut scored: Vec<(i32, Move)> = Vec::new();
        let mut i: usize = 0;
        while i < ms.len()
            invariant
                self.wf(),
                ply < MAX_PLY,
                i <= ms@.len(),
                scored@.len() == i,
                forall|j: int| 0 <= j < i ==> #[trigger] scored@[j].1 == ms@[j],
            decreases ms@.len() - i,
        {
            let mv = ms[i];
            scored.push((self.score_move(pos, mv, tt_move, ply), mv));
            i += 1;
        }
        let ghost before = scored@;
        sort_by_score_desc(&mut scored);
        let mut r: Vec<Move> = Vec::new();
        let mut k: usize = 0;
        while k < scored.len()
            invariant
                k <= scored@.len(),
                r@.len() == k,
                scored@.len() == ms@.len(),
                forall|j: int| 0 <= j < k ==> #[trigger] r@[j] == scored@[j].1,
                forall|j: int| 0 <= j < scored@.len() ==> before.contains(#[trigger] scored@[j]),
                forall|j: int| 0 <= j < before.len() ==> #[trigger] before[j].1 == ms@[j],
                before.len() == ms@.len(),
            decreases scored@.len() - k,
        {
            r.push(scored[k].1);
            k += 1;
        }
        proof {
            assert forall|j: int| 0 <= j < r@.len() implies moves.view().contains(#[trigger] r@[j]) by {
                assert(before.contains(scored@[j]));
                let m = choose|m: int| 0 <= m < before.len() && before[m] == scored@[j];
                assert(r@[j] == ms@[m]);
            }
        }
        r
    }

    /// History update with a bonus or malus of `depth` squared (gravity
    /// toward zero; arithmetic wraps as in an optimized build): the
    /// from-to entry of `mv`, and the continuation entries after the moves
    /// one and two plies back where there are such moves.
    fn update_history(&mut self, mv: Move, depth: i32, ply: usize, bonus: bool)
        requires
            old(self).wf(),
            ply < MAX_PLY,
        ensures
            final(self).wf(),
            final(self).nodes == old(self).nodes,
            final(self).stopped == old(self).stopped,
            final(self).pv_first() == old(self).pv_first(),
            final(self).cap_hist == old(self).cap_hist,
            0 <= depth <= 100 ==> ({
                let delta: int = if bonus { depth * depth } else { -(depth * depth) };
                let to = mv.to_spec();
                let pm = old(self).prev_move@[if ply > 0 { ply - 1 } else { 0 }];
                let pm2 = old(self).prev_move@[ply - 2];
                &&& table_step(old(self).history@, final(self).history@, mv.from_spec() * 64 + to, true, delta)
                &&& table_step(old(self).cont_hist@, final(self).cont_hist@, pm.to_spec() * 64 + to, pm != Move(0), delta)
                &&& table_step(old(self).cont_hist2@, final(self).cont_hist2@, pm2.to_spec() * 64 + to, ply >= 2 && pm2 != Move(0), delta)
            }),
    {
        proof {
            reveal(Search::wf);
        }
        let d2 = depth.wrapping_mul(depth);
        let delta = if bonus { d2 } else { 0i32.wrapping_sub(d2) };
        proof {
            if 0 <= depth <= 100 {
                assert(0 <= depth * depth <= 10_000) by (nonlinear_arith)
                    requires 0 <= depth <= 100;
                assert(d2 == depth * depth);
            }
        }
        let i = mv.from() as usize * 64 + mv.to() as usize;
        let h = self.history[i];
        self.history.set(i, gravity(h, delta));
        let pm = self.prev_move[if ply > 0 { ply - 1 } else { 0 }];
        if !pm.is_null() {
            let j = pm.to() as usize * 64 + mv.to() as usize;
            let c = self.cont_hist[j];
            self.cont_hist.set(j, gravity(c, delta));
        }
        let pm2 = if ply >= 2 { self.prev_move[ply - 2] } else { Move(0) };
        if !pm2.is_null() {
            let j = pm2.to() as usize * 64 + mv.to() as usize;
            let c = self.cont_hist2[j];
            self.cont_hist2.set(j, gravity(c, delta));
        }
    }

    /// Capture history update (same rule as `update_history`).
    fn update_cap_hist(&mut self, mv: Move, depth: i32, bonus: bool)
        requires
            old(self).wf(),
        ensures
            final(self).wf(),
            final(self).nodes == old(self).nodes,
            final(self).stopped == old(self).stopped,
            final(self).pv_first() == old(self).pv_first(),
            0 <= depth <= 100 ==> table_step(old(self).cap_hist@, final(self).cap_hist@, mv.from_spec() * 64 + mv.to_spec(), true,
                if bonus { depth * depth } else { -(depth * depth) }),
    {
        proof {
            reveal(Search::wf);
        }
        let d2 = depth.wrapping_mul(depth);
        let delta = if bonus { d2 } else { 0i32.wrapping_sub(d2) };
        proof {
            if 0 <= depth <= 100 {
                assert(0 <= depth * depth <= 10_000) by (nonlinear_arith)
                    requires 0 <= depth <= 100;
                assert(d2 == depth * depth);
            }
        }
        let i = mv.from() as usize * 64 + mv.to() as usize;
        let h = self.cap_hist[i];
        self.cap_hist.set(i, gravity(h, delta));
    }

    /// The slot of the correction history of a position.
    fn corr_index(pos: &Position) -> (r: usize)
        ensures
            r < 2 * CORRHIST_SIZE,
    {
        pos.side.index() * CORRHIST_SIZE + (pos.pawn_zobrist % (CORRHIST_SIZE as u64)) as usize
    }

    /// Static evaluation corrected by the pawn-structure correction history,
    /// kept off the mate range.
    fn corrected_static_eval(&self, raw: i32, pos: &Position) -> (r: i32)
        requires
            self.wf(),
            -10_000_000 <= raw <= 10_000_000,
        ensures
            -MATE_THRESHOLD + 1 <= r <= MATE_THRESHOLD - 1,
            r <= raw + 1024 || r == -MATE_THRESHOLD + 1,
    {
        proof {
            reveal(Search::wf);
        }
        let ci = Self::corr_index(pos);
        let h = self.corrhist[ci];
        proof {
            assert(h / 256 <= 1024) by (nonlinear_arith)
                requires h <= 262144;
        }
        let corr = h / CORRHIST_GRAIN;
        let v = raw + corr;
        if v < -MATE_THRESHOLD + 1 { -MATE_THRESHOLD + 1 } else if v > MATE_THRESHOLD - 1 { MATE_THRESHOLD - 1 } else { v }
    }

    /// Moves the correction history of the position toward the difference
    /// between the search score and the raw evaluation.
    fn update_corrhist(&mut self, pos: &Position, depth: i32, best_score: i32, raw_eval: i32)
        requires
            old(self).wf(),
            1 <= depth,
            -100_000_000 <= best_score <= 100_000_000,
            -100_000_000 <= raw_eval <= 100_000_000,
        ensures
            final(self).wf(),
            final(self).nodes == old(self).nodes,
            final(self).stopped == old(self).stopped,
            final(self).pv_first() == old(self).pv_first(),
    {
        proof {
            reveal(Search::wf);
        }
        let bs = if best_score < 0 { -best_score } else { best_score };
        let re = if raw_eval < 0 { -raw_eval } else { raw_eval };
        if bs >= MATE_THRESHOLD || re >= MATE_THRESHOLD {
            return;
        }
        let delta = best_score - raw_eval;
        let weight = if depth < 7 { depth + 1 } else { 8 };
        let i = Self::corr_index(pos);
        let h = self.corrhist[i];
        proof {
            assert(-118_784_000 <= delta * 256 * weight <= 118_784_000) by (nonlinear_arith)
                requires -58000 <= delta <= 58000, 2 <= weight <= 8;
        }
        let update = delta * CORRHIST_GRAIN * weight;
        let au = if update < 0 { -update } else { update };
        let nh = h.wrapping_add(update.wrapping_sub(h.wrapping_mul(au) / CORRHIST_MAX) / 8);
        let ch = if nh < -CORRHIST_MAX { -CORRHIST_MAX } else if nh > CORRHIST_MAX { CORRHIST_MAX } else { nh };
        self.corrhist.set(i, ch);
    }

    /// Halves every history entry.
    fn age_history(&mut self)
        requires
            old(self).wf(),
        ensures
            final(self).wf(),
            final(self).nodes == old(self).nodes,
            final(self).stopped == old(self).stopped,
            final(self).pv_first() == old(self).pv_first(),
    {
        proof {
            reveal(Search::wf);
        }
        halve_all(&mut self.history);
        halve_all(&mut self.cont_hist);
        halve_all(&mut self.cont_hist2);
        halve_all(&mut self.cap_hist);
    }
}

/// An entry `h` within ±10000 after a step of `delta` within ±10000: the
/// new value is `h + delta - h * |delta| / 10000` (the division truncating
/// toward zero), still within ±10000, and not moved against the sign of
/// `delta`.
pub open spec fn gravity_ok(h: int, delta: int, r: int) -> bool {
    -10_000 <= h <= 10_000 && -10_000 <= delta <= 10_000 ==> {
        &&& r == h + delta - trunc_div(h * (if delta < 0 { -delta } else { delta }), 10_000)
        &&& -10_000 <= r <= 10_000
        &&& delta >= 0 ==> r >= h
        &&& delta <= 0 ==> r <= h
    }
}

/// The quotient of the gravity step lies between these bounds.
proof fn lemma_gravity_bounds(h: int, ad: int, q: int)
    requires
        -10_000 <= h <= 10_000,
        0 <= ad <= 10_000,
        h * ad >= 0 ==> q == (h * ad) / 10_000,
        h * ad < 0 ==> q == -((-(h * ad)) / 10_000),
    ensures
        -ad <= q <= ad,
        q >= h + ad - 10_000,
        q <= h - ad + 10_000,
{
    let p = h * ad;
    assert(-100_000_000 <= p <= 100_000_000) by (nonlinear_arith)
        requires -10_000 <= h <= 10_000, 0 <= ad <= 10_000, p == h * ad;
    assert(p >= 10_000 * (h + ad) - 100_000_000 && p <= 10_000 * (h - ad) + 100_000_000) by (nonlinear_arith)
        requires -10_000 <= h <= 10_000, 0 <= ad <= 10_000, p == h * ad;
    assert(-10_000 * ad <= p <= 10_000 * ad) by (nonlinear_arith)
        requires -10_000 <= h <= 10_000, 0 <= ad <= 10_000, p == h * ad;
    if p >= 0 {
        assert(q * 10_000 <= p < q * 10_000 + 10_000);
    } else {
        assert(-q * 10_000 <= -p < -q * 10_000 + 10_000);
    }
}
/// One gravity step of a history entry, `h + delta - h * |delta| / 10000`
/// (arithmetic wraps as in an optimized build).
fn gravity(h: i32, delta: i32) -> (r: i32)
    ensures
        gravity_ok(h as int, delta as int, r as int),
{
    let ad = if delta < 0 { 0i32.wrapping_sub(delta) } else { delta };
    let prod = h.wrapping_mul(ad);
    let q = prod / 10_000;
    let step = delta.wrapping_sub(q);
    let r = h.wrapping_add(step);
    proof {
        if -10_000 <= h <= 10_000 && -10_000 <= delta <= 10_000 {
            assert(0 <= ad <= 10_000);
            assert(-100_000_000 <= h * ad <= 100_000_000) by (nonlinear_arith)
                requires -10_000 <= h <= 10_000, 0 <= ad <= 10_000;
            assert(prod == h * ad);
            lemma_gravity_bounds(h as int, ad as int, q as int);
            assert(step == delta - q);
            assert(r == h + delta - q);
        }
    }
    r
}

/// `b` is `a` with at most entry `i` changed (none unless `touched`), and
/// that entry moved by a gravity step of `delta`.
pub open spec fn table_step(a: Seq<i32>, b: Seq<i32>, i: int, touched: bool, delta: int) -> bool {
    &&& b.len() == a.len()
    &&& forall|j: int| 0 <= j < a.len() && (j != i || !touched) ==> #[trigger] b[j] == a[j]
    &&& touched ==> gravity_ok(a[i] as int, delta, b[i] as int)
}

/// Halves every entry (rounding toward zero).
fn halve_all(v: &mut Vec<i32>)
    ensures
        final(v)@.len() == old(v)@.len(),
        forall|i: int| 0 <= i < final(v)@.len() ==> #[trigger] final(v)@[i] == old(v)@[i] / 2 || (old(v)@[i] < 0 && final(v)@[i] == -((-old(v)@[i]) / 2)),
{
    let mut i: usize = 0;
    while i < v.len()
        invariant
            i <= v@.len(),
            v@.len() == old(v)@.len(),
            forall|j: int| 0 <= j < i ==> #[trigger] v@[j] == old(v)@[j] / 2 || (old(v)@[j] < 0 && v@[j] == -((-old(v)@[j]) / 2)),
            forall|j: int| i <= j < v@.len() ==> #[trigger] v@[j] == old(v)@[j],
        decreases v@.len() - i,
    {
        let x = v[i];
        v.set(i, x / 2);
        i += 1;
    }
}

} // verus!

verus! {

/// Bound of the scores the search returns.
pub open spec fn score_ok(x: int) -> bool {
    -20_000_128 <= x <= 20_000_128
}

/// Bound of a search window at distance `ply` from the root (a null
/// window reaches one step further out with each ply).
pub open spec fn win_ok(x: int, ply: int) -> bool {
    -20_000_000 - ply <= x <= 20_000_000 + ply
}

/// Neither a time limit nor a node limit can stop the search.
pub open spec fn unlimited(params: &SearchParams) -> bool {
    params.hard_limit is None && params.node_limit is None
}

/// A node that the fifty-move rule or a repetition makes a draw (tested
/// below the root).
pub open spec fn drawn(v: PosView) -> bool {
    v.halfmove_clock >= 100 || v.repetition_spec()
}

/// The score of a position without moves at distance `ply` from the root:
/// mated (the sooner, the lower) or stalemate.
pub open spec fn no_move_score(v: PosView, ply: int) -> int {
    if side_in_check(v) { -(MATE_SCORE - ply) } else { 0 }
}

/// A generated move of an expandable position can be made, and the
/// position after it has search reach one ply less deep.
proof fn lemma_child(v: PosView, n: nat, m: Move)
    requires
        root_ok(v, n),
        n >= 1,
        v.gen_moves().contains(m),
    ensures
        move_sound(v, m),
        search_ok(v.make_view(m), (n - 1) as nat),
{
    reveal(root_ok);
    let i = choose|i: int| 0 <= i < v.gen_moves().len() && v.gen_moves()[i] == m;
    assert(move_sound(v, v.gen_moves()[i]));
}

/// A generated move of a position with quiescence reach can be made, and
/// the position after it has quiescence reach one ply less deep.
proof fn lemma_qs_child(v: PosView, n: nat, m: Move)
    requires
        qs_ok(v, n),
        n >= 1,
        v.gen_moves().contains(m),
    ensures
        move_sound(v, m),
        qs_ok(v.make_view(m), (n - 1) as nat),
{
    reveal(qs_ok);
    let i = choose|i: int| 0 <= i < v.gen_moves().len() && v.gen_moves()[i] == m;
    assert(move_sound(v, v.gen_moves()[i]));
}

/// The king of the side to move is on the board.
proof fn lemma_king_present(pos: &Position)
    requires
        pos.wf_board(),
        pos@.king_of(pos@.us()) < 64,
    ensures
        exists|s: int| 0 <= s < 64 && pos.at(s) == Some((pos.side, Piece::King)),
{
    let bb = pos@.piece_bb(pos.side, Piece::King);
    let t = crate::board::bitboard::lsb_spec(bb) as int;
    crate::board::bitboard::lemma_lsb(bb);
    crate::board::position::lemma_mb_bb(pos@.mailbox, crate::board::position::keep_piece(pos.side, Piece::King), 64);
    assert(pos.at(t) == Some((pos.side, Piece::King)));
}

/// A position with search reach that is not drawn is expandable and has
/// quiescence reach.
proof fn lemma_search_node(v: PosView, n: nat)
    requires
        search_ok(v, n),
    ensures
        node_ok(v),
        !drawn(v) ==> root_ok(v, n) && qs_ok(v, n),
{
    reveal(search_ok);
    reveal(root_ok);
}

/// An expandable position can be visited, and so can the position after a
/// null move when the side to move is not in check, one ply less deep.
proof fn lemma_node(v: PosView, n: nat)
    requires
        root_ok(v, n),
    ensures
        node_ok(v),
        n >= 1 && !side_in_check(v) ==> null_fits(v) && search_ok(v.null_view(), (n - 1) as nat),
{
    reveal(root_ok);
}

proof fn lemma_qs_node(v: PosView, n: nat)
    requires
        qs_ok(v, n),
    ensures
        node_ok(v),
{
    reveal(qs_ok);
}

/// A consistent position that the search may expand, going `n` plies
/// deeper.
#[verifier::opaque]
pub open spec fn ready(p: Position, n: nat) -> bool {
    p.wf() && root_ok(p@, n)
}

/// A consistent position from which quiescence may go `n` plies deeper.
#[verifier::opaque]
pub open spec fn qs_ready(p: Position, n: nat) -> bool {
    p.wf() && qs_ok(p@, n)
}

/// A consistent position below the root with search reach `n`.
#[verifier::opaque]
pub open spec fn reach(p: Position, n: nat) -> bool {
    p.wf() && search_ok(p@, n)
}

proof fn lemma_ready(p: Position, n: nat)
    requires
        ready(p, n),
    ensures
        p.wf(),
        root_ok(p@, n),
        node_ok(p@),
        n >= 1 && !side_in_check(p@) ==> null_fits(p@) && search_ok(p@.null_view(), (n - 1) as nat),
{
    reveal(ready);
    lemma_node(p@, n);
}

proof fn lemma_qs_ready(p: Position, n: nat)
    requires
        qs_ready(p, n),
    ensures
        p.wf(),
        qs_ok(p@, n),
        node_ok(p@),
{
    reveal(qs_ready);
    lemma_qs_node(p@, n);
}

/// Makes a generated move.
fn make_child(pos: &mut Position, m: Move, Ghost(n): Ghost<nat>)
    requires
        ready(*old(pos), n),
        n >= 1,
        old(pos)@.gen_moves().contains(m),
    ensures
        reach(*final(pos), (n - 1) as nat),
        undoes(final(pos)@, m, old(pos)@),
        root_ok(old(pos)@, n),
        final(pos)@ == old(pos)@.make_view(m),
{
    proof {
        lemma_ready(*pos, n);
        lemma_child(pos@, n, m);
        crate::board::position::lemma_make_unmake(pos@, m);
    }
    pos.make_move(m);
    proof {
        reveal(undoes);
        reveal(reach);
    }
}

/// Makes a generated move in quiescence.
fn qs_make_child(pos: &mut Position, m: Move, Ghost(n): Ghost<nat>)
    requires
        qs_ready(*old(pos), n),
        n >= 1,
        old(pos)@.gen_moves().contains(m),
    ensures
        qs_ready(*final(pos), (n - 1) as nat),
        undoes(final(pos)@, m, old(pos)@),
        qs_ok(old(pos)@, n),
{
    proof {
        lemma_qs_ready(*pos, n);
        lemma_qs_child(pos@, n, m);
        crate::board::position::lemma_make_unmake(pos@, m);
    }
    pos.make_move(m);
    proof {
        reveal(undoes);
        reveal(qs_ready);
    }
}

/// Taking back `m` from `after` gives `before`.
#[verifier::opaque]
pub open spec fn undoes(after: PosView, m: Move, before: PosView) -> bool {
    &&& after.unmake_ok(m)
    &&& after.unmake_view(m) == before
    &&& before.wf()
}

/// Takes back a move made by `make_child`.
fn unmake_child(pos: &mut Position, m: Move, Ghost(v): Ghost<PosView>, Ghost(k): Ghost<nat>, Ghost(n): Ghost<nat>)
    requires
        reach(*old(pos), k),
        undoes(old(pos)@, m, v),
        root_ok(v, n),
    ensures
        ready(*final(pos), n),
        final(pos)@ == v,
{
    proof {
        reveal(undoes);
        reveal(reach);
    }
    pos.unmake_move(m);
    proof {
        reveal(ready);
    }
}

/// Takes back a move made by `qs_make_child`.
fn qs_unmake_child(pos: &mut Position, m: Move, Ghost(v): Ghost<PosView>, Ghost(k): Ghost<nat>, Ghost(n): Ghost<nat>)
    requires
        qs_ready(*old(pos), k),
        undoes(old(pos)@, m, v),
        qs_ok(v, n),
    ensures
        qs_ready(*final(pos), n),
        final(pos)@ == v,
{
    proof {
        reveal(undoes);
        reveal(qs_ready);
    }
    pos.unmake_move(m);
}

/// `after` is `before` with the side to move passing.
#[verifier::opaque]
pub open spec fn passes(after: PosView, before: PosView) -> bool {
    &&& after.history.len() > 0
    &&& after.side == Color::White ==> after.fullmove >= 1
    &&& after.unnull_view() == before
    &&& before.wf()
}

/// Makes a null move.
fn null_child(pos: &mut Position, Ghost(n): Ghost<nat>)
    requires
        ready(*old(pos), n),
        n >= 1,
        !side_in_check(old(pos)@),
    ensures
        reach(*final(pos), (n - 1) as nat),
        passes(final(pos)@, old(pos)@),
        root_ok(old(pos)@, n),
{
    proof {
        lemma_ready(*pos, n);
        crate::board::position::lemma_null_unnull(pos@);
    }
    pos.make_null_move();
    proof {
        reveal(passes);
        reveal(reach);
    }
}

/// Takes back a null move made by `null_child`.
fn unnull_child(pos: &mut Position, Ghost(v): Ghost<PosView>, Ghost(k): Ghost<nat>, Ghost(n): Ghost<nat>)
    requires
        reach(*old(pos), k),
        passes(old(pos)@, v),
        root_ok(v, n),
    ensures
        ready(*final(pos), n),
        final(pos)@ == v,
{
    proof {
        reveal(passes);
        reveal(reach);
    }
    pos.unmake_null_move();
    proof {
        reveal(ready);
    }
}

/// After a capture, en passant or promotion the clock is reset, so the
/// position is not drawn, and with search reach it has quiescence reach.
proof fn lemma_capture_child(v: PosView, m: Move, n: nat)
    requires
        move_sound(v, m),
        m.flags_spec() >= 4,
        search_ok(v.make_view(m), n),
    ensures
        !drawn(v.make_view(m)),
        qs_ok(v.make_view(m), n),
{
    lemma_search_node(v.make_view(m), n);
}

/// The static evaluation kept off the mate range (at the ply limit).
fn bounded_eval(pos: &Position) -> (r: i32)
    requires
        pos.wf_board(),
        node_ok(pos@),
    ensures
        -MATE_THRESHOLD + 1 <= r <= MATE_THRESHOLD - 1,
{
    let e = eval_node(pos);
    if e < -MATE_THRESHOLD + 1 { -MATE_THRESHOLD + 1 } else if e > MATE_THRESHOLD - 1 { MATE_THRESHOLD - 1 } else { e }
}


impl Search {
    /// Clears the principal variation at `ply`.
    fn enter_node(&mut self, ply: usize)
        requires
            old(self).wf(),
            ply < PV_W,
        ensures
            final(self).wf(),
            final(self).nodes == old(self).nodes,
            final(self).stopped == old(self).stopped,
            ply >= 1 ==> final(self).pv_first() == old(self).pv_first(),
            ply == 0 ==> final(self).pv_first() == Move(0),
    {
        proof {
            reveal(Search::wf);
        }
        self.pv_len.set(ply, 0);
    }

    /// Counts a node (the counter wraps as in an optimized build).
    fn count_node(&mut self)
        requires
            old(self).wf(),
        ensures
            final(self).wf(),
            final(self).stopped == old(self).stopped,
            final(self).pv_first() == old(self).pv_first(),
    {
        proof {
            reveal(Search::wf);
        }
        self.nodes = self.nodes.wrapping_add(1);
    }

    fn set_eval(&mut self, ply: usize, e: i32)
        requires
            old(self).wf(),
            ply < MAX_PLY,
        ensures
            final(self).wf(),
            final(self).nodes == old(self).nodes,
            final(self).stopped == old(self).stopped,
            final(self).pv_first() == old(self).pv_first(),
    {
        proof {
            reveal(Search::wf);
        }
        self.eval_stack.set(ply, e);
    }

    fn eval_at(&self, ply: usize) -> i32
        requires
            self.wf(),
            ply < MAX_PLY,
    {
        proof {
            reveal(Search::wf);
        }
        self.eval_stack[ply]
    }

    fn set_prev(&mut self, ply: usize, mv: Move)
        requires
            old(self).wf(),
            ply < MAX_PLY,
        ensures
            final(self).wf(),
            final(self).nodes == old(self).nodes,
            final(self).stopped == old(self).stopped,
            final(self).pv_first() == old(self).pv_first(),
    {
        proof {
            reveal(Search::wf);
        }
        self.prev_move.set(ply, mv);
    }

    fn prev_at(&self, ply: usize) -> Move
        requires
            self.wf(),
            ply < MAX_PLY,
    {
        proof {
            reveal(Search::wf);
        }
        self.prev_move[ply]
    }

    /// Root bookkeeping: nodes spent on a move, and on the best one.
    fn root_account(&mut self, nodes_before: u64, better: bool)
        requires
            old(self).wf(),
        ensures
            final(self).wf(),
            final(self).nodes == old(self).nodes,
            final(self).stopped == old(self).stopped,
            final(self).pv_first() == old(self).pv_first(),
    {
        proof {
            reveal(Search::wf);
        }
        let mv_nodes = self.nodes.wrapping_sub(nodes_before);
        self.root_total_nodes = self.root_total_nodes.wrapping_add(mv_nodes);
        if better {
            self.root_best_nodes = mv_nodes;
        }
    }
}

impl Search {
    /// Writes the principal variation at `ply`: `mv` followed by the line
    /// found at `ply + 1`.
    fn pv_update(&mut self, ply: usize, mv: Move)
        requires
            old(self).wf(),
            ply + 1 < PV_W,
        ensures
            final(self).wf(),
            final(self).nodes == old(self).nodes,
            final(self).stopped == old(self).stopped,
            ply == 0 ==> final(self).pv_first() == mv,
            ply >= 1 ==> final(self).pv_first() == old(self).pv_first(),
    {
        proof {
            reveal(Search::wf);
        }
        let child_len = self.pv_len[ply + 1];
        proof {
            assert(ply * PV_W < PV_W * PV_W) by (nonlinear_arith)
                requires ply + 1 < PV_W, PV_W == 129;
        }
        self.pv.set(ply * PV_W, mv);
        let mut j: usize = 0;
        while j < child_len
            invariant
                self.wf(),
                ply + 1 < PV_W,
                child_len == self.pv_len@[ply + 1],
                child_len + ply + 1 <= PV_W,
                j <= child_len,
                ply == 0 ==> self.pv@[0] == mv,
                ply >= 1 ==> self.pv@[0] == old(self).pv@[0],
                self.pv_len@[0] == old(self).pv_len@[0],
                self.nodes == old(self).nodes,
                self.stopped == old(self).stopped,
            decreases child_len - j,
        {
            proof {
                reveal(Search::wf);
                assert((ply + 1) * PV_W + j < PV_W * PV_W && ply * PV_W + 1 + j < PV_W * PV_W) by (nonlinear_arith)
                    requires ply + 1 < PV_W, j + ply + 1 < PV_W, PV_W == 129;
            }
            let x = self.pv[(ply + 1) * PV_W + j];
            self.pv.set(ply * PV_W + 1 + j, x);
            j += 1;
        }
        proof {
            reveal(Search::wf);
        }
        self.pv_len.set(ply, 1 + child_len);
    }

    /// Alpha-beta search of `pos` to `depth` at distance `ply` from the
    /// root, within the window (`alpha`, `beta`); `skip_move` is left out
    /// (singular extension test). The position is restored on return.
    /// A search already stopped scores 0, and without a time or node limit
    /// none is stopped; below the root a draw by the fifty-move rule or by
    /// repetition scores 0; at a node searched with a window wider than a
    /// null window and no move, the side to move is mated (scored by the
    /// distance from the root) or stalemated (0). At the root the first
    /// move of the principal variation is a generated move or none.
    pub fn negamax(
        &mut self,
        tt: &mut TT,
        params: &SearchParams,
        pos: &mut Position,
        alpha: i32,
        beta: i32,
        depth: i32,
        ply: usize,
        skip_null: bool,
        skip_move: Option<Move>,
    ) -> (r: i32)
        requires
            old(self).wf(),
            old(tt).wf(),
            ply < MAX_PLY,
            ply >= 1 ==> reach(*old(pos), (MAX_PLY - 1 - ply) as nat),
            ply == 0 ==> ready(*old(pos), (MAX_PLY - 1 - ply) as nat),
            ply == 0 && (depth <= 0 || (depth <= 2 && beta <= alpha + 1)) ==> qs_ready(*old(pos), (MAX_PLY - 1 - ply) as nat),
            win_ok(alpha as int, ply as int),
            win_ok(beta as int, ply as int),
            alpha < beta,
            -100 <= depth <= 1000 + 2 * ply,
        ensures
            final(self).wf(),
            final(tt).wf(),
            ply >= 1 ==> reach(*final(pos), (MAX_PLY - 1 - ply) as nat),
            ply == 0 ==> ready(*final(pos), (MAX_PLY - 1 - ply) as nat),
            final(pos)@ == old(pos)@,
            score_ok(r as int),
            old(self).is_stopped() ==> r == 0 && final(self).is_stopped(),
            unlimited(params) && !old(self).is_stopped() ==> !final(self).is_stopped(),
            ply >= 1 ==> final(self).pv_first() == old(self).pv_first(),
            ply == 0 ==> final(self).pv_first() == Move(0) || old(pos)@.gen_moves().contains(final(self).pv_first()),
            unlimited(params) && !old(self).is_stopped() && 1 <= ply < MAX_PLY - 1 && drawn(old(pos)@) ==> r == 0,
            unlimited(params) && !old(self).is_stopped() && ply < MAX_PLY - 1 && depth >= 1 && beta > alpha + 1
                && (ply == 0 || !drawn(old(pos)@)) && old(pos)@.gen_moves().len() == 0
                ==> r == no_move_score(old(pos)@, ply as int),
            unlimited(params) && !old(self).is_stopped() && ply < MAX_PLY - 1 && depth >= 1
                && (ply == 0 || !drawn(old(pos)@)) && old(pos)@.gen_moves().len() == 0
                && (beta > alpha + 1 || ply == 0 || skip_move is Some || !old(tt).holds(old(pos).zobrist))
                && (beta > alpha + 1 || side_in_check(old(pos)@)
                    || (static_eval(&*old(pos)) + 1024 < beta && -MATE_THRESHOLD + 1 < beta))
                ==> r == no_move_score(old(pos)@, ply as int),
            ply == 0 && depth >= 1 && beta > alpha + 1 && !final(self).is_stopped() && r > alpha && r > -INF && old(pos)@.gen_moves().len() > 0
                ==> old(pos)@.gen_moves().contains(final(self).pv_first()),
        decreases MAX_PLY - ply, depth + 1000, 2int,
    {
        let ghost n: nat = (MAX_PLY - 1 - ply) as nat;
        proof {
            reveal(reach);
            reveal(ready);
            if ply >= 1 {
                lemma_search_node(pos@, n);
            } else {
                lemma_node(pos@, n);
            }
        }
        self.enter_node(ply);
        self.check_time(params);
        if self.stopped {
            return 0;
        }
        if ply >= MAX_PLY - 1 {
            return bounded_eval(pos);
        }
        let is_root = ply == 0;
        let is_pv = beta > alpha + 1;

        // Draw detection
        if !is_root {
            if pos.halfmove_clock >= 100 {
                return 0;
            }
            if pos.is_repetition() {
                return 0;
            }
        }

        proof {
            if ply >= 1 {
                assert(!drawn(pos@));
                lemma_search_node(pos@, n);
            }
            reveal(qs_ready);
        }
        let (cut, tt_move) = probe_node(tt, pos, alpha, beta, depth, ply, !is_root && skip_move.is_none() && !is_pv);
        match cut {
            Some(s) => {
                return s;
            },
            None => {},
        }
        if depth <= 0 {
            let q = self.quiesce(tt, params, pos, alpha, beta, ply);
            proof {
                reveal(qs_ready);
            }
            return q;
        }
        self.inner_node(tt, params, pos, alpha, beta, depth, ply, skip_null, skip_move, tt_move, Ghost(depth as int))
    }

    /// `negamax` past the table probe at a node with `depth` >= 1: pruning,
    /// move generation, extensions, the move loop and the table store.
    #[verifier::rlimit(60)]
    fn inner_node(
        &mut self,
        tt: &mut TT,
        params: &SearchParams,
        pos: &mut Position,
        alpha: i32,
        beta: i32,
        depth: i32,
        ply: usize,
        skip_null: bool,
        skip_move: Option<Move>,
        tt_move: Move,
        Ghost(d0): Ghost<int>,
    ) -> (r: i32)
        requires
            old(self).wf(),
            old(tt).wf(),
            ply < MAX_PLY - 1,
            ready(*old(pos), (MAX_PLY - 1 - ply) as nat),
            ply >= 1 ==> reach(*old(pos), (MAX_PLY - 1 - ply) as nat),
            depth <= 2 && beta <= alpha + 1 ==> qs_ready(*old(pos), (MAX_PLY - 1 - ply) as nat),
            win_ok(alpha as int, ply as int),
            win_ok(beta as int, ply as int),
            alpha < beta,
            1 <= depth <= 1000 + 2 * ply,
            depth == d0,
        ensures
            final(self).wf(),
            final(tt).wf(),
            ready(*final(pos), (MAX_PLY - 1 - ply) as nat),
            ply >= 1 ==> reach(*final(pos), (MAX_PLY - 1 - ply) as nat),
            final(pos)@ == old(pos)@,
            score_ok(r as int),
            unlimited(params) && !old(self).stopped ==> !final(self).stopped,
            ply >= 1 ==> final(self).pv_first() == old(self).pv_first(),
            ply == 0 ==> final(self).pv_first() == old(self).pv_first() || old(pos)@.gen_moves().contains(final(self).pv_first()),
            beta > alpha + 1 && old(pos)@.gen_moves().len() == 0 ==> r == no_move_score(old(pos)@, ply as int),
            old(pos)@.gen_moves().len() == 0 && (side_in_check(old(pos)@)
                || (static_eval(&*old(pos)) + 1024 < beta && -MATE_THRESHOLD + 1 < beta))
                ==> r == no_move_score(old(pos)@, ply as int),
            ply == 0 && beta > alpha + 1 && !final(self).stopped && r > alpha && r > -INF && old(pos)@.gen_moves().len() > 0
                ==> old(pos)@.gen_moves().contains(final(self).pv_first()),
        decreases MAX_PLY - ply, d0 + 1000, 1int,
    {
        proof {
            reveal(reach);
            reveal(ready);
            reveal(qs_ready);
        }
        proof {
            lemma_ready(*pos, (MAX_PLY - 1 - ply) as nat);
            lemma_king_present(pos);
        }
        let is_root = ply == 0;
        let is_pv = beta > alpha + 1;
        let in_check = pos.in_check();
        proof {
            lemma_in_check_view(pos);
        }
        let mut depth = depth;
        // Check extension
        if in_check {
            depth += 1;
        }
        // Internal iterative reduction: no TT move at high depths
        if depth >= 4 && tt_move.is_null() && !in_check {
            depth -= 1;
        }

        // Static evaluation and improving flag
        let raw_eval = if !in_check { eval_node(pos) } else { -INF };
        let static_eval = if !in_check { self.corrected_static_eval(raw_eval, pos) } else { -INF };
        self.set_eval(ply, static_eval);
        let improving = !in_check && ply >= 2 && static_eval > self.eval_at(ply - 2);

        // Reverse futility pruning
        if !is_pv && !in_check && depth <= 8 && skip_move.is_none() {
            let margin = RFP_MARGIN[depth as usize] - if improving { 40 } else { 0 };
            if static_eval - margin >= beta {
                return static_eval - margin;
            }
        }

        // Null move pruning
        if !is_pv && !in_check && !skip_null && depth >= 3 && static_eval >= beta && skip_move.is_none() {
            match self.null_move_search(tt, params, pos, beta, depth, ply, Ghost(d0)) {
                Some(s) => {
                    return s;
                },
                None => {},
            }
        }

        proof {
            lemma_ready(*pos, (MAX_PLY - 1 - ply) as nat);
            pos.lemma_bitboards();
        }
        let moves = generate_legal_moves(pos);
        if moves.len == 0 {
            return if in_check { -(MATE_SCORE - ply as i32) } else { 0 };
        }

        // Probcut: at non-PV nodes, try good captures at reduced depth
        if !is_pv && !in_check && depth >= 5 && skip_move.is_none() && -MATE_THRESHOLD < beta && beta < MATE_THRESHOLD {
            match self.probcut(tt, params, pos, &moves, beta + PROBCUT_MARGIN, static_eval, depth, ply, Ghost(d0)) {
                Some(s) => {
                    return s;
                },
                None => {},
            }
        }

        // Razoring: at low depths, if static eval is far below alpha, do qsearch
        if !is_pv && !in_check && depth <= 2 && skip_move.is_none() {
            if static_eval + 350 + 150 * depth < alpha {
                let qs = self.quiesce(tt, params, pos, alpha, beta, ply);
                if qs < alpha {
                    return qs;
                }
            }
        }

        // Singular extensions: if the TT move may be singular, verify
        let mut singular_ext = false;
        let mut double_ext = false;
        if !is_root && !in_check && skip_move.is_none() && depth >= 6 && !tt_move.is_null() {
            match self.singular_test(tt, params, pos, depth, ply, skip_null, tt_move, Ghost(d0)) {
                Some((single, double)) => {
                    if self.stopped {
                        return 0;
                    }
                    singular_ext = single;
                    double_ext = double;
                },
                None => {},
            }
        }

        let ordered = self.order_moves(pos, &moves, tt_move, ply);

        // Multi-cut: if several moves fail high at reduced depth, prune
        if !is_pv && !in_check && depth >= 7 && skip_move.is_none() && -MATE_THRESHOLD < beta && beta < MATE_THRESHOLD && static_eval >= beta {
            if self.multi_cut(tt, params, pos, &ordered, beta, depth, ply, Ghost(d0), Ghost(moves.view())) {
                return beta;
            }
            if self.stopped {
                return 0;
            }
        }

        let (best_score, best_move, stop) = self.search_moves(
            tt, params, pos, &ordered, alpha, beta, depth, ply, tt_move, skip_move, in_check, improving,
            static_eval, singular_ext, double_ext, Ghost(d0), Ghost(moves.view()),
        );
        if stop {
            return 0;
        }

        let flag = if best_score <= alpha { TT_UPPER } else if best_score >= beta { TT_LOWER } else { TT_EXACT };
        if skip_move.is_none() {
            tt.store(pos.zobrist, tt_score_to(best_score, ply) as i16, depth as i8, flag, best_move);
            if !in_check && !self.stopped {
                self.update_corrhist(pos, depth, best_score, raw_eval);
            }
        }
        best_score
    }

    /// Null-move pruning: the side to move passes and a reduced zero-window
    /// search still fails high (a mate score is cut to `beta`).
    fn null_move_search(
        &mut self,
        tt: &mut TT,
        params: &SearchParams,
        pos: &mut Position,
        beta: i32,
        depth: i32,
        ply: usize,
        Ghost(d0): Ghost<int>,
    ) -> (r: Option<i32>)
        requires
            old(self).wf(),
            old(tt).wf(),
            ply < MAX_PLY - 1,
            ready(*old(pos), (MAX_PLY - 1 - ply) as nat),
            !side_in_check(old(pos)@),
            win_ok(beta as int, ply as int),
            3 <= depth <= 1001 + 2 * ply,
        ensures
            final(self).wf(),
            final(tt).wf(),
            ready(*final(pos), (MAX_PLY - 1 - ply) as nat),
            final(pos)@ == old(pos)@,
            r matches Some(x) ==> score_ok(x as int),
            unlimited(params) && !old(self).stopped ==> !final(self).stopped,
            final(self).pv_first() == old(self).pv_first(),
        decreases MAX_PLY - ply, d0 + 1000, 0int,
    {
        let ghost n: nat = (MAX_PLY - 1 - ply) as nat;
        let ghost v = pos@;
        let si = pos.side.index();
        let has_non_pawns = pos.pieces[si][Piece::Knight.index()] | pos.pieces[si][Piece::Bishop.index()]
            | pos.pieces[si][Piece::Rook.index()] | pos.pieces[si][Piece::Queen.index()] != 0;
        if !has_non_pawns {
            return None;
        }
        let r = 3 + depth / 4;
        null_child(pos, Ghost(n));
        let null_score = -self.negamax(tt, params, pos, -beta, -beta + 1, depth - 1 - r, ply + 1, true, None);
        unnull_child(pos, Ghost(v), Ghost((n - 1) as nat), Ghost(n));
        if self.stopped {
            return Some(0);
        }
        if null_score >= beta {
            if null_score >= MATE_THRESHOLD {
                return Some(beta);
            }
            return Some(null_score);
        }
        None
    }

    /// Singular extension test, run when the table holds a deep enough
    /// lower or exact bound: every move but the table move fails low against
    /// a window below the table score (singular), and far below it (double
    /// extension).
    fn singular_test(
        &mut self,
        tt: &mut TT,
        params: &SearchParams,
        pos: &mut Position,
        depth: i32,
        ply: usize,
        skip_null: bool,
        tt_move: Move,
        Ghost(d0): Ghost<int>,
    ) -> (r: Option<(bool, bool)>)
        requires
            old(self).wf(),
            old(tt).wf(),
            1 <= ply < MAX_PLY - 1,
            ready(*old(pos), (MAX_PLY - 1 - ply) as nat),
            reach(*old(pos), (MAX_PLY - 1 - ply) as nat),
            6 <= depth <= d0 + 1,
            depth <= 1001 + 2 * ply,
        ensures
            final(self).wf(),
            final(tt).wf(),
            ready(*final(pos), (MAX_PLY - 1 - ply) as nat),
            final(pos)@ == old(pos)@,
            unlimited(params) && !old(self).stopped ==> !final(self).stopped,
            final(self).pv_first() == old(self).pv_first(),
        decreases MAX_PLY - ply, d0 + 1000, 0int,
    {
        proof {
            reveal(ready);
            reveal(reach);
        }
        let tt_ok = match tt.probe(pos.zobrist) {
            Some(e) => e.depth >= (depth - 3) as i8 && e.flag != TT_UPPER,
            None => false,
        };
        if !tt_ok {
            return None;
        }
        let tt_score = match tt.probe(pos.zobrist) {
            Some(e) => tt_score_from(e.score as i32, ply),
            None => 0,
        };
        let sb = tt_score - depth * 2;
        let s_beta = if sb > -MATE_SCORE { sb } else { -MATE_SCORE };
        let s_score = self.negamax(tt, params, pos, s_beta - 1, s_beta, depth / 2, ply, skip_null, Some(tt_move));
        let singular = s_score < s_beta;
        Some((singular, singular && s_score < s_beta - 15))
    }
}

/// Table probe at a node: the stored move, and a cutoff score when
/// `may_cut` holds and the stored bound at sufficient depth decides the
/// window.
fn probe_node(tt: &TT, pos: &Position, alpha: i32, beta: i32, depth: i32, ply: usize, may_cut: bool) -> (r: (Option<i32>, Move))
    requires
        tt.wf(),
        ply < MAX_PLY,
    ensures
        r.0 matches Some(x) ==> score_ok(x as int),
        !may_cut ==> r.0 is None,
        !tt.holds(pos.zobrist) ==> r.0 is None,
{
    match tt.probe(pos.zobrist) {
        Some(e) => {
            if may_cut && e.depth >= depth as i8 {
                let s = tt_score_from(e.score as i32, ply);
                if e.flag == TT_EXACT || (e.flag == TT_LOWER && s >= beta) || (e.flag == TT_UPPER && s <= alpha) {
                    return (Some(s), e.best_move);
                }
            }
            (None, e.best_move)
        },
        None => (None, Move(0)),
    }
}

} // verus!

verus! {

impl Search {
    /// Quiescence search: captures, en-passant and promotions until the
    /// position is quiet (all evasions when in check). On a table miss, a
    /// side in check with no move is mated, a side not in check whose
    /// static evaluation reaches `beta` stands pat on it, and a side not in
    /// check scores at least its static evaluation.
    #[verifier::rlimit(80)]
    pub fn quiesce(&mut self, tt: &mut TT, params: &SearchParams, pos: &mut Position, alpha: i32, beta: i32, ply: usize) -> (r: i32)
        requires
            old(self).wf(),
            old(tt).wf(),
            ply < MAX_PLY,
            qs_ready(*old(pos), (MAX_PLY - 1 - ply) as nat),
            win_ok(alpha as int, ply as int),
            win_ok(beta as int, ply as int),
            alpha < beta,
        ensures
            final(self).wf(),
            final(tt).wf(),
            qs_ready(*final(pos), (MAX_PLY - 1 - ply) as nat),
            final(pos)@ == old(pos)@,
            score_ok(r as int),
            old(self).is_stopped() ==> r == 0,
            unlimited(params) && !old(self).is_stopped() ==> !final(self).is_stopped(),
            final(self).pv_first() == old(self).pv_first(),
            unlimited(params) && !old(self).is_stopped() && ply < MAX_PLY - 1 && !old(tt).holds(old(pos).zobrist)
                && side_in_check(old(pos)@) && old(pos)@.gen_moves().len() == 0 ==> r == -(MATE_SCORE - ply),
            unlimited(params) && !old(self).is_stopped() && ply < MAX_PLY - 1 && !old(tt).holds(old(pos).zobrist)
                && !side_in_check(old(pos)@) && static_eval(&*old(pos)) >= beta ==> r == static_eval(&*old(pos)),
            unlimited(params) && !old(self).is_stopped() && ply < MAX_PLY - 1 && !old(tt).holds(old(pos).zobrist)
                && !side_in_check(old(pos)@) ==> r >= static_eval(&*old(pos)),
        decreases MAX_PLY - ply, 1int,
    {
        proof {
            lemma_qs_ready(*pos, (MAX_PLY - 1 - ply) as nat);
            lemma_king_present(pos);
        }
        self.check_time(params);
        if self.stopped {
            return 0;
        }
        self.count_node();
        if ply >= MAX_PLY - 1 {
            return bounded_eval(pos);
        }
        let ghost n: nat = (MAX_PLY - 1 - ply) as nat;
        let ghost v = pos@;
        proof {
            lemma_qs_ready(*pos, n);
        }
        let mut alpha = alpha;
        let in_check = pos.in_check();
        proof {
            lemma_in_check_view(pos);
        }

        // TT probe in qsearch
        let mut tt_move = Move(0);
        match tt.probe(pos.zobrist) {
            Some(e) => {
                let s = tt_score_from(e.score as i32, ply);
                if e.depth >= 0 {
                    if e.flag == TT_EXACT {
                        return s;
                    }
                    if e.flag == TT_LOWER && s >= beta {
                        return s;
                    }
                    if e.flag == TT_UPPER && s <= alpha {
                        return s;
                    }
                }
                tt_move = e.best_move;
            },
            None => {},
        }

        let stand_pat = if !in_check {
            let sp = eval_node(pos);
            if sp >= beta {
                return sp;
            }
            // Delta pruning
            if sp + (1025 + 200) < alpha {
                return alpha;
            }
            if sp > alpha {
                alpha = sp;
            }
            sp
        } else {
            -INF
        };

        proof {
            pos.lemma_bitboards();
        }
        let moves = generate_legal_moves(pos);
        // In check with no moves = checkmate
        if in_check && moves.len == 0 {
            return -(MATE_SCORE - ply as i32);
        }
        let ordered = self.order_moves(pos, &moves, tt_move, if ply < MAX_PLY - 1 { ply } else { MAX_PLY - 1 });
        self.quiesce_moves(tt, params, pos, &ordered, alpha, beta, ply, in_check, stand_pat, Ghost(moves.view()))
    }

    /// The move loop of `quiesce`: captures, en passant and promotions
    /// with a non-negative exchange value (every move when in check), from
    /// the stand-pat score `stand_pat` on (from -INF when in check).
    fn quiesce_moves(
        &mut self,
        tt: &mut TT,
        params: &SearchParams,
        pos: &mut Position,
        ordered: &Vec<Move>,
        alpha: i32,
        beta: i32,
        ply: usize,
        in_check: bool,
        stand_pat: i32,
        Ghost(ms): Ghost<Seq<Move>>,
    ) -> (r: i32)
        requires
            old(self).wf(),
            old(tt).wf(),
            !old(self).stopped,
            ply < MAX_PLY - 1,
            qs_ready(*old(pos), (MAX_PLY - 1 - ply) as nat),
            ms == old(pos)@.gen_moves(),
            forall|k: int| 0 <= k < ordered@.len() ==> ms.contains(#[trigger] ordered@[k]),
            win_ok(alpha as int, ply as int),
            win_ok(beta as int, ply as int),
            alpha < beta,
            !in_check ==> score_ok(stand_pat as int),
        ensures
            final(self).wf(),
            final(tt).wf(),
            qs_ready(*final(pos), (MAX_PLY - 1 - ply) as nat),
            final(pos)@ == old(pos)@,
            score_ok(r as int),
            unlimited(params) ==> !final(self).stopped,
            final(self).pv_first() == old(self).pv_first(),
            !in_check && !final(self).stopped ==> r >= stand_pat,
        decreases MAX_PLY - ply, 0int,
    {
        let ghost n: nat = (MAX_PLY - 1 - ply) as nat;
        let ghost v = pos@;
        proof {
            lemma_qs_ready(*pos, n);
        }
        let mut alpha = alpha;
        let orig_alpha = alpha;
        let mut best_score = if in_check { -INF } else { stand_pat };
        let mut best_move = Move(0);
        let mut i: usize = 0;
        while i < ordered.len()
            invariant
                self.wf(),
                tt.wf(),
                qs_ready(*pos, n),
                pos@ == v,
                v == old(pos)@,
                ply < MAX_PLY - 1,
                n == MAX_PLY - 1 - ply,
                !old(self).stopped,
                qs_ok(v, n),
                unlimited(params) && !old(self).stopped ==> !self.stopped,
                self.pv_first() == old(self).pv_first(),
                ms == v.gen_moves(),
                forall|k: int| 0 <= k < ordered@.len() ==> ms.contains(#[trigger] ordered@[k]),
                win_ok(alpha as int, ply as int),
                win_ok(beta as int, ply as int),
                alpha < beta,
                !in_check ==> best_score >= stand_pat,
                score_ok(best_score as int),
                win_ok(orig_alpha as int, ply as int),
            decreases ordered@.len() - i,
        {
            let mv = ordered[i];
            // When not in check: only captures, en passant and promotions (sorted first)
            if !in_check && !mv.is_capture() && !mv.is_ep() && !mv.is_promotion() {
                break;
            }
            // Skip bad captures when not in check
            if !in_check && see(pos, mv) < 0 {
                i += 1;
                continue;
            }
            qs_make_child(pos, mv, Ghost(n));
            let score = -self.quiesce(tt, params, pos, -beta, -alpha, ply + 1);
            qs_unmake_child(pos, mv, Ghost(v), Ghost((n - 1) as nat), Ghost(n));
            if self.stopped {
                return 0;
            }
            if score > best_score {
                best_score = score;
                best_move = mv;
                if score > alpha {
                    alpha = score;
                    if score >= beta {
                        tt.store(pos.zobrist, tt_score_to(score, ply) as i16, 0, TT_LOWER, best_move);
                        return score;
                    }
                }
            }
            i += 1;
        }
        let flag = if best_score <= orig_alpha { TT_UPPER } else { TT_EXACT };
        tt.store(pos.zobrist, tt_score_to(best_score, ply) as i16, 0, flag, best_move);
        best_score
    }

    /// Probcut: captures that still beat `pc_beta` at reduced depth.
    fn probcut(&mut self, tt: &mut TT, params: &SearchParams, pos: &mut Position, moves: &MoveList, pc_beta: i32, static_eval: i32, depth: i32, ply: usize, Ghost(d0): Ghost<int>) -> (r: Option<i32>)
        requires
            old(self).wf(),
            old(tt).wf(),
            ply < MAX_PLY - 1,
            ready(*old(pos), (MAX_PLY - 1 - ply) as nat),
            moves.wf(),
            moves.view() == old(pos)@.gen_moves(),
            -MATE_THRESHOLD + 150 < pc_beta < MATE_THRESHOLD + 150,
            -INF <= static_eval <= INF,
            5 <= depth <= d0 + 1,
            depth <= 1001 + 2 * ply,
            -100 <= d0,
        ensures
            final(self).wf(),
            final(tt).wf(),
            ready(*final(pos), (MAX_PLY - 1 - ply) as nat),
            final(pos)@ == old(pos)@,
            r matches Some(x) ==> score_ok(x as int),
            unlimited(params) && !old(self).stopped ==> !final(self).stopped,
            final(self).pv_first() == old(self).pv_first(),
        decreases MAX_PLY - ply, d0 + 1000, 0int,
    {
        let ghost n: nat = (MAX_PLY - 1 - ply) as nat;
        let ghost v = pos@;
        proof {
            lemma_ready(*pos, n);
        }
        let mut i: usize = 0;
        while i < moves.len
            invariant
                self.wf(),
                tt.wf(),
                ready(*pos, n),
                pos@ == v,
                v == old(pos)@,
                ply < MAX_PLY - 1,
                n == MAX_PLY - 1 - ply,
                root_ok(v, n),
                unlimited(params) && !old(self).stopped ==> !self.stopped,
                self.pv_first() == old(self).pv_first(),
                moves.wf(),
                moves.view() == v.gen_moves(),
                -MATE_THRESHOLD + 150 < pc_beta < MATE_THRESHOLD + 150,
                -INF <= static_eval <= INF,
                5 <= depth <= d0 + 1,
                depth <= 1001 + 2 * ply,
            decreases moves.len - i,
        {
            let mv = moves.moves[i];
            assert(moves.view()[i as int] == mv);
            if !mv.is_capture() && !mv.is_ep() {
                i += 1;
                continue;
            }
            if see(pos, mv) < pc_beta - static_eval {
                i += 1;
                continue;
            }
            make_child(pos, mv, Ghost(n));
            proof {
                lemma_child(v, n, mv);
                reveal(reach);
                lemma_capture_child(v, mv, (n - 1) as nat);
                reveal(qs_ready);
            }
            self.count_node();
            let qs = -self.quiesce(tt, params, pos, -pc_beta, -pc_beta + 1, ply + 1);
            proof {
                reveal(reach);
                reveal(qs_ready);
                assert(reach(*pos, (n - 1) as nat));
            }
            let score = if qs >= pc_beta && !self.stopped {
                -self.negamax(tt, params, pos, -pc_beta, -pc_beta + 1, depth - 4, ply + 1, false, None)
            } else {
                qs
            };
            unmake_child(pos, mv, Ghost(v), Ghost((n - 1) as nat), Ghost(n));
            if self.stopped {
                return Some(0);
            }
            if score >= pc_beta {
                return Some(score);
            }
            i += 1;
        }
        None
    }

    /// Multi-cut: true when three of the first eight moves fail high at
    /// reduced depth.
    fn multi_cut(&mut self, tt: &mut TT, params: &SearchParams, pos: &mut Position, ordered: &Vec<Move>, beta: i32, depth: i32, ply: usize, Ghost(d0): Ghost<int>, Ghost(ms): Ghost<Seq<Move>>) -> (r: bool)
        requires
            old(self).wf(),
            old(tt).wf(),
            ply < MAX_PLY - 1,
            ready(*old(pos), (MAX_PLY - 1 - ply) as nat),
            ms == old(pos)@.gen_moves(),
            forall|k: int| 0 <= k < ordered@.len() ==> ms.contains(#[trigger] ordered@[k]),
            -MATE_THRESHOLD < beta < MATE_THRESHOLD,
            7 <= depth <= d0 + 1,
            depth <= 1001 + 2 * ply,
            -100 <= d0,
        ensures
            final(self).wf(),
            final(tt).wf(),
            ready(*final(pos), (MAX_PLY - 1 - ply) as nat),
            final(pos)@ == old(pos)@,
            unlimited(params) && !old(self).stopped ==> !final(self).stopped,
            final(self).pv_first() == old(self).pv_first(),
        decreases MAX_PLY - ply, d0 + 1000, 0int,
    {
        let ghost n: nat = (MAX_PLY - 1 - ply) as nat;
        let ghost v = pos@;
        proof {
            lemma_ready(*pos, n);
        }
        let mc_r = 3i32;
        let mc_c = 3usize;
        let mut mc_count = 0usize;
        let mut i: usize = 0;
        while i < ordered.len() && i < 8
            invariant
                self.wf(),
                tt.wf(),
                ready(*pos, n),
                pos@ == v,
                v == old(pos)@,
                ply < MAX_PLY - 1,
                n == MAX_PLY - 1 - ply,
                root_ok(v, n),
                unlimited(params) && !old(self).stopped ==> !self.stopped,
                self.pv_first() == old(self).pv_first(),
                ms == v.gen_moves(),
                forall|k: int| 0 <= k < ordered@.len() ==> ms.contains(#[trigger] ordered@[k]),
                -MATE_THRESHOLD < beta < MATE_THRESHOLD,
                7 <= depth <= d0 + 1,
                depth <= 1001 + 2 * ply,
                mc_count <= i,
                mc_r == 3,
                mc_c == 3,
            decreases 8 - i,
        {
            let mv = ordered[i];
            make_child(pos, mv, Ghost(n));
            self.count_node();
            let s = -self.negamax(tt, params, pos, -beta, -beta + 1, depth - 1 - mc_r, ply + 1, false, None);
            unmake_child(pos, mv, Ghost(v), Ghost((n - 1) as nat), Ghost(n));
            if self.stopped {
                return false;
            }
            if s >= beta {
                mc_count += 1;
                if mc_count >= mc_c {
                    return true;
                }
            }
            i += 1;
        }
        false
    }
}

} // verus!

verus! {

impl Search {
    /// Quiet-move history updates after a beta cutoff by `ordered[i]`: a
    /// bonus for it, a malus for the quiet moves tried before it.
    fn quiet_cutoff_updates(&mut self, ordered: &Vec<Move>, i: usize, depth: i32, ply: usize)
        requires
            old(self).wf(),
            i < ordered@.len(),
            ply < MAX_PLY,
        ensures
            final(self).wf(),
            final(self).nodes == old(self).nodes,
            final(self).stopped == old(self).stopped,
            final(self).pv_first() == old(self).pv_first(),
    {
        proof {
            reveal(Search::wf);
        }
        let mv = ordered[i];
        let k0 = self.killers[ply * 2];
        self.killers.set(ply * 2 + 1, k0);
        self.killers.set(ply * 2, mv);
        self.update_history(mv, depth, ply, true);
        let mut j: usize = 0;
        while j < i
            invariant
                self.wf(),
                i < ordered@.len(),
                ply < MAX_PLY,
                j <= i,
                self.nodes == old(self).nodes,
                self.stopped == old(self).stopped,
                self.pv_first() == old(self).pv_first(),
            decreases i - j,
        {
            let tried = ordered[j];
            if !tried.is_capture() && !tried.is_ep() && !tried.is_promotion() {
                self.update_history(tried, depth, ply, false);
            }
            j += 1;
        }
        // Countermove: this quiet move answers the opponent's last move
        let pm = self.prev_move[if ply > 0 { ply - 1 } else { 0 }];
        if !pm.is_null() {
            self.countermoves.set(pm.from() as usize * 64 + pm.to() as usize, mv);
        }
    }

    /// Capture history updates after a beta cutoff by the capture `ordered[i]`.
    fn capture_cutoff_updates(&mut self, ordered: &Vec<Move>, i: usize, depth: i32)
        requires
            old(self).wf(),
            i < ordered@.len(),
        ensures
            final(self).wf(),
            final(self).nodes == old(self).nodes,
            final(self).stopped == old(self).stopped,
            final(self).pv_first() == old(self).pv_first(),
    {
        self.update_cap_hist(ordered[i], depth, true);
        let mut j: usize = 0;
        while j < i
            invariant
                self.wf(),
                i < ordered@.len(),
                j <= i,
                self.nodes == old(self).nodes,
                self.stopped == old(self).stopped,
                self.pv_first() == old(self).pv_first(),
            decreases i - j,
        {
            let tried = ordered[j];
            if tried.is_capture() || tried.is_ep() {
                self.update_cap_hist(tried, depth, false);
            }
            j += 1;
        }
    }

    /// Late-move reduction of the `i`-th move.
    fn reduction(&self, mv: Move, depth: i32, i: usize, ply: usize, improving: bool, is_pv: bool) -> (r: i32)
        requires
            self.wf(),
            ply < MAX_PLY,
            3 <= depth <= 100_000,
        ensures
            0 <= r <= depth,
    {
        proof {
            reveal(Search::wf);
        }
        let d = if depth < 63 { depth as usize } else { 63 };
        let k = if i < 63 { i } else { 63 };
        let base = self.lmr[d * 64 + k];
        let hs = self.hist_score(mv, ply);
        let q = hs / 4000;
        let hist_adj = if q < -2 { -2 } else if q > 2 { 2 } else { q };
        let a = base - hist_adj;
        let b = if a > 0 { a } else { 0 };
        let mut reduction = if b < depth - 1 { b } else { depth - 1 };
        if !improving {
            reduction += 1;
        }
        if is_pv && reduction > 1 {
            reduction -= 1;
        }
        reduction
    }

    /// Forward pruning of the `i`-th move at a node that is neither the
    /// root nor in check: futility, late-move, history and SEE pruning.
    fn prune_move(
        &self,
        mv: Move,
        depth: i32,
        ply: usize,
        i: usize,
        quiets_tried: usize,
        improving: bool,
        static_eval: i32,
        alpha: i32,
        is_quiet: bool,
        is_capture: bool,
        see_score: i32,
    ) -> bool
        requires
            self.wf(),
            ply < MAX_PLY,
            1 <= depth <= 1300,
            -INF <= static_eval <= INF,
            -20_000_200 <= alpha <= 20_000_200,
            -700_000 <= see_score <= 700_000,
    {
        // Futility pruning: quiet moves at low depth when well below alpha
        if is_quiet && depth <= 4 && i > 0 {
            let margin = FP_MARGIN[depth as usize] + if improving { 30 } else { 0 };
            if static_eval + margin <= alpha {
                return true;
            }
        }
        // Late move pruning
        if is_quiet && depth <= 4 {
            let lmp_limit = if improving { LMP_IMPROVING[depth as usize] } else { LMP_NOT_IMPROVING[depth as usize] };
            if quiets_tried >= lmp_limit {
                return true;
            }
        }
        // History pruning: skip quiet moves with very negative history
        if is_quiet && depth <= 3 {
            let hs = self.hist_score(mv, ply);
            if hs < -2000 * depth {
                return true;
            }
        }
        // SEE pruning at low depths
        if depth <= 6 {
            if is_capture && see_score < -50 * depth {
                return true;
            }
            if is_quiet && see_score < -60 * depth {
                return true;
            }
        }
        false
    }

    /// The move loop of `negamax`: principal variation search with late-move
    /// reductions, pruning of late quiet moves and extensions. Returns the
    /// best score, the best move, and whether the search was stopped.
    #[verifier::rlimit(80)]
    fn search_moves(
        &mut self,
        tt: &mut TT,
        params: &SearchParams,
        pos: &mut Position,
        ordered: &Vec<Move>,
        alpha: i32,
        beta: i32,
        depth: i32,
        ply: usize,
        tt_move: Move,
        skip_move: Option<Move>,
        in_check: bool,
        improving: bool,
        static_eval: i32,
        singular_ext: bool,
        double_ext: bool,
        Ghost(d0): Ghost<int>,
        Ghost(ms): Ghost<Seq<Move>>,
    ) -> (r: (i32, Move, bool))
        requires
            old(self).wf(),
            old(tt).wf(),
            ply < MAX_PLY - 1,
            ready(*old(pos), (MAX_PLY - 1 - ply) as nat),
            ms == old(pos)@.gen_moves(),
            forall|k: int| 0 <= k < ordered@.len() ==> ms.contains(#[trigger] ordered@[k]),
            win_ok(alpha as int, ply as int),
            win_ok(beta as int, ply as int),
            alpha < beta,
            1 <= depth <= d0 + 1,
            depth <= 1001 + 2 * ply,
            -100 <= d0,
            -INF <= static_eval <= INF,
        ensures
            final(self).wf(),
            final(tt).wf(),
            ready(*final(pos), (MAX_PLY - 1 - ply) as nat),
            final(pos)@ == old(pos)@,
            score_ok(r.0 as int),
            unlimited(params) && !old(self).stopped ==> !final(self).stopped,
            ply >= 1 ==> final(self).pv_first() == old(self).pv_first(),
            ply == 0 ==> final(self).pv_first() == old(self).pv_first() || ms.contains(final(self).pv_first()),
            r.2 ==> final(self).stopped,
            ply == 0 && !r.2 && r.0 > alpha && r.0 > -INF ==> ms.contains(final(self).pv_first()),
        decreases MAX_PLY - ply, d0 + 1000, 0int,
    {
        let ghost n: nat = (MAX_PLY - 1 - ply) as nat;
        let ghost v = pos@;
        proof {
            lemma_ready(*pos, n);
        }
        let is_root = ply == 0;
        let is_pv = beta > alpha + 1;
        let ghost a0 = alpha;
        let mut alpha = alpha;
        let mut best_score = -INF;
        let mut best_move = Move(0);
        let mut quiets_tried = 0usize;
        let mut i: usize = 0;
        while i < ordered.len()
            invariant_except_break
                alpha < beta,
                win_ok(alpha as int, ply as int),
                quiets_tried <= i,
            invariant
                self.wf(),
                tt.wf(),
                ready(*pos, n),
                pos@ == v,
                v == old(pos)@,
                ply < MAX_PLY - 1,
                n == MAX_PLY - 1 - ply,
                root_ok(v, n),
                unlimited(params) && !old(self).stopped ==> !self.stopped,
                ply >= 1 ==> self.pv_first() == old(self).pv_first(),
                ply == 0 ==> self.pv_first() == old(self).pv_first() || ms.contains(self.pv_first()),
                a0 <= alpha,
                best_score > -INF && best_score > a0 ==> alpha > a0,
                ply == 0 && alpha > a0 ==> ms.contains(self.pv_first()),
                ms == v.gen_moves(),
                forall|k: int| 0 <= k < ordered@.len() ==> ms.contains(#[trigger] ordered@[k]),
                win_ok(beta as int, ply as int),
                score_ok(best_score as int),
                1 <= depth <= d0 + 1,
                depth <= 1001 + 2 * ply,
                depth <= 1300,
                -INF <= static_eval <= INF,
            decreases ordered@.len() - i,
        {
            let mv = ordered[i];
            // Skip the excluded move of a singular extension search
            let skipped = match skip_move {
                Some(sm) => sm == mv,
                None => false,
            };
            if skipped {
                i += 1;
                continue;
            }
            let is_quiet = !mv.is_capture() && !mv.is_ep() && !mv.is_promotion();
            let is_capture = mv.is_capture() || mv.is_ep();
            let see_score = if is_capture { see(pos, mv) } else { 0 };

            // Pruning (not at the root, not in check)
            if !is_root && !in_check && best_score > -MATE_THRESHOLD
                && self.prune_move(mv, depth, ply, i, quiets_tried, improving, static_eval, alpha, is_quiet, is_capture, see_score) {
                i += 1;
                continue;
            }
            if is_quiet {
                quiets_tried += 1;
            }

            // Extensions
            let pm = self.prev_at(if ply > 0 { ply - 1 } else { 0 });
            let is_recapture = is_capture && !pm.is_null() && (pm.is_capture() || pm.is_ep()) && pm.to() == mv.to() && see_score >= 0;
            let ext: i32 = if singular_ext && mv == tt_move {
                if double_ext { 2 } else { 1 }
            } else if is_recapture && depth <= 7 {
                1
            } else {
                0
            };

            let nodes_before = if is_root { self.nodes } else { 0 };
            make_child(pos, mv, Ghost(n));
            self.count_node();
            self.set_prev(ply, mv);

            let score = if i == 0 {
                -self.negamax(tt, params, pos, -beta, -alpha, depth - 1 + ext, ply + 1, false, None)
            } else {
                // Late-move reductions
                let mut r = if (is_quiet || is_capture && see_score < 0) && depth >= 3 && i >= 3 {
                    self.reduction(mv, depth, i, ply, improving, is_pv)
                } else {
                    0
                };
                // Don't reduce good captures or extended moves
                if is_capture && see_score >= 0 {
                    r = 0;
                }
                if ext > 0 {
                    r = 0;
                }
                let zw = -self.negamax(tt, params, pos, -alpha - 1, -alpha, depth - 1 - r + ext, ply + 1, false, None);
                if zw > alpha && (zw < beta || r > 0) {
                    -self.negamax(tt, params, pos, -beta, -alpha, depth - 1 + ext, ply + 1, false, None)
                } else {
                    zw
                }
            };

            unmake_child(pos, mv, Ghost(v), Ghost((n - 1) as nat), Ghost(n));
            if self.stopped {
                return (0, Move(0), true);
            }

            if is_root {
                self.root_account(nodes_before, score > best_score);
            }

            if score > best_score {
                best_score = score;
                best_move = mv;
                if score > alpha {
                    alpha = score;
                    self.pv_update(ply, mv);
                }
            }

            if score >= beta {
                if is_quiet {
                    self.quiet_cutoff_updates(ordered, i, depth, ply);
                } else if is_capture {
                    self.capture_cutoff_updates(ordered, i, depth);
                }
                break;
            }
            i += 1;
        }
        (best_score, best_move, false)
    }
}

} // verus!

verus! {

/// Rounds of window widening tried at one depth; the last of them
/// searches the full window and its score is taken as it is.
pub const ASPIRATION_ROUNDS: u32 = 1000;

impl Search {
    /// One iteration of iterative deepening at the root: a full-window
    /// search up to depth 4, beyond that an aspiration window around
    /// `prev_score` (as far as it lies within ±`INF`) that is widened on
    /// each fail low or fail high (the last round allowed is searched with
    /// the full window). A root without moves scores as mate or
    /// stalemate whatever the window, and the best root move left behind
    /// is a generated move or none.
    pub fn iterate(&mut self, tt: &mut TT, params: &SearchParams, pos: &mut Position, depth: i32, prev_score: i32) -> (r: i32)
        requires
            old(self).wf(),
            old(tt).wf(),
            ready(*old(pos), (MAX_PLY - 1) as nat),
            1 <= depth <= 1000,
            score_ok(prev_score as int),
        ensures
            final(self).wf(),
            final(tt).wf(),
            ready(*final(pos), (MAX_PLY - 1) as nat),
            final(pos)@ == old(pos)@,
            score_ok(r as int),
            old(self).is_stopped() ==> r == 0,
            unlimited(params) && !old(self).is_stopped() ==> !final(self).is_stopped(),
            final(self).pv_first() == Move(0) || old(pos)@.gen_moves().contains(final(self).pv_first()),
            unlimited(params) && !old(self).is_stopped() && old(pos)@.gen_moves().len() == 0
                ==> r == no_move_score(old(pos)@, 0),
            unlimited(params) && !old(self).is_stopped() && old(pos)@.gen_moves().len() > 0 && r > -INF
                ==> old(pos)@.gen_moves().contains(final(self).pv_first()),
    {
        if depth <= 4 {
            return self.negamax(tt, params, pos, -INF, INF, depth, 0, false, None);
        }
        let center = if prev_score < -INF { -INF } else if prev_score > INF { INF } else { prev_score };
        let mut delta = 25i32;
        let mut alpha = if center - delta > -INF { center - delta } else { -INF };
        let mut beta = if center + delta < INF { center + delta } else { INF };
        let mut rounds: u32 = 0;
        loop
            invariant
                self.wf(),
                tt.wf(),
                ready(*pos, (MAX_PLY - 1) as nat),
                pos@ == old(pos)@,
                -INF <= alpha < beta <= INF,
                1 <= delta <= INF,
                5 <= depth <= 1000,
                rounds <= ASPIRATION_ROUNDS,
                unlimited(params) && !old(self).stopped ==> !self.stopped,
                old(self).stopped ==> self.stopped,
                rounds > 0 ==> self.pv_first() == Move(0) || old(pos)@.gen_moves().contains(self.pv_first()),
                unlimited(params) && !old(self).stopped && old(pos)@.gen_moves().len() == 0 ==> beta > alpha + 1,
            decreases ASPIRATION_ROUNDS - rounds,
        {
            if rounds + 1 >= ASPIRATION_ROUNDS {
                alpha = -INF;
                beta = INF;
            }
            let s = self.negamax(tt, params, pos, alpha, beta, depth, 0, false, None);
            rounds += 1;
            if self.stopped || rounds >= ASPIRATION_ROUNDS {
                return s;
            }
            if s <= alpha {
                alpha = if alpha - delta > -INF { alpha - delta } else { -INF };
                beta = (alpha + beta) / 2 + 1;
                delta = if delta * 3 / 2 < INF { delta * 3 / 2 } else { INF };
            } else if s >= beta {
                beta = if beta + delta < INF { beta + delta } else { INF };
                delta = if delta * 3 / 2 < INF { delta * 3 / 2 } else { INF };
            } else {
                return s;
            }
        }
    }

    /// Halves the history tables before a new iteration.
    pub fn new_iteration(&mut self)
        requires
            old(self).wf(),
        ensures
            final(self).wf(),
            final(self).node_count() == old(self).node_count(),
            final(self).is_stopped() == old(self).is_stopped(),
    {
        self.age_history();
    }

    /// The best root move found so far: the first move of the principal
    /// variation, or the null move.
    pub fn best_root_move(&self) -> (r: Move)
        requires
            self.wf(),
        ensures
            r == self.pv_first(),
    {
        proof {
            reveal(Search::wf);
        }
        if self.pv_len[0] > 0 { self.pv[0] } else { Move(0) }
    }

    /// The principal variation from the root.
    pub fn pv_line(&self) -> (r: Vec<Move>)
        requires
            self.wf(),
        ensures
            r@ == self.pv_root(),
            r@.len() <= PV_W,
            r@.len() > 0 ==> r@[0] == self.pv_first(),
    {
        proof {
            reveal(Search::wf);
        }
        let n = self.pv_len[0];
        let mut r: Vec<Move> = Vec::new();
        let mut j: usize = 0;
        while j < n
            invariant
                self.wf(),
                n == self.pv_len@[0],
                n <= PV_W,
                j <= n,
                r@.len() == j,
                r@ == self.pv@.subrange(0, j as int),
                self.pv@.len() == PV_W * PV_W,
            decreases n - j,
        {
            r.push(self.pv[j]);
            j += 1;
        }
        r
    }

    /// Nodes spent below the best root move and below all root moves in
    /// the last iteration.
    pub fn root_nodes(&self) -> (r: (u64, u64))
        ensures
            r == (self.root_best(), self.root_total()),
    {
        (self.root_best_nodes, self.root_total_nodes)
    }

    /// Clears the root node counts before the next iteration.
    pub fn reset_root_nodes(&mut self)
        requires
            old(self).wf(),
        ensures
            final(self).wf(),
            final(self).node_count() == old(self).node_count(),
            final(self).is_stopped() == old(self).is_stopped(),
            final(self).root_best() == 0,
            final(self).root_total() == 0,
    {
        proof {
            reveal(Search::wf);
        }
        self.root_best_nodes = 0;
        self.root_total_nodes = 0;
    }
}

/// What iterative deepening carries from one depth to the next: the result
/// so far, the last score and best move, and for how many iterations in a
/// row the best move has stayed the same.
pub struct IdState {
    pub result: SearchResult,
    pub prev_score: i32,
    pub prev_best: Move,
    pub stability: u32,
}

/// The state before the first iteration.
pub fn id_start() -> (st: IdState)
    ensures
        st.result.best_move == Move(0),
        st.result.score == 0,
        st.result.depth == 0,
        st.result.nodes == 0,
        st.prev_score == 0,
        st.prev_best == Move(0),
        st.stability == 0,
{
    IdState {
        result: SearchResult { best_move: Move(0), score: 0, depth: 0, nodes: 0 },
        prev_score: 0,
        prev_best: Move(0),
        stability: 0,
    }
}

/// Records a finished iteration at `depth` with `score` and best move
/// `best`: the result takes them when `best` is not the null move; the
/// stability counts up while the best move repeats and restarts otherwise.
/// Also returns how much the score dropped since the last iteration.
pub fn record_iteration(st: IdState, depth: u32, score: i32, best: Move, nodes: u64) -> (r: (IdState, i32))
    requires
        score_ok(st.prev_score as int),
        score_ok(score as int),
        st.stability < depth,
    ensures
        r.1 == st.prev_score - score,
        r.0.prev_score == score,
        r.0.result.nodes == nodes,
        best.0 != 0 ==> r.0.result.best_move == best && r.0.result.score == score && r.0.result.depth == depth,
        best.0 == 0 ==> r.0.result.best_move == st.result.best_move && r.0.result.score == st.result.score
            && r.0.result.depth == st.result.depth,
        (best == st.prev_best && best.0 != 0) ==> r.0.stability == st.stability + 1 && r.0.prev_best == st.prev_best,
        !(best == st.prev_best && best.0 != 0) ==> r.0.stability == 0 && r.0.prev_best == best,
        r.0.stability <= depth,
{
    let mut st = st;
    if !best.is_null() {
        st.result.best_move = best;
        st.result.score = score;
        st.result.depth = depth;
    }
    st.result.nodes = nodes;
    let score_drop = st.prev_score - score;
    if best == st.prev_best && !best.is_null() {
        st.stability = st.stability + 1;
    } else {
        st.stability = 0;
        st.prev_best = best;
    }
    st.prev_score = score;
    (st, score_drop)
}

/// A mate was found: the search stops deepening.
pub fn mate_found(score: i32) -> (r: bool)
    requires
        score_ok(score as int),
    ensures
        r == (score > MATE_THRESHOLD || score < -MATE_THRESHOLD),
{
    let a = if score < 0 { -score } else { score };
    a > MATE_THRESHOLD
}

/// What iterative deepening does after the search at one depth.
pub enum IdStep {
    /// The search was stopped by a limit past the first depth: its result
    /// is dropped and deepening ends.
    Drop,
    /// The result is kept and deepening ends (a mate was found).
    Last,
    /// The result is kept and deepening goes on unless the soft time limit
    /// is reached.
    More,
}

/// The decision after the search at `depth` returned `score`, `stopped`
/// telling whether a limit stopped it.
pub fn id_step(stopped: bool, depth: u32, score: i32) -> (r: IdStep)
    requires
        score_ok(score as int),
    ensures
        (r is Drop) == (stopped && depth > 1),
        (r is Last) == (!(stopped && depth > 1) && (score > MATE_THRESHOLD || score < -MATE_THRESHOLD)),
{
    if stopped && depth > 1 {
        IdStep::Drop
    } else if mate_found(score) {
        IdStep::Last
    } else {
        IdStep::More
    }
}

/// Percent scale of the soft time limit from the best-move stability.
pub open spec fn stability_scale(stability: int) -> int {
    if stability == 0 { 160 } else if stability == 1 { 120 } else if stability == 2 { 100 } else if stability == 3 { 85 } else { 70 }
}

/// Percent scale from the score drop of the last iteration.
pub open spec fn drop_scale(score_drop: int) -> int {
    if score_drop > 60 { 160 } else if score_drop > 30 { 130 } else { 100 }
}

/// Percent scale from the share of root nodes spent on the best move.
pub open spec fn node_scale(best_nodes: int, total_nodes: int) -> int {
    if total_nodes > 0 {
        let frac = best_nodes * 100 / total_nodes;
        if frac > 80 { 60 } else if frac > 60 { 80 } else if frac < 20 { 150 } else if frac < 40 { 120 } else { 100 }
    } else {
        100
    }
}

/// The combined percent scale, kept within 40..=280.
pub open spec fn time_scale_spec(stability: int, score_drop: int, best_nodes: int, total_nodes: int) -> int {
    let c = stability_scale(stability) * drop_scale(score_drop) / 100 * node_scale(best_nodes, total_nodes) / 100;
    if c < 40 { 40 } else if c > 280 { 280 } else { c }
}

/// Percent of the soft time limit the search may use before the next
/// iteration, from the stability of the best move, the score drop and the
/// share of root nodes spent on the best move (the node share is taken
/// with wrapping arithmetic).
pub fn time_scale(stability: u32, score_drop: i32, best_nodes: u64, total_nodes: u64) -> (r: u64)
    ensures
        best_nodes * 100 <= u64::MAX ==> r == time_scale_spec(stability as int, score_drop as int, best_nodes as int, total_nodes as int),
        40 <= r <= 280,
{
    let stab: u64 = if stability == 0 { 160 } else if stability == 1 { 120 } else if stability == 2 { 100 } else if stability == 3 { 85 } else { 70 };
    let drop: u64 = if score_drop > 60 { 160 } else if score_drop > 30 { 130 } else { 100 };
    let nodes: u64 = if total_nodes > 0 {
        let frac = best_nodes.wrapping_mul(100) / total_nodes;
        proof {
            if best_nodes * 100 <= u64::MAX {
                assert(best_nodes.wrapping_mul(100) == best_nodes * 100) by {
                    vstd::arithmetic::mul::lemma_mul_upper_bound(best_nodes as int, best_nodes as int, 100, 100);
                }
            }
        }
        if frac > 80 { 60 } else if frac > 60 { 80 } else if frac < 20 { 150 } else if frac < 40 { 120 } else { 100 }
    } else {
        100
    };
    let c = stab * drop / 100 * nodes / 100;
    if c < 40 { 40 } else if c > 280 { 280 } else { c }
}

/// The soft limit is used up: `elapsed` milliseconds reach `scale` percent
/// of `soft`.
pub fn soft_limit_reached(elapsed: u64, soft: u64, scale: u64) -> (r: bool)
    requires
        scale <= 280,
    ensures
        r == (elapsed * 100 >= soft * scale),
{
    proof {
        assert(soft * scale <= 0xFFFF_FFFF_FFFF_FFFF * 280) by (nonlinear_arith)
            requires soft <= 0xFFFF_FFFF_FFFF_FFFFu64, scale <= 280;
    }
    (elapsed as u128) * 100 >= (soft as u128) * (scale as u128)
}

/// Integer division rounding toward zero.
pub open spec fn trunc_div(a: int, b: int) -> int {
    if a >= 0 { a / b } else { -((-a) / b) }
}

/// Decimal text of a signed number.
pub open spec fn signed_text(n: int) -> Seq<char> {
    if n < 0 { seq!['-'] + dec_text((-n) as nat) } else { dec_text(n as nat) }
}

/// The score as the protocol writes it: `mate N` (moves to mate, negative
/// when being mated) beyond the mate threshold, else `cp N`.
pub open spec fn score_text_spec(score: int) -> Seq<char> {
    let a = if score < 0 { -score } else { score };
    if a > MATE_THRESHOLD {
        let m = trunc_div(MATE_SCORE - a + 1, 2);
        seq!['m', 'a', 't', 'e', ' '] + signed_text(if score > 0 { m } else { -m })
    } else {
        seq!['c', 'p', ' '] + signed_text(score)
    }
}

fn push_signed(s: &mut String, n: i32)
    requires
        -2_000_000_000 <= n <= 2_000_000_000,
    ensures
        final(s)@ == old(s)@ + signed_text(n as int),
{
    if n < 0 {
        push_char(s, '-');
        push_dec(s, (-n) as u32);
        proof {
            assert(final(s)@ =~= old(s)@ + (seq!['-'] + dec_text((-n) as nat)));
        }
    } else {
        push_dec(s, n as u32);
    }
}

/// The text of a score for an `info` line.
pub fn score_text(score: i32) -> (r: String)
    requires
        score_ok(score as int),
    ensures
        r@ == score_text_spec(score as int),
{
    let a = if score < 0 { -score } else { score };
    let mut s = String::new();
    if a > MATE_THRESHOLD {
        let num = MATE_SCORE - a + 1;
        let m = num / 2;
        push_char(&mut s, 'm');
        push_char(&mut s, 'a');
        push_char(&mut s, 't');
        push_char(&mut s, 'e');
        push_char(&mut s, ' ');
        push_signed(&mut s, if score > 0 { m } else { -m });
        proof {
            assert(m == trunc_div(MATE_SCORE - a + 1, 2));
        }
    } else {
        push_char(&mut s, 'c');
        push_char(&mut s, 'p');
        push_char(&mut s, ' ');
        push_signed(&mut s, score);
    }
    proof {
        assert(s@ =~= score_text_spec(score as int));
    }
    s
}

} // verus!
