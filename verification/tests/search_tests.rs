use lib::board::moves::{Move, FLAG_CAPTURE, FLAG_QUIET};
use lib::board::position::Position;
use lib::eval::{eval_ready, evaluate, TEMPO};
use lib::search::see::see;
use lib::search::{
    id_start, id_step, mate_found, record_iteration, IdStep, score_text, soft_limit_reached, time_scale, tt_score_from,
    tt_score_to, Search, SearchParams, INF, MATE_SCORE, MATE_THRESHOLD,
};
use lib::tt::{TT, TT_EXACT, TT_LOWER};
use std::time::Instant;

fn lmr_table() -> Vec<i32> {
    let mut t = vec![0i32; 4096];
    for d in 1..64usize {
        for i in 1..64usize {
            t[d * 64 + i] = ((d as f32).ln() * (i as f32).ln() / 2.0) as i32;
        }
    }
    t
}

fn params(depth: Option<u32>) -> SearchParams {
    SearchParams { start: Instant::now(), soft_limit: None, hard_limit: None, depth_limit: depth, node_limit: None }
}

#[test]
fn tt_store_then_probe() {
    let mut tt = TT::new(1);
    let m = Move::new(12, 28, 1);
    assert!(tt.probe(0x1234_5678_9abc_def0).is_none());
    tt.store(0x1234_5678_9abc_def0, -57, 6, TT_LOWER, m);
    let e = tt.probe(0x1234_5678_9abc_def0).unwrap();
    assert_eq!(e.score, -57);
    assert_eq!(e.depth, 6);
    assert_eq!(e.flag, TT_LOWER);
    assert_eq!(e.best_move, m);
    assert!(tt.probe(0x1234_5678_9abc_def1).is_none());
    tt.clear();
    assert!(tt.probe(0x1234_5678_9abc_def0).is_none());
}

#[test]
fn tt_hashfull_counts_used_slots() {
    let mut tt = TT::new(1);
    assert_eq!(tt.hashfull(), 0);
    for k in 0..500u64 {
        tt.store(k, 0, 1, TT_EXACT, Move(0));
    }
    assert_eq!(tt.hashfull(), 500);
}

#[test]
fn mate_scores_are_stored_relative_to_the_node() {
    assert_eq!(tt_score_to(29_990, 5), 29_995);
    assert_eq!(tt_score_to(-29_990, 5), -29_995);
    assert_eq!(tt_score_to(120, 5), 120);
    assert_eq!(tt_score_from(29_995, 5), 29_990);
    assert_eq!(tt_score_from(-29_995, 5), -29_990);
    for s in [-29_999, -29_001, -500, 0, 700, 29_001, 29_999] {
        for ply in [0usize, 1, 17, 127] {
            assert_eq!(tt_score_from(tt_score_to(s, ply), ply), s);
        }
    }
}

#[test]
fn evaluation_of_the_start_position() {
    // The start position is symmetric: only the tempo is left.
    let p = Position::startpos();
    assert_eq!(evaluate(&p), TEMPO);
    assert_eq!(TEMPO, 15);
    let b = Position::from_fen("rnbqkbnr/pppppppp/8/8/8/8/PPPPPPPP/RNBQKBNR b KQkq - 0 1").unwrap();
    assert_eq!(evaluate(&b), TEMPO);
}

#[test]
fn evaluation_reads_the_board_and_the_side() {
    let w = Position::from_fen("r3k2r/p1ppqpb1/bn2pnp1/3PN3/1p2P3/2N2Q1p/PPPBBPPP/R3K2R w KQkq - 0 1").unwrap();
    let b = Position::from_fen("r3k2r/p1ppqpb1/bn2pnp1/3PN3/1p2P3/2N2Q1p/PPPBBPPP/R3K2R b - - 17 40").unwrap();
    let w2 = Position::from_fen("r3k2r/p1ppqpb1/bn2pnp1/3PN3/1p2P3/2N2Q1p/PPPBBPPP/R3K2R w - - 5 9").unwrap();
    assert_eq!(evaluate(&w) + evaluate(&b), 2 * TEMPO);
    assert_eq!(evaluate(&w), evaluate(&w2));
}

#[test]
fn evaluation_is_colour_symmetric() {
    // A position and its colour-flipped mirror score the same for the
    // side to move.
    let w = Position::from_fen("r3k2r/p1ppqpb1/bn2pnp1/3PN3/1p2P3/2N2Q1p/PPPBBPPP/R3K2R w KQkq - 0 1").unwrap();
    let b = Position::from_fen("r3k2r/pppbbppp/2n2q1P/1P2p3/3pn3/BN2PNP1/P1PPQPB1/R3K2R b KQkq - 0 1").unwrap();
    assert_eq!(evaluate(&w), evaluate(&b));
    // A lone passed pawn each, mirrored.
    let pw = Position::from_fen("4k3/8/8/8/3P4/8/8/4K3 w - - 0 1").unwrap();
    let pb = Position::from_fen("4k3/8/8/3p4/8/8/8/4K3 b - - 0 1").unwrap();
    assert_eq!(evaluate(&pw), evaluate(&pb));
}

#[test]
fn evaluation_favours_extra_material() {
    let up = Position::from_fen("4k3/8/8/8/8/8/8/3QK3 w - - 0 1").unwrap();
    let down = Position::from_fen("4k3/8/8/8/8/8/8/3QK3 b - - 0 1").unwrap();
    assert!(evaluate(&up) > 500);
    assert!(evaluate(&down) < -500);
}

#[test]
fn static_exchange() {
    // Pawn takes an undefended knight: wins a knight.
    let p = Position::from_fen("4k3/8/8/3n4/4P3/8/8/4K3 w - - 0 1").unwrap();
    assert_eq!(see(&p, Move::new(28, 35, FLAG_CAPTURE)), 300);
    // Queen takes a pawn defended by a pawn: wins the pawn, loses the queen.
    let q = Position::from_fen("4k3/8/2p5/3p4/8/8/3Q4/4K3 w - - 0 1").unwrap();
    assert_eq!(see(&q, Move::new(11, 35, FLAG_CAPTURE)), -800);
    let r = Position::from_fen("4k3/2p5/3p4/8/8/8/3Q4/4K3 w - - 0 1").unwrap();
    assert_eq!(see(&r, Move::new(11, 43, FLAG_CAPTURE)), -800);
    // Pawn takes a queen defended by a pawn: wins the queen for the pawn.
    let t = Position::from_fen("4k3/2p5/3q4/4P3/8/8/8/4K3 w - - 0 1").unwrap();
    assert_eq!(see(&t, Move::new(36, 43, FLAG_CAPTURE)), 800);
    // En passant is not scored.
    let e = Position::from_fen("4k3/8/8/3pP3/8/8/8/4K3 w - d6 0 1").unwrap();
    assert_eq!(see(&e, Move::new(36, 43, lib::board::moves::FLAG_EP)), 0);
    // A quiet move gains nothing.
    assert_eq!(see(&q, Move::new(11, 19, FLAG_QUIET)), 0);
}

#[test]
fn search_finds_mate_in_one() {
    let mut p = Position::from_fen("6k1/5ppp/8/8/8/8/8/R5K1 w - - 0 1").unwrap();
    let mut tt = TT::new(1);
    let mut s = Search::new(lmr_table());
    let pr = params(Some(3));
    let score = s.iterate(&mut tt, &pr, &mut p, 2, 0);
    assert_eq!(score, MATE_SCORE - 1);
    assert_eq!(s.best_root_move().to_uci(), "a1a8");
    assert_eq!(p.to_fen(), "6k1/5ppp/8/8/8/8/8/R5K1 w - - 0 1");
    assert!(mate_found(score));
    assert_eq!(score_text(score), "mate 1");
}

#[test]
fn search_of_a_mated_position() {
    let mut p = Position::from_fen("R5k1/5ppp/8/8/8/8/8/6K1 b - - 0 1").unwrap();
    let mut tt = TT::new(1);
    let mut s = Search::new(lmr_table());
    let pr = params(Some(2));
    let score = s.iterate(&mut tt, &pr, &mut p, 1, 0);
    assert_eq!(score, -MATE_SCORE);
    assert!(s.best_root_move().is_null());
    assert_eq!(score_text(score), "mate 0");
}

#[test]
fn search_takes_a_free_queen() {
    let mut p = Position::from_fen("4k3/8/8/3q4/8/8/3R4/4K3 w - - 0 1").unwrap();
    let mut tt = TT::new(1);
    let mut s = Search::new(lmr_table());
    let pr = params(Some(4));
    let mut prev = 0;
    for d in 1..=4 {
        s.new_iteration();
        prev = s.iterate(&mut tt, &pr, &mut p, d, prev);
    }
    assert_eq!(s.best_root_move().to_uci(), "d2d5");
    assert!(prev > 300 && prev < MATE_THRESHOLD);
    assert!(!s.stopped);
}

#[test]
fn time_limit_stops_the_search() {
    let mut p = Position::startpos();
    let mut tt = TT::new(1);
    let mut s = Search::new(lmr_table());
    let pr = SearchParams { start: Instant::now(), soft_limit: None, hard_limit: Some(0), depth_limit: None, node_limit: None };
    let r = s.iterate(&mut tt, &pr, &mut p, 3, 0);
    assert!(s.stopped);
    assert_eq!(r, 0);
    assert_eq!(p.to_fen(), "rnbqkbnr/pppppppp/8/8/8/8/PPPPPPPP/RNBQKBNR w KQkq - 0 1");
}

#[test]
fn negamax_window_and_position() {
    let mut p = Position::startpos();
    let mut tt = TT::new(1);
    let mut s = Search::new(lmr_table());
    let pr = params(None);
    let r = s.negamax(&mut tt, &pr, &mut p, -INF, INF, 2, 0, false, None);
    assert!(r > -200 && r < 200);
    assert!(s.nodes > 20);
    assert!(!s.best_root_move().is_null());
    let line = s.pv_line();
    assert!(!line.is_empty());
    assert_eq!(line[0], s.best_root_move());
    assert_eq!(p.to_fen(), "rnbqkbnr/pppppppp/8/8/8/8/PPPPPPPP/RNBQKBNR w KQkq - 0 1");
}

#[test]
fn stalemate_scores_zero() {
    let mut p = Position::from_fen("7k/5Q2/6K1/8/8/8/8/8 b - - 0 1").unwrap();
    let mut tt = TT::new(1);
    let mut s = Search::new(lmr_table());
    let pr = params(None);
    assert_eq!(s.negamax(&mut tt, &pr, &mut p, -INF, INF, 1, 0, false, None), 0);
    assert!(s.best_root_move().is_null());
    assert_eq!(s.iterate(&mut tt, &pr, &mut p, 3, 0), 0);
    assert_eq!(p.to_fen(), "7k/5Q2/6K1/8/8/8/8/8 b - - 0 1");
}

#[test]
fn mated_side_scores_by_distance() {
    let fen = "rnb1kbnr/pppp1ppp/8/4p3/6Pq/5P2/PPPPP2P/RNBQKBNR w KQkq - 1 3";
    let mut p = Position::from_fen(fen).unwrap();
    let mut tt = TT::new(1);
    let mut s = Search::new(lmr_table());
    let pr = params(None);
    assert_eq!(s.negamax(&mut tt, &pr, &mut p, -INF, INF, 1, 2, false, None), -(MATE_SCORE - 2));
    assert_eq!(s.negamax(&mut tt, &pr, &mut p, -INF, INF, 1, 2, false, None), -29_998);
    let mut tt2 = TT::new(1);
    let mut q = Search::new(lmr_table());
    assert_eq!(q.quiesce(&mut tt2, &pr, &mut p, -INF, INF, 0), -MATE_SCORE);
    assert_eq!(p.to_fen(), fen);
}

#[test]
fn draws_below_the_root_score_zero() {
    // Fifty-move rule: the clock stands at 100 at a node one ply down.
    let mut p = Position::from_fen("4k3/8/8/8/8/8/8/R3K3 w - - 100 80").unwrap();
    let mut tt = TT::new(1);
    let mut s = Search::new(lmr_table());
    let pr = params(None);
    assert_eq!(s.negamax(&mut tt, &pr, &mut p, -INF, INF, 3, 1, false, None), 0);
}

#[test]
fn a_stopped_search_scores_zero() {
    let mut p = Position::startpos();
    let mut tt = TT::new(1);
    let mut s = Search::new(lmr_table());
    let pr = SearchParams { start: Instant::now(), soft_limit: None, hard_limit: None, depth_limit: None, node_limit: Some(0) };
    assert_eq!(s.negamax(&mut tt, &pr, &mut p, -INF, INF, 3, 0, false, None), 0);
    assert!(s.stopped);
    assert_eq!(s.quiesce(&mut tt, &pr, &mut p, -INF, INF, 0), 0);
}

#[test]
fn quiescence_stands_pat_above_beta() {
    let mut p = Position::from_fen("4k3/8/8/8/8/8/8/QQ2K3 w - - 0 1").unwrap();
    let mut tt = TT::new(1);
    let mut s = Search::new(lmr_table());
    let pr = params(None);
    let e = evaluate(&p);
    assert!(e > 100);
    assert_eq!(s.quiesce(&mut tt, &pr, &mut p, -INF, 100, 3), e);
}

#[test]
fn search_from_a_late_clock_root() {
    // The clock stands at 200: every quiet reply is a draw, but the root
    // itself is searched and a legal best move comes back.
    let fen = "4k3/8/8/8/8/8/8/R3K3 w - - 200 150";
    let mut p = Position::from_fen(fen).unwrap();
    let mut tt = TT::new(1);
    let mut s = Search::new(lmr_table());
    let pr = params(None);
    let mut prev = 0;
    for d in 1..=3 {
        s.new_iteration();
        prev = s.iterate(&mut tt, &pr, &mut p, d, prev);
    }
    assert_eq!(prev, 0);
    let best = s.best_root_move();
    assert!(!best.is_null());
    let list = lib::movegen::generate_legal_moves(&p);
    assert!((0..list.len).any(|i| list.moves[i] == best));
    assert_eq!(p.to_fen(), fen);
}

#[test]
fn best_root_move_is_generated() {
    for fen in [
        "rnbqkbnr/pppppppp/8/8/8/8/PPPPPPPP/RNBQKBNR w KQkq - 0 1",
        "r3k2r/p1ppqpb1/bn2pnp1/3PN3/1p2P3/2N2Q1p/PPPBBPPP/R3K2R w KQkq - 0 1",
    ] {
        let mut p = Position::from_fen(fen).unwrap();
        let mut tt = TT::new(1);
        let mut s = Search::new(lmr_table());
        let pr = params(None);
        let mut prev = 0;
        for d in 1..=5 {
            s.new_iteration();
            prev = s.iterate(&mut tt, &pr, &mut p, d, prev);
            let best = s.best_root_move();
            let list = lib::movegen::generate_legal_moves(&p);
            assert!((0..list.len).any(|i| list.moves[i] == best));
        }
        assert!(prev > -INF);
    }
}

#[test]
fn deepening_steps() {
    assert!(matches!(id_step(true, 3, 50), IdStep::Drop));
    assert!(matches!(id_step(true, 1, 50), IdStep::More));
    assert!(matches!(id_step(false, 5, MATE_SCORE - 3), IdStep::Last));
    assert!(matches!(id_step(false, 5, -(MATE_SCORE - 4)), IdStep::Last));
    assert!(matches!(id_step(false, 5, MATE_THRESHOLD), IdStep::More));
}

#[test]
fn score_texts() {
    assert_eq!(score_text(35), "cp 35");
    assert_eq!(score_text(-120), "cp -120");
    assert_eq!(score_text(0), "cp 0");
    assert_eq!(score_text(MATE_SCORE - 5), "mate 3");
    assert_eq!(score_text(-(MATE_SCORE - 4)), "mate -2");
    assert_eq!(score_text(MATE_THRESHOLD), "cp 29000");
}

#[test]
fn iteration_bookkeeping() {
    let st = id_start();
    assert!(st.result.best_move.is_null());
    let m = Move::new(12, 28, 1);
    let (st, drop) = record_iteration(st, 1, 30, m, 100);
    assert_eq!(drop, -30);
    assert_eq!(st.result.best_move, m);
    assert_eq!(st.result.score, 30);
    assert_eq!(st.result.depth, 1);
    assert_eq!(st.result.nodes, 100);
    assert_eq!(st.stability, 0);
    let (st, drop) = record_iteration(st, 2, -10, m, 300);
    assert_eq!(drop, 40);
    assert_eq!(st.stability, 1);
    assert_eq!(st.result.score, -10);
    let (st, _) = record_iteration(st, 3, 5, Move(0), 500);
    assert_eq!(st.result.depth, 2);
    assert_eq!(st.result.score, -10);
    assert_eq!(st.result.nodes, 500);
    assert_eq!(st.stability, 0);
    assert!(st.prev_best.is_null());
}

#[test]
fn time_scaling() {
    // Fresh best move, no drop, no node information: 160%.
    assert_eq!(time_scale(0, 0, 0, 0), 160);
    // Stable move (70%), big drop (160%), best move took 90% of nodes (60%).
    assert_eq!(time_scale(5, 100, 90, 100), 67);
    // Unstable (160%), drop of 40 (130%), best move took 10% of nodes (150%): capped at 280%.
    assert_eq!(time_scale(0, 40, 10, 100), 280);
    // Stability 3 (85%), small drop, even split (100%).
    assert_eq!(time_scale(3, 10, 50, 100), 85);
    // Stable move and a confident node share: 70% of 60%.
    assert_eq!(time_scale(4, 0, 95, 100), 42);
    assert!(soft_limit_reached(1000, 1000, 100));
    assert!(!soft_limit_reached(999, 1000, 100));
    assert!(soft_limit_reached(1600, 1000, 160));
    assert!(!soft_limit_reached(1599, 1000, 160));
}

#[test]
fn evaluation_preconditions() {
    assert!(eval_ready(&Position::startpos()));
    let promoted = Position::from_fen("P3k3/8/8/8/8/8/8/4K3 w - - 0 1").unwrap();
    assert!(!eval_ready(&promoted));
    let low_black = Position::from_fen("4k3/8/8/8/8/8/8/p3K3 w - - 0 1").unwrap();
    assert!(!eval_ready(&low_black));
    let no_king = Position::from_fen("4k3/8/8/8/8/8/8/QQ6 w - - 0 1").unwrap();
    assert!(!eval_ready(&no_king));
    let light = Position::from_fen("4k3/8/8/8/8/8/8/N7 w - - 0 1").unwrap();
    assert!(eval_ready(&light));
}
