use lib::board::moves::{Move, FLAG_CAPTURE, FLAG_QUIET};
use lib::board::position::Position;
use lib::crosscheck::{brute_force_legal_count, find_illegal_moves, perft_crosscheck, perft_divide, pseudo_legal_moves, move_sound_exec};
use lib::movegen::generate_legal_moves;
use lib::uci::{count_move_types, parse_go_options, parse_position_args, parse_u64, parse_uci_move, perft_validating, time_limits};

const KIWIPETE: &str = "r3k2r/p1ppqpb1/bn2pnp1/3PN3/1p2P3/2N2Q1p/PPPBBPPP/R3K2R w KQkq - 0 1";

#[test]
fn uci_moves_are_matched_against_legal_moves() {
    let p = Position::startpos();
    let m = parse_uci_move(&p, "e2e4").unwrap();
    assert_eq!(m.from(), 12);
    assert_eq!(m.to(), 28);
    assert!(m.is_double_push());
    assert!(parse_uci_move(&p, "e2e5").is_none());
    assert!(parse_uci_move(&p, "e7e5").is_none());
    assert!(parse_uci_move(&p, "zz").is_none());
    let k = Position::from_fen(KIWIPETE).unwrap();
    let c = parse_uci_move(&k, "e1g1").unwrap();
    assert!(c.is_castle());
    let pr = Position::from_fen("8/P7/8/8/8/8/8/k6K w - - 0 1").unwrap();
    let q = parse_uci_move(&pr, "a7a8q").unwrap();
    assert!(q.is_promotion());
    assert_eq!(q.promo_piece(), 3);
    let n = parse_uci_move(&pr, "a7a8n").unwrap();
    assert_eq!(n.promo_piece(), 0);
    assert!(parse_uci_move(&pr, "a7a8").is_none());
}

#[test]
fn go_arguments() {
    let g = parse_go_options(&["wtime", "60000", "btime", "50000", "winc", "1000", "binc", "500", "movestogo", "30"]);
    assert_eq!(g.wtime, Some(60000));
    assert_eq!(g.btime, Some(50000));
    assert_eq!(g.winc, 1000);
    assert_eq!(g.binc, 500);
    assert_eq!(g.movestogo, 30);
    assert_eq!(g.movetime, None);
    let d = parse_go_options(&["depth", "7", "nodes", "12345"]);
    assert_eq!(d.depth, Some(7));
    assert_eq!(d.nodes, Some(12345));
    assert_eq!(d.movestogo, 20);
    let i = parse_go_options(&["infinite"]);
    assert_eq!(i.depth, Some(64));
    let bad = parse_go_options(&["wtime", "abc", "winc", "x", "movestogo"]);
    assert_eq!(bad.wtime, None);
    assert_eq!(bad.winc, 0);
    assert_eq!(bad.movestogo, 20);
    let mt = parse_go_options(&["movetime", "2000"]);
    assert_eq!(mt.movetime, Some(2000));
}

#[test]
fn time_allocation() {
    let g = parse_go_options(&["wtime", "60000", "btime", "50000", "winc", "1000"]);
    let w = time_limits(&g, true);
    assert_eq!(w.soft_limit, Some(3500));
    assert_eq!(w.hard_limit, Some(10500));
    assert_eq!(w.depth_limit, None);
    let b = time_limits(&g, false);
    assert_eq!(b.soft_limit, Some(2500));
    assert_eq!(b.hard_limit, Some(7500));
    let short = parse_go_options(&["wtime", "1000", "winc", "2000"]);
    let s = time_limits(&short, true);
    assert_eq!(s.soft_limit, Some(900));
    assert_eq!(s.hard_limit, Some(900));
    let mt = parse_go_options(&["movetime", "2000", "depth", "5"]);
    let m = time_limits(&mt, true);
    assert_eq!(m.soft_limit, Some(1900));
    assert_eq!(m.hard_limit, Some(2000));
    assert_eq!(m.depth_limit, Some(5));
    let none = parse_go_options(&[]);
    let n = time_limits(&none, true);
    assert_eq!(n.soft_limit, None);
    assert_eq!(n.hard_limit, None);
    assert_eq!(n.depth_limit, Some(64));
}

#[test]
fn position_arguments() {
    let a = parse_position_args("startpos moves e2e4 e7e5");
    assert_eq!(a.fen, None);
    assert_eq!(a.moves_from, Some(14));
    let rest = "fen 8/8/8/8/8/8/8/k6K w - - 0 1 moves h1g1";
    let b = parse_position_args(rest);
    let (s, e) = b.fen.unwrap();
    assert_eq!(&rest[s..e], "8/8/8/8/8/8/8/k6K w - - 0 1");
    assert_eq!(&rest[b.moves_from.unwrap()..], " h1g1");
    let c = parse_position_args("startpos");
    assert_eq!(c.fen, None);
    assert_eq!(c.moves_from, None);
    let d = parse_position_args("");
    assert_eq!(d.fen, None);
    assert_eq!(d.moves_from, None);
}

#[test]
fn decimal_numbers() {
    assert_eq!(parse_u64(b"0", u64::MAX), Some(0));
    assert_eq!(parse_u64(b"12345", u64::MAX), Some(12345));
    assert_eq!(parse_u64(b"18446744073709551615", u64::MAX), Some(u64::MAX));
    assert_eq!(parse_u64(b"18446744073709551616", u64::MAX), None);
    assert_eq!(parse_u64(b"300", 255), None);
    assert_eq!(parse_u64(b"", u64::MAX), None);
    assert_eq!(parse_u64(b"12a", u64::MAX), None);
}

#[test]
fn move_types_at_depth_three() {
    let mut p = Position::startpos();
    let mut counts = [0u64; 16];
    count_move_types(&mut p, 3, &mut counts);
    assert_eq!(counts.iter().sum::<u64>(), 8902);
    assert_eq!(counts[4], 34);
    assert_eq!(counts[5], 0);
    assert_eq!(counts[2] + counts[3], 0);
    let mut k = Position::from_fen(KIWIPETE).unwrap();
    let mut kc = [0u64; 16];
    count_move_types(&mut k, 1, &mut kc);
    assert_eq!(kc[2], 1);
    assert_eq!(kc[3], 1);
    assert_eq!(kc[4], 8);
}

#[test]
fn validating_perft() {
    let mut p = Position::from_fen(KIWIPETE).unwrap();
    assert_eq!(perft_validating(&mut p, 2), 2039);
    let mut s = Position::startpos();
    assert_eq!(perft_validating(&mut s, 3), 8902);
}

#[test]
fn brute_force_agrees_with_the_generator() {
    for fen in [
        "rnbqkbnr/pppppppp/8/8/8/8/PPPPPPPP/RNBQKBNR w KQkq - 0 1",
        KIWIPETE,
        "8/2p5/3p4/KP5r/1R3p1k/8/4P1P1/8 w - - 0 1",
        "r3k2r/Pppp1ppp/1b3nbN/nP6/BBP1P3/q4N2/Pp1P2PP/R2Q1RK1 w kq - 0 1",
        "rnbq1k1r/pp1Pbppp/2p5/8/2B5/8/PPP1NnPP/RNBQK2R w KQ - 1 8",
    ] {
        let mut p = Position::from_fen(fen).unwrap();
        let fast = generate_legal_moves(&p).len;
        assert_eq!(brute_force_legal_count(&mut p), fast);
        assert_eq!(p.to_fen(), fen);
    }
}

#[test]
fn pseudo_legal_moves_of_the_start() {
    let p = Position::startpos();
    let ps = pseudo_legal_moves(&p);
    assert_eq!(ps.len(), 20);
    for m in &ps {
        assert!(move_sound_exec(&p, *m));
    }
    let k = Position::from_fen(KIWIPETE).unwrap();
    let kp = pseudo_legal_moves(&k);
    assert!(kp.len() >= 48);
}

#[test]
fn crosscheck_perft_reports_nothing() {
    let mut p = Position::from_fen(KIWIPETE).unwrap();
    let mut reports = Vec::new();
    assert_eq!(perft_crosscheck(&mut p, 2, &mut reports), 2039);
    assert!(reports.is_empty());
}

#[test]
fn divide_by_first_move() {
    let mut p = Position::startpos();
    let (counts, total) = perft_divide(&mut p, 3);
    assert_eq!(counts.len(), 20);
    assert_eq!(total, 8902);
    assert_eq!(counts.iter().map(|c| c.1).sum::<u64>(), 8902);
    let e2e4 = counts.iter().find(|c| c.0.to_uci() == "e2e4").unwrap();
    assert_eq!(e2e4.1, 600);
    let (one, t1) = perft_divide(&mut p, 1);
    assert_eq!(t1, 20);
    assert!(one.iter().all(|c| c.1 == 1));
}

#[test]
fn generator_makes_no_illegal_moves() {
    let mut p = Position::from_fen(KIWIPETE).unwrap();
    let mut notes = Vec::new();
    assert_eq!(find_illegal_moves(&mut p, 2, &mut notes), 0);
    assert!(notes.is_empty());
}

#[test]
fn move_soundness_check() {
    let p = Position::from_fen("4r2k/8/8/8/8/8/4N3/4K3 w - - 0 1").unwrap();
    assert!(move_sound_exec(&p, Move::new(12, 29, FLAG_QUIET)));
    assert!(!move_sound_exec(&p, Move::new(12, 29, FLAG_CAPTURE)));
    assert!(!move_sound_exec(&p, Move::new(12, 4, FLAG_QUIET)));
    assert!(!move_sound_exec(&p, Move::new(20, 29, FLAG_QUIET)));
    assert!(move_sound_exec(&p, Move::new(12, 60, FLAG_CAPTURE)));
    assert!(!move_sound_exec(&p, Move::new(4, 6, lib::board::moves::FLAG_CASTLE_KS)));
}
