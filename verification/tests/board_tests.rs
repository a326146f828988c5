use lib::board::moves::{Move, FLAG_CAPTURE, FLAG_DOUBLE_PUSH, FLAG_EP, FLAG_PROMO_Q, FLAG_QUIET};
use lib::board::position::Position;
use lib::board::types::{file_of, make_square, parse_sq, rank_of, sq_name, Color, Piece};
use lib::movegen::generate_legal_moves;
use lib::uci::perft;

const START: &str = "rnbqkbnr/pppppppp/8/8/8/8/PPPPPPPP/RNBQKBNR w KQkq - 0 1";
const KIWIPETE: &str = "r3k2r/p1ppqpb1/bn2pnp1/3PN3/1p2P3/2N2Q1p/PPPBBPPP/R3K2R w KQkq - 0 1";
const POS3: &str = "8/2p5/3p4/KP5r/1R3p1k/8/4P1P1/8 w - - 0 1";
const POS4: &str = "r3k2r/Pppp1ppp/1b3nbN/nP6/BBP1P3/q4N2/Pp1P2PP/R2Q1RK1 w kq - 0 1";
const POS5: &str = "rnbq1k1r/pp1Pbppp/2p5/8/2B5/8/PPP1NnPP/RNBQK2R w KQ - 1 8";

fn pos(fen: &str) -> Position {
    Position::from_fen(fen).unwrap()
}

#[test]
fn perft_startpos_shallow() {
    let mut p = Position::startpos();
    assert_eq!(perft(&mut p, 0), 1);
    assert_eq!(perft(&mut p, 1), 20);
    assert_eq!(perft(&mut p, 2), 400);
    assert_eq!(perft(&mut p, 3), 8902);
}

#[test]
fn perft_kiwipete() {
    let mut p = pos(KIWIPETE);
    assert_eq!(perft(&mut p, 1), 48);
    assert_eq!(perft(&mut p, 2), 2039);
    assert_eq!(perft(&mut p, 3), 97862);
}

#[test]
fn perft_endgame_position() {
    let mut p = pos(POS3);
    assert_eq!(perft(&mut p, 1), 14);
    assert_eq!(perft(&mut p, 2), 191);
    assert_eq!(perft(&mut p, 3), 2812);
}

#[test]
fn perft_promotions_position() {
    let mut p = pos(POS4);
    assert_eq!(perft(&mut p, 1), 6);
    assert_eq!(perft(&mut p, 2), 264);
    assert_eq!(perft(&mut p, 3), 9467);
}

#[test]
fn perft_position_five() {
    let mut p = pos(POS5);
    assert_eq!(perft(&mut p, 1), 44);
    assert_eq!(perft(&mut p, 2), 1486);
}

#[test]
fn perft_leaves_position_unchanged() {
    let mut p = pos(KIWIPETE);
    let before = p.to_fen();
    let z = p.zobrist;
    perft(&mut p, 3);
    assert_eq!(p.to_fen(), before);
    assert_eq!(p.zobrist, z);
}

#[test]
fn fen_round_trips() {
    for fen in [START, KIWIPETE, POS3, POS4, POS5, "8/8/8/3pP3/8/8/8/4K2k w - d6 0 3"] {
        let p = pos(fen);
        assert_eq!(p.to_fen(), fen);
    }
}

#[test]
fn startpos_matches_its_fen() {
    let a = Position::startpos();
    let b = pos(START);
    assert_eq!(a.to_fen(), START);
    assert_eq!(a.zobrist, b.zobrist);
    assert_eq!(a.pawn_zobrist, b.pawn_zobrist);
    assert_eq!(a.all, b.all);
}

#[test]
fn fen_errors() {
    assert!(Position::from_fen("").is_err());
    assert!(Position::from_fen("rnbqkbnr/pppppppp/8/8/8/8/PPPPPPPP/RNBQKBNR").is_err());
    assert!(Position::from_fen("rnbqkbnr/pppppppp/8/8/8/8/PPPPPPPP/RNBQKBNR x KQkq - 0 1").is_err());
    assert!(Position::from_fen("rnbqkbnr/pppppppp/8/8/8/8/PPPPPPPP/RNBQKXNR w KQkq - 0 1").is_err());
}

#[test]
fn fen_fields_are_read() {
    let p = pos("8/8/8/3pP3/8/8/8/4K2k w - d6 0 3");
    assert_eq!(p.side, Color::White);
    assert_eq!(p.ep_square, parse_sq("d6").unwrap());
    assert_eq!(p.halfmove_clock, 0);
    assert_eq!(p.fullmove, 3);
    assert_eq!(p.castling, 0);
    let q = pos(START);
    assert_eq!(q.castling, 15);
    assert_eq!(q.piece_at(4), Some((Color::White, Piece::King)));
    assert_eq!(q.piece_at(59), Some((Color::Black, Piece::Queen)));
    assert_eq!(q.piece_at(27), None);
}

#[test]
fn consistent_positions_validate() {
    for fen in [START, KIWIPETE, POS3, POS4, POS5] {
        assert_eq!(pos(fen).validate(), None);
    }
}

#[test]
fn fen_without_clocks_reads_defaults() {
    let p = pos("4k3/8/8/8/8/8/8/4K2R w K -");
    assert_eq!(p.halfmove_clock, 0);
    assert_eq!(p.fullmove, 1);
    assert!(p.history.is_empty());
    assert_eq!(p.validate(), None);
    assert_eq!(p.zobrist, pos("4k3/8/8/8/8/8/8/4K2R w K - 0 1").zobrist);
}

#[test]
fn pawn_moves_have_pawn_shape() {
    let p = pos("2r1k3/1P6/8/8/8/8/4P3/4K3 w - - 0 1");
    let list = generate_legal_moves(&p);
    let moves: Vec<Move> = (0..list.len).map(|i| list.moves[i]).collect();
    let pawns = [parse_sq("b7").unwrap(), parse_sq("e2").unwrap()];
    let mut promos = 0;
    for m in &moves {
        if p.piece_at(m.from()) != Some((Color::White, Piece::Pawn)) {
            continue;
        }
        assert!(pawns.contains(&m.from()));
        assert_eq!(m.is_promotion(), rank_of(m.to()) == 7);
        if m.is_promotion() {
            promos += 1;
            let base = m.flags() & 12;
            for b in 0..4 {
                assert!(moves.contains(&Move::new(m.from(), m.to(), base + b)));
            }
        }
        if m.flags() == FLAG_DOUBLE_PUSH {
            assert_eq!(rank_of(m.from()), 1);
            assert_eq!(m.to(), m.from() + 16);
        }
    }
    // b7-b8 and b7xc8, four promotions each.
    assert_eq!(promos, 8);
    assert!(moves.contains(&Move::new(12, 28, FLAG_DOUBLE_PUSH)));
}

#[test]
fn generated_moves_are_distinct() {
    for fen in [START, KIWIPETE, POS3, POS4, POS5] {
        let p = pos(fen);
        let list = generate_legal_moves(&p);
        let moves: Vec<Move> = (0..list.len).map(|i| list.moves[i]).collect();
        for i in 0..moves.len() {
            for j in (i + 1)..moves.len() {
                assert_ne!(moves[i], moves[j]);
            }
        }
    }
}

#[test]
fn generated_moves_make_and_unmake() {
    for fen in [START, KIWIPETE, POS3, POS4, POS5] {
        let mut p = pos(fen);
        let list = generate_legal_moves(&p);
        for i in 0..list.len {
            let m = list.moves[i];
            p.make_move(m);
            let q = pos(&p.to_fen());
            assert_eq!(p.zobrist, q.zobrist);
            assert_eq!(p.pawn_zobrist, q.pawn_zobrist);
            assert_eq!(p.validate(), None);
            p.unmake_move(m);
            assert_eq!(p.to_fen(), fen);
            assert_eq!(p.zobrist, pos(fen).zobrist);
            assert!(p.history.is_empty());
        }
    }
}

#[test]
fn is_attacked_agrees_with_attackers() {
    for fen in [START, KIWIPETE, POS3, POS4, POS5] {
        let p = pos(fen);
        for sq in 0..64u32 {
            for c in [Color::White, Color::Black] {
                let ci = if c == Color::White { 0 } else { 1 };
                let a = lib::board::attacks::attackers_to(sq, p.all, &p.pieces) & p.occupancy[ci];
                assert_eq!(p.is_attacked(sq, c), a != 0);
            }
        }
    }
}

#[test]
fn squares_by_name() {
    assert_eq!(parse_sq("a1"), Some(0));
    assert_eq!(parse_sq("h8"), Some(63));
    assert_eq!(parse_sq("e4"), Some(28));
    assert_eq!(parse_sq("i1"), None);
    assert_eq!(parse_sq("a9"), None);
    assert_eq!(parse_sq("e"), None);
    assert_eq!(sq_name(28), "e4");
    assert_eq!(sq_name(63), "h8");
    assert_eq!(rank_of(28), 3);
    assert_eq!(file_of(28), 4);
    assert_eq!(make_square(3, 4), 28);
}

#[test]
fn move_encoding() {
    let m = Move::new(12, 28, FLAG_DOUBLE_PUSH);
    assert_eq!(m.from(), 12);
    assert_eq!(m.to(), 28);
    assert_eq!(m.flags(), FLAG_DOUBLE_PUSH);
    assert!(m.is_double_push());
    assert!(!m.is_capture());
    assert_eq!(m.to_uci(), "e2e4");
    let p = Move::new(52, 60, FLAG_PROMO_Q);
    assert!(p.is_promotion());
    assert_eq!(p.promo_piece(), 3);
    assert_eq!(p.to_uci(), "e7e8q");
    assert!(Move::new(35, 42, FLAG_EP).is_ep());
    assert!(Move::new(35, 42, FLAG_EP).is_capture());
    assert!(Move::new(1, 18, FLAG_CAPTURE).is_capture());
    assert!(Move(0).is_null());
    assert_eq!(Move(0).to_uci(), "0000");
    assert!(!Move::new(1, 18, FLAG_QUIET).is_null());
}

#[test]
fn make_and_unmake_restore_the_position() {
    let mut p = pos(KIWIPETE);
    let before = p.to_fen();
    let z = p.zobrist;
    let pz = p.pawn_zobrist;
    let moves = generate_legal_moves(&p);
    for m in moves.iter() {
        p.make_move(m);
        assert_ne!(p.to_fen(), before);
        assert_eq!(p.validate(), None);
        p.unmake_move(m);
        assert_eq!(p.to_fen(), before);
        assert_eq!(p.zobrist, z);
        assert_eq!(p.pawn_zobrist, pz);
    }
}

#[test]
fn incremental_hash_matches_fresh_hash() {
    let mut p = pos(KIWIPETE);
    let moves = generate_legal_moves(&p);
    for m in moves.iter() {
        p.make_move(m);
        let fresh = pos(&p.to_fen());
        assert_eq!(p.zobrist, fresh.zobrist);
        assert_eq!(p.pawn_zobrist, fresh.pawn_zobrist);
        p.unmake_move(m);
    }
}

#[test]
fn null_move_round_trip() {
    let mut p = pos("8/8/8/3pP3/8/8/8/4K2k w - d6 0 3");
    let before = p.to_fen();
    let z = p.zobrist;
    p.make_null_move();
    assert_eq!(p.side, Color::Black);
    assert_eq!(p.ep_square, 64);
    assert_eq!(p.to_fen(), "8/8/8/3pP3/8/8/8/4K2k b - - 1 3");
    p.unmake_null_move();
    assert_eq!(p.to_fen(), before);
    assert_eq!(p.zobrist, z);
}

#[test]
fn check_detection() {
    let p = pos("4k3/8/8/8/8/8/8/4R1K1 b - - 0 1");
    assert!(p.in_check());
    assert_eq!(p.king_sq(Color::Black), 60);
    assert!(p.is_attacked(60, Color::White));
    assert!(!p.is_attacked(59, Color::White));
    let q = Position::startpos();
    assert!(!q.in_check());
}

#[test]
fn repetition_after_knight_shuffle() {
    let mut p = Position::startpos();
    let seq = ["g1f3", "g8f6", "f3g1", "f6g8"];
    for s in seq {
        let m = lib::uci::parse_uci_move(&p, s).unwrap();
        p.make_move(m);
    }
    assert!(p.is_repetition());
    let q = Position::startpos();
    assert!(!q.is_repetition());
}

#[test]
fn checkmate_has_no_moves() {
    let p = pos("R5k1/5ppp/8/8/8/8/8/6K1 b - - 0 1");
    assert!(p.in_check());
    assert_eq!(generate_legal_moves(&p).len, 0);
    let stalemate = pos("7k/5Q2/6K1/8/8/8/8/8 b - - 0 1");
    assert!(!stalemate.in_check());
    assert_eq!(generate_legal_moves(&stalemate).len, 0);
}
