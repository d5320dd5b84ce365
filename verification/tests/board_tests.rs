use chess::{Board, Color, Move, Piece, Sq};

const START: &str = "rnbqkbnr/pppppppp/8/8/8/8/PPPPPPPP/RNBQKBNR w KQkq - 0 1";

fn sq(name: &str) -> Sq {
    Sq::from_algebraic(name).unwrap()
}

fn uci(board: &Board) -> Vec<String> {
    board.legal_moves().iter().map(|m| m.to_string()).collect()
}

fn sorted(mut v: Vec<String>) -> Vec<String> {
    v.sort();
    v
}

fn find(board: &Board, text: &str) -> Move {
    *board
        .legal_moves()
        .iter()
        .find(|m| m.to_string() == text)
        .unwrap_or_else(|| panic!("move {text} not legal"))
}

fn perft(board: &Board, depth: u32) -> u64 {
    if depth == 0 {
        return 1;
    }
    let moves = board.legal_moves();
    if depth == 1 {
        return moves.len() as u64;
    }
    moves.iter().map(|m| perft(&board.apply_move(*m), depth - 1)).sum()
}

fn same_board(a: &Board, b: &Board) -> bool {
    for r in 0..8u8 {
        for f in 0..8u8 {
            if a.get(Sq::new(f, r)) != b.get(Sq::new(f, r)) {
                return false;
            }
        }
    }
    a.turn == b.turn && a.castling == b.castling && a.en_passant == b.en_passant
}

#[test]
fn flip_swaps_colors() {
    assert_eq!(Color::White.flip(), Color::Black);
    assert_eq!(Color::Black.flip(), Color::White);
    assert_eq!(Color::White.flip().flip(), Color::White);
}

#[test]
fn square_new_keeps_coordinates() {
    let s = Sq::new(4, 1);
    assert_eq!(s.file, 4);
    assert_eq!(s.rank, 1);
}

#[test]
fn from_algebraic_reads_squares() {
    assert_eq!(Sq::from_algebraic("e2"), Some(Sq::new(4, 1)));
    assert_eq!(Sq::from_algebraic("a1"), Some(Sq::new(0, 0)));
    assert_eq!(Sq::from_algebraic("h8"), Some(Sq::new(7, 7)));
    assert_eq!(Sq::from_algebraic("e2e4"), Some(Sq::new(4, 1)));
}

#[test]
fn from_algebraic_rejects_bad_text() {
    assert_eq!(Sq::from_algebraic(""), None);
    assert_eq!(Sq::from_algebraic("e"), None);
    assert_eq!(Sq::from_algebraic("i1"), None);
    assert_eq!(Sq::from_algebraic("a9"), None);
    assert_eq!(Sq::from_algebraic("a0"), None);
    assert_eq!(Sq::from_algebraic("E2"), None);
    assert_eq!(Sq::from_algebraic("é2"), None);
    assert_eq!(Sq::from_algebraic("aé"), None);
}

#[test]
fn square_names_round_trip() {
    for r in 0..8u8 {
        for f in 0..8u8 {
            let s = Sq::new(f, r);
            let name = s.to_string();
            assert_eq!(name.len(), 2);
            assert_eq!(Sq::from_algebraic(&name), Some(s));
        }
    }
    assert_eq!(Sq::new(4, 1).to_string(), "e2");
    assert_eq!(Sq::new(0, 7).to_string(), "a8");
}

#[test]
fn move_names_in_uci() {
    let m = Move { from: sq("e2"), to: sq("e4"), promotion: None };
    assert_eq!(m.to_string(), "e2e4");
    let q = Move { from: sq("e7"), to: sq("e8"), promotion: Some(Piece::Queen) };
    assert_eq!(q.to_string(), "e7e8q");
    let n = Move { from: sq("a2"), to: sq("a1"), promotion: Some(Piece::Knight) };
    assert_eq!(n.to_string(), "a2a1n");
    let r = Move { from: sq("b7"), to: sq("b8"), promotion: Some(Piece::Rook) };
    assert_eq!(r.to_string(), "b7b8r");
    let b = Move { from: sq("b7"), to: sq("b8"), promotion: Some(Piece::Bishop) };
    assert_eq!(b.to_string(), "b7b8b");
    let k = Move { from: sq("b7"), to: sq("b8"), promotion: Some(Piece::King) };
    assert_eq!(k.to_string(), "b7b8");
}

#[test]
fn starting_position_layout() {
    let b = Board::starting_position();
    assert_eq!(b.turn, Color::White);
    assert_eq!(b.castling, [true; 4]);
    assert_eq!(b.en_passant, None);
    assert_eq!(b.get(sq("e1")), Some((Color::White, Piece::King)));
    assert_eq!(b.get(sq("d8")), Some((Color::Black, Piece::Queen)));
    assert_eq!(b.get(sq("a1")), Some((Color::White, Piece::Rook)));
    assert_eq!(b.get(sq("g8")), Some((Color::Black, Piece::Knight)));
    assert_eq!(b.get(sq("c2")), Some((Color::White, Piece::Pawn)));
    assert_eq!(b.get(sq("f7")), Some((Color::Black, Piece::Pawn)));
    assert_eq!(b.get(sq("e4")), None);
}

#[test]
fn starting_position_matches_its_fen() {
    let a = Board::starting_position();
    let b = Board::from_fen(START).unwrap();
    assert!(same_board(&a, &b));
}

#[test]
fn starting_position_has_twenty_moves() {
    let b = Board::starting_position();
    let moves = uci(&b);
    assert_eq!(moves.len(), 20);
    let expected = vec![
        "a2a3", "a2a4", "b1a3", "b1c3", "b2b3", "b2b4", "c2c3", "c2c4", "d2d3", "d2d4", "e2e3",
        "e2e4", "f2f3", "f2f4", "g1f3", "g1h3", "g2g3", "g2g4", "h2h3", "h2h4",
    ];
    assert_eq!(sorted(moves), expected);
}

#[test]
fn moves_come_square_by_square() {
    let b = Board::starting_position();
    let moves = uci(&b);
    assert_eq!(&moves[..6], &["b1a3", "b1c3", "g1f3", "g1h3", "a2a3", "a2a4"]);
}

#[test]
fn perft_starting_position() {
    let b = Board::starting_position();
    assert_eq!(perft(&b, 1), 20);
    assert_eq!(perft(&b, 2), 400);
    assert_eq!(perft(&b, 3), 8902);
}

#[test]
fn perft_kiwipete() {
    let b = Board::from_fen("r3k2r/p1ppqpb1/bn2pnp1/3PN3/1p2P3/2N2Q1p/PPPBBPPP/R3K2R w KQkq - 0 1").unwrap();
    assert_eq!(perft(&b, 1), 48);
    assert_eq!(perft(&b, 2), 2039);
}

#[test]
fn perft_rook_endgame() {
    let b = Board::from_fen("8/2p5/3p4/KP5r/1R3p1k/8/4P1P1/8 w - - 0 1").unwrap();
    assert_eq!(perft(&b, 1), 14);
    assert_eq!(perft(&b, 2), 191);
    assert_eq!(perft(&b, 3), 2812);
}

#[test]
fn perft_promotions_and_castling() {
    let b = Board::from_fen("r3k2r/Pppp1ppp/1b3nbN/nP6/BBP1P3/q4N2/Pp1P2PP/R2Q1RK1 w kq - 0 1").unwrap();
    assert_eq!(perft(&b, 1), 6);
    assert_eq!(perft(&b, 2), 264);
    let c = Board::from_fen("rnbq1k1r/pp1Pbppp/2p5/8/2B5/8/PPP1NnPP/RNBQK2R w KQ - 1 8").unwrap();
    assert_eq!(perft(&c, 1), 44);
    assert_eq!(perft(&c, 2), 1486);
}

#[test]
fn from_fen_defaults_missing_fields() {
    let b = Board::from_fen("4k3/8/8/8/8/8/8/4K3").unwrap();
    assert_eq!(b.turn, Color::White);
    assert_eq!(b.castling, [true; 4]);
    assert_eq!(b.en_passant, None);
    assert_eq!(b.get(sq("e8")), Some((Color::Black, Piece::King)));
    assert_eq!(b.get(sq("e1")), Some((Color::White, Piece::King)));
}

#[test]
fn from_fen_reads_fields() {
    let b = Board::from_fen("4k3/8/8/8/4P3/8/8/4K3 b Kq e3 0 1").unwrap();
    assert_eq!(b.turn, Color::Black);
    assert_eq!(b.castling, [true, false, false, true]);
    assert_eq!(b.en_passant, Some(sq("e3")));
    let c = Board::from_fen("4k3/8/8/8/8/8/8/4K3 w - - 0 1").unwrap();
    assert_eq!(c.castling, [false; 4]);
    assert_eq!(c.en_passant, None);
    let d = Board::from_fen("4k3/8/8/8/8/8/8/4K3 x KQkq zz").unwrap();
    assert_eq!(d.turn, Color::White);
    assert_eq!(d.en_passant, None);
}

#[test]
fn from_fen_rejects_bad_placement() {
    assert!(Board::from_fen("").is_none());
    assert!(Board::from_fen("   ").is_none());
    assert!(Board::from_fen("8/8/8/8/8/8/8 w - - 0 1").is_none());
    assert!(Board::from_fen("8/8/8/8/8/8/8/8/8 w - - 0 1").is_none());
    assert!(Board::from_fen("rnbqkbnr/ppppxppp/8/8/8/8/PPPPPPPP/RNBQKBNR w KQkq - 0 1").is_none());
    assert!(Board::from_fen("ppppppppp/8/8/8/8/8/8/8 w - - 0 1").is_none());
    assert!(Board::from_fen("9p/8/8/8/8/8/8/8 w - - 0 1").is_none());
}

#[test]
fn from_fen_accepts_loose_ranks() {
    // short ranks leave the rest empty; digits may run past the board
    let b = Board::from_fen("k/9/8/8/8/8/8/K w - - 0 1").unwrap();
    assert_eq!(b.get(sq("a8")), Some((Color::Black, Piece::King)));
    assert_eq!(b.get(sq("a1")), Some((Color::White, Piece::King)));
    assert_eq!(b.get(sq("b8")), None);
    let c = Board::from_fen("0k6/8/8/8/8/8/8/7K w").unwrap();
    assert_eq!(c.get(sq("a8")), Some((Color::Black, Piece::King)));
}

#[test]
fn from_fen_splits_on_unicode_white_space() {
    let base = "4k3/8/8/8/8/8/8/4K3";
    for code in 0u32..0x3100 {
        let Some(c) = char::from_u32(code) else { continue };
        let fen = format!("{base}{c}b");
        let parsed = Board::from_fen(&fen);
        if c.is_whitespace() {
            assert_eq!(parsed.unwrap().turn, Color::Black, "code {code:#x}");
        } else if c == '/' {
            assert!(parsed.is_none());
        } else {
            // the character joins the last rank, which then reads it
            if let Some(b) = parsed {
                assert_eq!(b.turn, Color::White, "code {code:#x}");
            }
        }
    }
}

#[test]
fn apply_move_leaves_board_unchanged() {
    let b = Board::starting_position();
    let next = b.apply_move(find(&b, "e2e4"));
    assert!(same_board(&b, &Board::starting_position()));
    assert_eq!(next.turn, Color::Black);
    assert_eq!(next.get(sq("e4")), Some((Color::White, Piece::Pawn)));
    assert_eq!(next.get(sq("e2")), None);
    assert_eq!(next.en_passant, Some(sq("e3")));
}

#[test]
fn en_passant_capture_removes_pawn() {
    let b = Board::from_fen("rnbqkbnr/ppp1p1pp/8/3pPp2/8/8/PPPP1PPP/RNBQKBNR w KQkq f6 0 3").unwrap();
    let moves = uci(&b);
    assert!(moves.contains(&"e5f6".to_string()));
    assert!(!moves.contains(&"e5d6".to_string()));
    let next = b.apply_move(find(&b, "e5f6"));
    assert_eq!(next.get(sq("f6")), Some((Color::White, Piece::Pawn)));
    assert_eq!(next.get(sq("f5")), None);
    assert_eq!(next.get(sq("e5")), None);
    assert_eq!(next.en_passant, None);
}

#[test]
fn en_passant_for_black() {
    let b = Board::from_fen("4k3/8/8/8/3pP3/8/8/4K3 b - e3 0 1").unwrap();
    let next = b.apply_move(find(&b, "d4e3"));
    assert_eq!(next.get(sq("e3")), Some((Color::Black, Piece::Pawn)));
    assert_eq!(next.get(sq("e4")), None);
}

#[test]
fn en_passant_pinned_on_rank_is_illegal() {
    let b = Board::from_fen("8/8/8/KPp4r/8/8/8/7k w - c6 0 1").unwrap();
    let moves = uci(&b);
    assert!(!moves.contains(&"b5c6".to_string()));
    assert!(moves.contains(&"b5b6".to_string()));
}

#[test]
fn castling_both_sides() {
    let b = Board::from_fen("r3k2r/8/8/8/8/8/8/R3K2R w KQkq - 0 1").unwrap();
    let moves = uci(&b);
    assert!(moves.contains(&"e1g1".to_string()));
    assert!(moves.contains(&"e1c1".to_string()));
    let k = b.apply_move(find(&b, "e1g1"));
    assert_eq!(k.get(sq("g1")), Some((Color::White, Piece::King)));
    assert_eq!(k.get(sq("f1")), Some((Color::White, Piece::Rook)));
    assert_eq!(k.get(sq("h1")), None);
    assert_eq!(k.castling, [false, false, true, true]);
    let q = b.apply_move(find(&b, "e1c1"));
    assert_eq!(q.get(sq("c1")), Some((Color::White, Piece::King)));
    assert_eq!(q.get(sq("d1")), Some((Color::White, Piece::Rook)));
    assert_eq!(q.get(sq("a1")), None);
}

#[test]
fn castling_refused_when_blocked_attacked_or_in_check() {
    // blocked
    let b = Board::from_fen("r3k2r/8/8/8/8/8/8/RN2K1NR w KQkq - 0 1").unwrap();
    let moves = uci(&b);
    assert!(!moves.contains(&"e1g1".to_string()));
    assert!(!moves.contains(&"e1c1".to_string()));
    // passing square attacked
    let c = Board::from_fen("4k3/8/8/8/8/8/5r2/R3K2R w KQ - 0 1").unwrap();
    let moves = uci(&c);
    assert!(!moves.contains(&"e1g1".to_string()));
    // in check
    let d = Board::from_fen("4r1k1/8/8/8/8/8/8/R3K2R w KQ - 0 1").unwrap();
    let moves = uci(&d);
    assert!(!moves.contains(&"e1g1".to_string()));
    assert!(!moves.contains(&"e1c1".to_string()));
    // stripped rights
    let e = Board::from_fen("4k3/8/8/8/8/8/8/R3K2R w - - 0 1").unwrap();
    let moves = uci(&e);
    assert!(!moves.contains(&"e1g1".to_string()));
    assert!(!moves.contains(&"e1c1".to_string()));
}

#[test]
fn rook_moves_and_captures_revoke_castling() {
    let b = Board::from_fen("r3k2r/8/8/8/8/8/8/R3K2R w KQkq - 0 1").unwrap();
    let a = b.apply_move(find(&b, "h1h8"));
    assert_eq!(a.castling, [false, true, false, true]);
    let c = b.apply_move(find(&b, "a1b1"));
    assert_eq!(c.castling, [true, false, true, true]);
}

#[test]
fn promotion_offers_four_pieces() {
    let b = Board::from_fen("8/P7/8/8/8/8/8/k6K w - - 0 1").unwrap();
    let moves = uci(&b);
    for p in ["a7a8q", "a7a8r", "a7a8b", "a7a8n"] {
        assert!(moves.contains(&p.to_string()));
    }
    assert!(!moves.contains(&"a7a8".to_string()));
    let next = b.apply_move(find(&b, "a7a8n"));
    assert_eq!(next.get(sq("a8")), Some((Color::White, Piece::Knight)));
}

#[test]
fn black_promotes_by_capture() {
    let b = Board::from_fen("7k/8/8/8/8/8/1p6/R3K3 b - - 0 1").unwrap();
    let moves = uci(&b);
    assert!(moves.contains(&"b2a1q".to_string()));
    assert!(moves.contains(&"b2b1r".to_string()));
}

#[test]
fn pinned_piece_cannot_move() {
    let b = Board::from_fen("4k3/4r3/8/8/8/8/4B3/4K3 w - - 0 1").unwrap();
    let moves = uci(&b);
    assert!(moves.iter().all(|m| !m.starts_with("e2")));
}

#[test]
fn double_check_only_king_moves() {
    let b = Board::from_fen("4k3/8/8/8/1b6/8/3N4/r3K3 w - - 0 1").unwrap();
    assert!(b.is_in_check(Color::White));
    let moves = uci(&b);
    assert!(moves.iter().all(|m| m.starts_with("e1")));
}

#[test]
fn checkmate_and_stalemate() {
    let fools = Board::from_fen("rnb1kbnr/pppp1ppp/8/4p3/6Pq/5P2/PPPPP2P/RNBQKBNR w KQkq - 1 3").unwrap();
    assert!(fools.is_in_check(Color::White));
    assert!(fools.is_checkmate());
    assert!(!fools.is_stalemate());
    assert!(fools.legal_moves().is_empty());
    let stale = Board::from_fen("7k/5Q2/6K1/8/8/8/8/8 b - - 0 1").unwrap();
    assert!(!stale.is_in_check(Color::Black));
    assert!(stale.is_stalemate());
    assert!(!stale.is_checkmate());
    let start = Board::starting_position();
    assert!(!start.is_checkmate());
    assert!(!start.is_stalemate());
}

#[test]
fn no_king_is_never_in_check() {
    let b = Board::from_fen("8/8/8/8/8/8/8/q7 w - - 0 1").unwrap();
    assert!(!b.is_in_check(Color::White));
}

#[test]
fn legal_moves_never_leave_king_in_check() {
    let b = Board::from_fen("r3k2r/p1ppqpb1/bn2pnp1/3PN3/1p2P3/2N2Q1p/PPPBBPPP/R3K2R w KQkq - 0 1").unwrap();
    for m in b.legal_moves() {
        let next = b.apply_move(m);
        assert!(!next.is_in_check(Color::White));
        assert_eq!(next.turn, Color::Black);
        assert!(matches!(b.get(m.from), Some((Color::White, _))));
        for i in 0..4 {
            assert!(!next.castling[i] || b.castling[i]);
        }
    }
}

#[test]
fn single_push_sets_no_en_passant_square() {
    let b = Board::starting_position();
    let next = b.apply_move(find(&b, "e2e3"));
    assert_eq!(next.en_passant, None);
    let knight = b.apply_move(find(&b, "g1f3"));
    assert_eq!(knight.en_passant, None);
}

#[test]
fn a_move_touches_only_its_squares() {
    let b = Board::from_fen("r3k2r/p1ppqpb1/bn2pnp1/3PN3/1p2P3/2N2Q1p/PPPBBPPP/R3K2R w KQkq - 0 1").unwrap();
    let m = find(&b, "e5f7");
    let next = b.apply_move(m);
    for r in 0..8u8 {
        for f in 0..8u8 {
            let s = Sq::new(f, r);
            if s != m.from && s != m.to {
                assert_eq!(next.get(s), b.get(s));
            }
        }
    }
    assert_eq!(next.get(m.to), Some((Color::White, Piece::Knight)));
    assert_eq!(next.get(m.from), None);
}

#[test]
fn legal_moves_are_listed_once() {
    for fen in [
        START,
        "r3k2r/p1ppqpb1/bn2pnp1/3PN3/1p2P3/2N2Q1p/PPPBBPPP/R3K2R w KQkq - 0 1",
        "r3k2r/Pppp1ppp/1b3nbN/nP6/BBP1P3/q4N2/Pp1P2PP/R2Q1RK1 w kq - 0 1",
        "8/P7/8/8/8/8/8/k6K w - - 0 1",
    ] {
        let b = Board::from_fen(fen).unwrap();
        let moves = uci(&b);
        let mut unique = moves.clone();
        unique.sort();
        unique.dedup();
        assert_eq!(unique.len(), moves.len());
    }
}

#[test]
fn legal_moves_leave_squares_on_board() {
    let b = Board::from_fen("r3k2r/Pppp1ppp/1b3nbN/nP6/BBP1P3/q4N2/Pp1P2PP/R2Q1RK1 w kq - 0 1").unwrap();
    for m in b.legal_moves() {
        assert!(m.from.file < 8 && m.from.rank < 8 && m.to.file < 8 && m.to.rank < 8);
        if let Some(p) = m.promotion {
            assert!(p != Piece::Pawn && p != Piece::King);
            assert_eq!(b.get(m.from), Some((Color::White, Piece::Pawn)));
            assert_eq!(m.to.rank, 7);
        }
        match b.get(m.to) {
            Some((c, _)) => assert_eq!(c, Color::Black),
            None => {}
        }
    }
}

#[test]
fn printed_order_is_alphabetical() {
    let b = Board::starting_position();
    let sorted_moves: Vec<String> = chess::sort_moves(b.legal_moves()).iter().map(|m| m.to_string()).collect();
    assert_eq!(sorted_moves.len(), 20);
    assert_eq!(&sorted_moves[..4], &["a2a3", "a2a4", "b1a3", "b1c3"]);
    let mut expected = sorted_moves.clone();
    expected.sort();
    assert_eq!(sorted_moves, expected);
}

#[test]
fn sorting_keeps_every_move_and_orders_promotions() {
    let b = Board::from_fen("1n5k/P7/8/8/8/8/8/7K w - - 0 1").unwrap();
    let moves = b.legal_moves();
    let sorted_moves = chess::sort_moves(moves.clone());
    assert_eq!(sorted_moves.len(), moves.len());
    for m in &moves {
        assert!(sorted_moves.contains(m));
    }
    let names: Vec<String> = sorted_moves.iter().map(|m| m.to_string()).collect();
    let mut expected = names.clone();
    expected.sort();
    assert_eq!(names, expected);
    assert!(names.contains(&"a7b8b".to_string()));
    assert!(chess::sort_moves(Vec::new()).is_empty());
}

#[test]
fn no_castling_without_the_rook() {
    let b = Board::from_fen("4k3/8/8/8/8/8/8/4K3 w KQ - 0 1").unwrap();
    let moves = uci(&b);
    assert!(!moves.contains(&"e1g1".to_string()));
    assert!(!moves.contains(&"e1c1".to_string()));
    let c = Board::from_fen("4k3/8/8/8/8/8/8/R3K1N1 w KQ - 0 1").unwrap();
    let moves = uci(&c);
    assert!(moves.contains(&"e1c1".to_string()));
    assert!(!moves.contains(&"e1g1".to_string()));
    // a rook of the other side on the corner does not count
    let d = Board::from_fen("4k3/8/8/8/8/8/8/4K2r w K - 0 1").unwrap();
    assert!(!uci(&d).contains(&"e1g1".to_string()));
}

#[test]
fn en_passant_square_must_be_empty_with_a_pawn_behind() {
    // the pawn may not take its own knight standing on the en passant square
    let b = Board::from_fen("4k3/8/8/8/8/3N4/4P3/4K3 w - d3 0 1").unwrap();
    assert!(!uci(&b).contains(&"e2d3".to_string()));
    // no enemy pawn behind the en passant square
    let c = Board::from_fen("4k3/8/8/3pP3/8/8/8/4K3 w - f6 0 1").unwrap();
    assert!(!uci(&c).contains(&"e5f6".to_string()));
    // an enemy piece other than a pawn behind it does not count either
    let d = Board::from_fen("4k3/8/8/4Pn2/8/8/8/4K3 w - f6 0 1").unwrap();
    assert!(!uci(&d).contains(&"e5f6".to_string()));
    // a proper en passant capture is still offered
    let e = Board::from_fen("4k3/8/8/3pP3/8/8/8/4K3 w - d6 0 1").unwrap();
    assert!(uci(&e).contains(&"e5d6".to_string()));
}

fn consistent(b: &Board) -> bool {
    let mut kings = [0; 2];
    for r in 0..8u8 {
        for f in 0..8u8 {
            match b.get(Sq::new(f, r)) {
                Some((c, Piece::King)) => kings[c as usize] += 1,
                Some((_, Piece::Pawn)) if r == 0 || r == 7 => return false,
                _ => {}
            }
        }
    }
    if kings != [1, 1] || b.is_in_check(b.turn.flip()) {
        return false;
    }
    let backed = |c: Color, corner: u8, right: usize| {
        let home = if c == Color::White { 0 } else { 7 };
        !b.castling[right]
            || (b.get(Sq::new(4, home)) == Some((c, Piece::King))
                && b.get(Sq::new(corner, home)) == Some((c, Piece::Rook)))
    };
    if !(backed(Color::White, 7, 0) && backed(Color::White, 0, 1) && backed(Color::Black, 7, 2) && backed(Color::Black, 0, 3)) {
        return false;
    }
    match b.en_passant {
        None => true,
        Some(e) => {
            let (er, pr) = if b.turn == Color::White { (5, 4) } else { (2, 3) };
            b.get(e).is_none() && e.rank == er && b.get(Sq::new(e.file, pr)) == Some((b.turn.flip(), Piece::Pawn))
        }
    }
}

#[test]
fn legal_moves_keep_positions_consistent() {
    for fen in [
        START,
        "r3k2r/p1ppqpb1/bn2pnp1/3PN3/1p2P3/2N2Q1p/PPPBBPPP/R3K2R w KQkq - 0 1",
        "8/2p5/3p4/KP5r/1R3p1k/8/4P1P1/8 w - - 0 1",
        "rnbqkbnr/ppp1p1pp/8/3pPp2/8/8/PPPP1PPP/RNBQKBNR w KQkq f6 0 3",
    ] {
        let b = Board::from_fen(fen).unwrap();
        assert!(consistent(&b));
        for m in b.legal_moves() {
            let next = b.apply_move(m);
            assert!(consistent(&next), "{fen} {}", m.to_string());
            for m2 in next.legal_moves() {
                assert!(consistent(&next.apply_move(m2)));
            }
        }
    }
}
