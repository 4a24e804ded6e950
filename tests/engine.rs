use chess_core::bitboard::Bitboard;
use chess_core::board::{Board, Color, Piece, PieceType, Square};
use chess_core::evaluate::{evaluate, is_insufficient_material, is_threefold_repetition, material_score};
use chess_core::magic_simple;
use chess_core::movegen::{
    compute_king_attacks, compute_knight_attacks, generate_knight_moves, generate_moves,
    generate_pawn_moves, generate_piece_moves,
};
use chess_core::moves::Move;
use chess_core::position::{CastlingRights, Position};
use chess_core::search::{iterative_deepening, search, SearchParams};
use chess_core::Error;

fn sq(name: &str) -> Square {
    Square::from_algebraic(name).unwrap()
}

fn squares_of(bb: Bitboard) -> Vec<u8> {
    bb.squares().collect()
}

#[test]
fn magic_simple_test_rook_attacks() {
    let attacks = magic_simple::get_rook_attacks(0, Bitboard::empty());
    assert!(attacks.has_square(1));
    assert!(attacks.has_square(8));
    assert!(!attacks.has_square(9));

    let mut occupancy = Bitboard::empty();
    occupancy.set_square(1);
    let attacks = magic_simple::get_rook_attacks(0, occupancy);
    assert!(!attacks.has_square(2));
    assert!(attacks.has_square(1));
}

#[test]
fn magic_simple_test_bishop_attacks() {
    let attacks = magic_simple::get_bishop_attacks(0, Bitboard::empty());
    assert!(attacks.has_square(9));
    assert!(!attacks.has_square(1));

    let mut occupancy = Bitboard::empty();
    occupancy.set_square(9);
    let attacks = magic_simple::get_bishop_attacks(0, occupancy);
    assert!(!attacks.has_square(18));
    assert!(attacks.has_square(9));
}

#[test]
fn rook_on_a1_sees_whole_file_and_rank() {
    magic_simple::init();
    let attacks = magic_simple::get_rook_attacks(0, Bitboard::empty());
    assert_eq!(attacks.count(), 14);
    assert_eq!(attacks, Bitboard(0x0101_0101_0101_01FE));
}

#[test]
fn bishop_on_a1_stops_at_blocker_on_b2() {
    let mut occupancy = Bitboard::empty();
    occupancy.set_square(9);
    let attacks = magic_simple::get_bishop_attacks(0, occupancy);
    assert_eq!(squares_of(attacks), vec![9]);
    let queen = magic_simple::get_queen_attacks(0, occupancy);
    assert_eq!(queen.count(), 15);
}

#[test]
fn test_knight_attacks() {
    let attacks = compute_knight_attacks(1);
    assert!(attacks.has_square(11));
    assert!(attacks.has_square(16));
    assert!(attacks.has_square(18));
    assert!(!attacks.has_square(0));
}

#[test]
fn test_king_attacks() {
    let attacks = compute_king_attacks(4);
    assert!(attacks.has_square(3));
    assert!(attacks.has_square(5));
    assert!(attacks.has_square(11));
    assert!(attacks.has_square(12));
    assert!(attacks.has_square(13));
    assert!(!attacks.has_square(0));
}

#[test]
fn knight_on_b1_and_king_on_e1_exact_sets() {
    assert_eq!(squares_of(compute_knight_attacks(1)), vec![11, 16, 18]);
    assert_eq!(squares_of(compute_king_attacks(4)), vec![3, 5, 11, 12, 13]);
    assert_eq!(compute_knight_attacks(27).count(), 8);
    assert_eq!(compute_king_attacks(63).count(), 3);
}

#[test]
fn test_pawn_moves() {
    let board = Board::starting_position();

    let moves = generate_pawn_moves(&board, Color::White, sq("e2"));
    assert!(moves.has_square(sq("e3").index()));
    assert!(moves.has_square(sq("e4").index()));

    let moves = generate_pawn_moves(&board, Color::Black, sq("e7"));
    assert!(moves.has_square(sq("e6").index()));
    assert!(moves.has_square(sq("e5").index()));
}

#[test]
fn test_knight_moves() {
    let board = Board::starting_position();

    let moves = generate_knight_moves(&board, Color::White, sq("b1"));
    assert!(moves.has_square(sq("a3").index()));
    assert!(moves.has_square(sq("c3").index()));
    assert!(!moves.has_square(sq("d2").index()));
}

#[test]
fn test_move_generation() {
    magic_simple::init();
    let board = Board::starting_position();

    let moves = generate_moves(&board, Color::White);
    assert_eq!(moves.len(), 20);

    for mv in moves {
        assert!(mv.from().index() < 64);
        assert!(mv.to().index() < 64);
        assert_ne!(mv.from(), mv.to());
    }
}

#[test]
fn black_also_has_twenty_opening_moves() {
    let board = Board::starting_position();
    let moves = generate_moves(&board, Color::Black);
    assert_eq!(moves.len(), 20);
    assert_eq!(moves[0].to_algebraic(), "a7a5");
    assert_eq!(moves[1].to_algebraic(), "a7a6");
}

#[test]
fn pawn_on_seventh_rank_promotes_four_ways() {
    let pos = Position::from_fen("8/4P3/8/8/8/8/8/k6K w - - 0 1").unwrap();
    let moves = pos.generate_moves();
    let promos: Vec<String> = moves
        .iter()
        .filter(|m| m.is_promotion())
        .map(|m| m.to_algebraic())
        .collect();
    assert_eq!(promos, vec!["e7e8n", "e7e8b", "e7e8r", "e7e8q"]);
    let targets = generate_piece_moves(&pos.board, Color::White, PieceType::Pawn, 52);
    assert_eq!(squares_of(targets), vec![60]);
}

#[test]
fn test_position_new() {
    let pos = Position::new();
    assert_eq!(pos.side_to_move, Color::White);
    assert_eq!(pos.fullmove_number, 1);
    assert_eq!(pos.halfmove_clock, 0);
    assert!(pos.castling_rights.white_kingside);
    assert!(pos.castling_rights.white_queenside);
    assert!(pos.castling_rights.black_kingside);
    assert!(pos.castling_rights.black_queenside);
}

#[test]
fn test_fen_roundtrip() {
    let start_pos = Position::new();
    let fen = start_pos.to_fen();
    let parsed_pos = Position::from_fen(&fen).unwrap();

    assert_eq!(start_pos.side_to_move, parsed_pos.side_to_move);
    assert_eq!(start_pos.castling_rights, parsed_pos.castling_rights);
    assert_eq!(start_pos.en_passant, parsed_pos.en_passant);
}

#[test]
fn test_make_move() {
    let mut pos = Position::new();
    let moves = pos.generate_moves();
    assert_eq!(moves.len(), 20);

    let e2e4 = moves.iter().find(|m| m.to_algebraic() == "e2e4").unwrap();
    pos.make_move(e2e4).unwrap();

    assert_eq!(pos.side_to_move, Color::Black);
    assert_eq!(pos.fullmove_number, 1);
    assert_eq!(pos.halfmove_clock, 0);

    pos.undo_move().unwrap();
    assert_eq!(pos.side_to_move, Color::White);
}

#[test]
fn e2e4_then_undo_gives_back_the_fen() {
    let mut pos = Position::new();
    let mv = Move::new(sq("e2"), sq("e4"), PieceType::Pawn);
    pos.make_move(&mv).unwrap();
    assert_eq!(pos.to_fen(), "rnbqkbnr/pppppppp/8/8/4P3/8/PPPP1PPP/RNBQKBNR b KQkq e3 0 1");
    pos.undo_move().unwrap();
    assert_eq!(pos.to_fen(), "rnbqkbnr/pppppppp/8/8/8/8/PPPPPPPP/RNBQKBNR w KQkq - 0 1");
    assert!(matches!(pos.undo_move(), Err(Error::InvalidMove(_))));
}

#[test]
fn make_then_undo_restores_every_field() {
    let mut pos =
        Position::from_fen("r3k2r/pppq1ppp/2n5/3pP3/8/8/PPP2PPP/R3K2R w KQkq d6 5 12").unwrap();
    let before = pos.to_fen();
    let moves = [
        Move::new_castling(sq("e1"), sq("g1"), Color::White),
        Move::new_castling(sq("e1"), sq("c1"), Color::White),
        Move::new_en_passant(sq("e5"), sq("d6")),
        Move::new(sq("a1"), sq("a8"), PieceType::Rook),
        Move::new(sq("h1"), sq("h2"), PieceType::Rook),
    ];
    for mv in moves {
        pos.make_move(&mv).unwrap();
        assert_ne!(pos.to_fen(), before);
        pos.undo_move().unwrap();
        assert_eq!(pos.to_fen(), before);
        assert!(pos.history.is_empty());
    }
}

#[test]
fn castling_moves_king_and_rook() {
    let mut pos = Position::from_fen("r3k2r/8/8/8/8/8/8/R3K2R w KQkq - 0 1").unwrap();
    pos.make_move(&Move::new_castling(sq("e1"), sq("g1"), Color::White)).unwrap();
    assert_eq!(pos.to_fen(), "r3k2r/8/8/8/8/8/8/R4RK1 b kq - 1 1");
    pos.make_move(&Move::new_castling(sq("e8"), sq("c8"), Color::Black)).unwrap();
    assert_eq!(pos.to_fen(), "2kr3r/8/8/8/8/8/8/R4RK1 w - - 2 2");
    let bad = Move::new_castling(sq("e1"), sq("f1"), Color::White);
    let mut other = Position::from_fen("r3k2r/8/8/8/8/8/8/R3K2R w KQkq - 0 1").unwrap();
    assert!(matches!(other.make_move(&bad), Err(Error::InvalidMove(_))));
    assert_eq!(other.to_fen(), "r3k2r/8/8/8/8/8/8/R3K2R w KQkq - 0 1");
}

#[test]
fn en_passant_capture_removes_the_pawn() {
    let mut pos = Position::from_fen("4k3/8/8/3pP3/8/8/8/4K3 w - d6 0 1").unwrap();
    pos.make_move(&Move::new_en_passant(sq("e5"), sq("d6"))).unwrap();
    assert_eq!(pos.to_fen(), "4k3/8/3P4/8/8/8/8/4K3 b - - 0 1");
}

#[test]
fn promotion_replaces_the_pawn() {
    let mut pos = Position::from_fen("8/4P3/8/8/8/8/8/k6K w - - 3 1").unwrap();
    pos.make_move(&Move::new_promotion(sq("e7"), sq("e8"), PieceType::Pawn, PieceType::Queen))
        .unwrap();
    assert_eq!(pos.to_fen(), "4Q3/8/8/8/8/8/8/k6K b - - 0 1");
}

#[test]
fn quiet_piece_move_counts_the_halfmove_clock() {
    let mut pos = Position::new();
    pos.make_move(&Move::new(sq("g1"), sq("f3"), PieceType::Knight)).unwrap();
    assert_eq!(pos.halfmove_clock, 1);
    pos.make_move(&Move::new(sq("g8"), sq("f6"), PieceType::Knight)).unwrap();
    assert_eq!(pos.to_fen(), "rnbqkb1r/pppppppp/5n2/8/8/5N2/PPPPPPPP/RNBQKB1R w KQkq - 2 2");
}

#[test]
fn moving_from_an_empty_square_is_refused() {
    let mut pos = Position::new();
    let mv = Move::new(sq("e4"), sq("e5"), PieceType::Pawn);
    assert!(matches!(pos.make_move(&mv), Err(Error::InvalidMove(_))));
    assert_eq!(pos.to_fen(), Position::new().to_fen());
}

#[test]
fn rook_moves_drop_castling_rights() {
    let mut pos = Position::from_fen("r3k2r/8/8/8/8/8/8/R3K2R w KQkq - 0 1").unwrap();
    pos.make_move(&Move::new(sq("h1"), sq("h5"), PieceType::Rook)).unwrap();
    assert_eq!(
        pos.castling_rights,
        CastlingRights {
            white_kingside: false,
            white_queenside: true,
            black_kingside: true,
            black_queenside: true
        }
    );
    let mut rights = CastlingRights::all();
    rights.update(&Move::new(sq("e1"), sq("e2"), PieceType::King), &Board::starting_position());
    assert!(!rights.white_kingside && !rights.white_queenside);
    assert!(rights.black_kingside && rights.black_queenside);
    assert!(!CastlingRights::none().black_queenside);
}

#[test]
fn fen_with_castling_rooks_round_trips() {
    let fen = "r3k2r/8/8/8/8/8/8/R3K2R w KQkq - 0 1";
    assert_eq!(Position::from_fen(fen).unwrap().to_fen(), fen);
}

#[test]
fn canonical_fens_round_trip() {
    for fen in [
        "rnbqkbnr/pppppppp/8/8/8/8/PPPPPPPP/RNBQKBNR w KQkq - 0 1",
        "rnbqkbnr/pppp1ppp/8/4p3/4P3/8/PPPP1PPP/RNBQKBNR w KQkq e6 0 2",
        "8/8/8/8/8/8/8/K6k b - - 99 120",
        "4k3/8/8/8/8/8/8/4K2R w K - 0 1",
    ] {
        assert_eq!(Position::from_fen(fen).unwrap().to_fen(), fen);
    }
}

#[test]
fn fen_defaults_and_errors() {
    let pos = Position::from_fen("8/8/8/8/8/8/8/K6k w - -").unwrap();
    assert_eq!(pos.halfmove_clock, 0);
    assert_eq!(pos.fullmove_number, 1);
    let pos = Position::from_fen("8/8/8/8/8/8/8/K6k w - - x 7").unwrap();
    assert_eq!(pos.halfmove_clock, 0);
    assert_eq!(pos.fullmove_number, 7);
    for bad in [
        "8/8/8/8/8/8/8/K6k w -",
        "8/8/8/8/8/8/K6k w - -",
        "8/8/8/8/8/8/8/K6k x - -",
        "8/8/8/8/8/8/8/K6k w X -",
        "8/8/8/8/8/8/8/K6k w - z9",
        "8/8/8/8/8/8/8/K5k w - -",
        "8/8/8/8/8/8/8/K7k w - -",
        "8/8/8/8/8/8/8/K6x w - -",
    ] {
        assert!(matches!(Position::from_fen(bad), Err(Error::InvalidFen(_))), "{}", bad);
    }
}

#[test]
fn check_and_mate_detection() {
    let pos = Position::from_fen("rnb1kbnr/pppp1ppp/8/4p3/6Pq/5P2/PPPPP2P/RNBQKBNR w KQkq - 0 1")
        .unwrap();
    assert!(pos.in_check());
    assert!(!pos.is_checkmate());
    assert!(!pos.is_game_over());
    let knight_check = Position::from_fen("4k3/8/3N4/8/8/8/8/4K3 b - - 0 1").unwrap();
    assert!(knight_check.in_check());
    let quiet = Position::new();
    assert!(!quiet.in_check());
    assert!(!quiet.is_stalemate());
    let stuck = Position::from_fen("8/8/8/8/8/8/8/8 w - - 0 1").unwrap();
    assert!(stuck.is_game_over());
    assert!(stuck.is_stalemate());
    assert!(!stuck.is_checkmate());
}

#[test]
fn test_evaluate_starting_position() {
    let pos = Position::new();
    let score = evaluate(&pos);
    assert!(score.abs() < 50);
}

#[test]
fn evaluation_values() {
    let white_queen = Position::from_fen("4k3/8/8/8/8/8/8/3QK3 w - - 0 1").unwrap();
    assert_eq!(evaluate(&white_queen), 895);
    let black_to_move = Position::from_fen("4k3/8/8/8/8/8/8/3QK3 b - - 0 1").unwrap();
    assert_eq!(evaluate(&black_to_move), -895);
}

#[test]
fn test_material_score() {
    let mut board = Board::new();

    board.set_piece(sq("d1"), Some(Piece::new(Color::White, PieceType::Queen)));
    board.update_derived();

    let score = material_score(&board);
    assert_eq!(score, 900);
}

#[test]
fn test_insufficient_material() {
    let mut board = Board::new();

    for square in 0..64 {
        board.set_piece(Square::from(square), None);
    }

    board.set_piece(sq("e1"), Some(Piece::new(Color::White, PieceType::King)));
    board.set_piece(sq("e8"), Some(Piece::new(Color::Black, PieceType::King)));
    board.update_derived();

    assert!(is_insufficient_material(&board));

    board.set_piece(sq("c1"), Some(Piece::new(Color::White, PieceType::Bishop)));
    board.update_derived();

    assert!(is_insufficient_material(&board));

    board.set_piece(sq("a2"), Some(Piece::new(Color::White, PieceType::Pawn)));
    board.update_derived();

    assert!(!is_insufficient_material(&board));
}

#[test]
fn insufficient_material_cases() {
    let kk_knight = Position::from_fen("4k3/8/8/8/8/8/8/4K1n1 w - - 0 1").unwrap();
    assert!(is_insufficient_material(&kk_knight.board));
    let kk_rook = Position::from_fen("4k3/8/8/8/8/8/8/4K2R w - - 0 1").unwrap();
    assert!(!is_insufficient_material(&kk_rook.board));
    let kk_queen = Position::from_fen("4k3/8/8/8/8/8/8/3qK3 w - - 0 1").unwrap();
    assert!(!is_insufficient_material(&kk_queen.board));
    assert!(!is_insufficient_material(&Board::starting_position()));
}

#[test]
fn repetition_needs_three_of_six() {
    let a = "a".to_string();
    let b = "b".to_string();
    let five = vec![a.clone(), a.clone(), a.clone(), b.clone(), b.clone()];
    assert!(!is_threefold_repetition(&five));
    let six = vec![a.clone(), b.clone(), a.clone(), b.clone(), a.clone(), b.clone()];
    assert!(is_threefold_repetition(&six));
    let distinct: Vec<String> = (0..8).map(|i| i.to_string()).collect();
    assert!(!is_threefold_repetition(&distinct));
}

#[test]
fn test_search_starting_position() {
    let pos = Position::new();
    let params = SearchParams { depth: 3, time_limit_ms: None, nodes_limit: None };

    let result = search(&pos, &params).unwrap();
    assert!(result.best_move.is_some());
    assert!(result.score.abs() < 1000);
    assert!(result.stats.nodes_searched > 0);
}

#[test]
fn test_checkmate_search() {
    let fen = "rnb1kbnr/pppp1ppp/8/4p3/6Pq/5P2/PPPPP2P/RNBQKBNR w KQkq - 0 1";
    let pos = Position::from_fen(fen).unwrap();

    let params = SearchParams { depth: 1, time_limit_ms: None, nodes_limit: None };

    let result = search(&pos, &params).unwrap();
    assert!(result.score < -10000);
}

#[test]
fn test_iterative_deepening() {
    let pos = Position::new();
    let result = iterative_deepening(&pos, 3, None).unwrap();

    assert!(result.best_move.is_some());
    assert_eq!(result.depth, 3);
    assert!(result.stats.nodes_searched > 0);
}

#[test]
fn search_edge_cases() {
    let empty = Position::from_fen("8/8/8/8/8/8/8/8 w - - 0 1").unwrap();
    let result = search(&empty, &SearchParams::default()).unwrap();
    assert!(result.best_move.is_none());
    assert_eq!(result.score, 0);
    assert_eq!(result.depth, 0);
    assert!(matches!(iterative_deepening(&Position::new(), 0, None), Err(Error::InvalidMove(_))));
    assert_eq!(SearchParams::default().depth, 4);
    let capture = Position::from_fen("4k3/8/8/3q4/8/8/8/3QK3 w - - 0 1").unwrap();
    let result = search(&capture, &SearchParams { depth: 1, time_limit_ms: None, nodes_limit: None })
        .unwrap();
    assert_eq!(result.best_move.unwrap().to_algebraic(), "d1d5");
}

#[test]
fn capturing_a_rook_on_its_corner_drops_that_right() {
    let mut pos = Position::from_fen("r3k2r/8/8/8/8/8/8/R3K2R w KQkq - 0 1").unwrap();
    pos.make_move(&Move::new(sq("a1"), sq("a8"), PieceType::Rook)).unwrap();
    assert_eq!(pos.to_fen(), "R3k2r/8/8/8/8/8/8/4K2R b Kk - 0 1");
}

#[test]
fn landing_on_an_own_piece_is_no_capture() {
    let board = Board::starting_position();
    let onto_own = Move::new(sq("b1"), sq("d2"), PieceType::Knight);
    assert!(!onto_own.is_capture(&board));
}

#[test]
fn square_names_outside_a1_h8_are_rejected() {
    assert_eq!(Square::from_algebraic("!!"), None);
    assert_eq!(Square::from_algebraic("A1"), None);
    assert_eq!(Square::from_algebraic("a0"), None);
    assert_eq!(Square::from_algebraic("a9"), None);
    assert!(matches!(
        Position::from_fen("8/8/8/8/8/8/8/K6k w - !! 0 1"),
        Err(Error::InvalidFen(_))
    ));
    assert!(Move::from_algebraic("A1a2", PieceType::Rook).is_none());
}

#[test]
fn start_position_moves_in_emission_order() {
    let moves = Position::new().generate_moves();
    let names: Vec<String> = moves.iter().map(|m| m.to_algebraic()).collect();
    assert_eq!(&names[0..4], &["a2a3", "a2a4", "b2b3", "b2b4"]);
    assert_eq!(&names[16..20], &["b1a3", "b1c3", "g1f3", "g1h3"]);
    assert_eq!(moves.iter().filter(|m| m.piece_type() == PieceType::Pawn).count(), 16);
}
