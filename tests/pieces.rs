use chess_core::bitboard::Bitboard;
use chess_core::board::{Board, Color, Piece, PieceType, Square};
use chess_core::moves::Move;

#[test]
fn test_bitboard_basics() {
    let bb = Bitboard::empty();
    assert!(bb.is_empty());
    assert_eq!(bb.count(), 0);

    let bb = Bitboard::from_square(0);
    assert!(!bb.is_empty());
    assert!(bb.has_square(0));
    assert_eq!(bb.count(), 1);
    assert_eq!(bb.lsb(), Some(0));

    let mut bb = Bitboard::from_square(0);
    bb.set_square(1);
    assert!(bb.has_square(0));
    assert!(bb.has_square(1));
    assert_eq!(bb.count(), 2);

    bb.clear_square(0);
    assert!(!bb.has_square(0));
    assert!(bb.has_square(1));
    assert_eq!(bb.count(), 1);
}

#[test]
fn test_bitboard_shifts() {
    let bb = Bitboard::from_square(0);
    assert_eq!(bb.north(), Bitboard::from_square(8));
    assert_eq!(bb.east(), Bitboard::from_square(1));
    assert_eq!(bb.northeast(), Bitboard::from_square(9));

    let bb = Bitboard::from_square(63);
    assert_eq!(bb.south(), Bitboard::from_square(55));
    assert_eq!(bb.west(), Bitboard::from_square(62));
    assert_eq!(bb.southwest(), Bitboard::from_square(54));
}

#[test]
fn test_bitboard_iterator() {
    let mut bb = Bitboard::empty();
    bb.set_square(0);
    bb.set_square(2);
    bb.set_square(4);

    let squares: Vec<u8> = bb.squares().collect();
    assert_eq!(squares, vec![0, 2, 4]);
}

#[test]
fn shifts_drop_squares_that_would_wrap() {
    assert!(Bitboard::from_square(7).east().is_empty());
    assert!(Bitboard::from_square(8).west().is_empty());
    assert!(Bitboard::from_square(60).north().is_empty());
    assert!(Bitboard::from_square(3).south().is_empty());
}

#[test]
fn msb_pop_lsb_and_toggle() {
    let mut bb = Bitboard(0b1010_0100);
    assert_eq!(bb.msb(), Some(7));
    assert_eq!(bb.pop_lsb(), Some(2));
    assert_eq!(bb.pop_lsb(), Some(5));
    assert_eq!(bb, Bitboard(0b1000_0000));
    bb.toggle_square(7);
    assert!(bb.is_empty());
    assert_eq!(bb.pop_lsb(), None);
    assert_eq!(Bitboard::full().count(), 64);
    assert_eq!(Bitboard::empty().msb(), None);
}

#[test]
fn set_operations() {
    let a = Bitboard(0b1100);
    let b = Bitboard(0b1010);
    assert_eq!(a.or(b), Bitboard(0b1110));
    assert_eq!(a.and(b), Bitboard(0b1000));
    assert_eq!(a.xor(b), Bitboard(0b0110));
    assert_eq!(a.not().and(Bitboard(0xF)), Bitboard(0b0011));
}

#[test]
fn test_square_algebraic() {
    assert_eq!(Square::from_algebraic("a1"), Some(Square::new(0, 0)));
    assert_eq!(Square::from_algebraic("e4"), Some(Square::new(4, 3)));
    assert_eq!(Square::from_algebraic("h8"), Some(Square::new(7, 7)));
    assert_eq!(Square::from_algebraic("i9"), None);

    assert_eq!(Square::new(0, 0).to_algebraic(), "a1");
    assert_eq!(Square::new(4, 3).to_algebraic(), "e4");
    assert_eq!(Square::new(7, 7).to_algebraic(), "h8");
}

#[test]
fn square_names_round_trip_on_every_square() {
    for i in 0..64u8 {
        let name = Square(i).to_algebraic();
        assert_eq!(Square::from_algebraic(&name), Some(Square(i)));
    }
    assert_eq!(Square::from_algebraic("e"), None);
    assert_eq!(Square::from_algebraic("e44"), None);
}

#[test]
fn square_projections() {
    let sq = Square::new(4, 3);
    assert_eq!(sq.index(), 28);
    assert_eq!(sq.file(), 4);
    assert_eq!(sq.rank(), 3);
    assert!(sq.is_on_rank(3));
    assert!(sq.is_on_file(4));
    assert_eq!(sq.bitboard(), Bitboard::from_square(28));
    assert_eq!(Square::from(28u8), sq);
    assert_eq!(u8::from(sq), 28);
}

#[test]
fn test_board_starting_position() {
    let board = Board::starting_position();

    assert_eq!(
        board.piece_at(Square::from_algebraic("e1").unwrap()),
        Some(Piece::new(Color::White, PieceType::King))
    );
    assert_eq!(
        board.piece_at(Square::from_algebraic("e8").unwrap()),
        Some(Piece::new(Color::Black, PieceType::King))
    );
    assert_eq!(
        board.piece_at(Square::from_algebraic("a2").unwrap()),
        Some(Piece::new(Color::White, PieceType::Pawn))
    );
    assert_eq!(
        board.piece_at(Square::from_algebraic("a7").unwrap()),
        Some(Piece::new(Color::Black, PieceType::Pawn))
    );

    assert_eq!(board.piece_at(Square::from_algebraic("e4").unwrap()), None);

    assert_eq!(board.white.count(), 16);
    assert_eq!(board.black.count(), 16);
    assert_eq!(board.occupied.count(), 32);
    assert_eq!(board.empty.count(), 32);
}

#[test]
fn sides_never_overlap_after_edits() {
    let mut board = Board::starting_position();
    board.set_piece(Square(28), Some(Piece::new(Color::White, PieceType::Queen)));
    board.set_piece(Square(28), Some(Piece::new(Color::Black, PieceType::Rook)));
    board.set_piece(Square(0), None);
    assert_eq!(board.white.0 & board.black.0, 0);
    assert_eq!(board.occupied.0, board.white.0 | board.black.0);
    assert_eq!(board.empty.0, !board.occupied.0);
    assert_eq!(board.piece_at(Square(28)), Some(Piece::new(Color::Black, PieceType::Rook)));
    assert_eq!(board.piece_bitboard(Color::White, PieceType::Queen).count(), 1);
    assert_eq!(board.color_bitboard(Color::White).count(), 15);
}

#[test]
fn color_helpers() {
    assert_eq!(Color::White.opposite(), Color::Black);
    assert_eq!(Color::Black.opposite(), Color::White);
    assert_eq!(Color::White.pawn_direction(), 8);
    assert_eq!(Color::Black.pawn_direction(), -8);
    assert_eq!(Color::White.back_rank(), Bitboard(0xFF));
    assert_eq!(Color::Black.pawn_start_rank(), Bitboard(0x00FF_0000_0000_0000));
}

#[test]
fn test_piece_chars() {
    assert_eq!(Piece::from_char('K'), Some(Piece::new(Color::White, PieceType::King)));
    assert_eq!(Piece::from_char('q'), Some(Piece::new(Color::Black, PieceType::Queen)));
    assert_eq!(Piece::from_char('x'), None);

    assert_eq!(Piece::new(Color::White, PieceType::King).to_char(), 'K');
    assert_eq!(Piece::new(Color::Black, PieceType::Queen).to_char(), 'q');
}

#[test]
fn piece_chars_round_trip_for_every_piece() {
    let types = [
        PieceType::Pawn,
        PieceType::Knight,
        PieceType::Bishop,
        PieceType::Rook,
        PieceType::Queen,
        PieceType::King,
    ];
    for color in [Color::White, Color::Black] {
        for t in types {
            let p = Piece::new(color, t);
            assert_eq!(Piece::from_char(p.to_char()), Some(p));
        }
    }
    assert_eq!(PieceType::from_char('n'), Some(PieceType::Knight));
    assert_eq!(PieceType::Rook.to_char(Color::White), 'R');
}

#[test]
fn test_move_creation() {
    let from = Square::from_algebraic("e2").unwrap();
    let to = Square::from_algebraic("e4").unwrap();
    let mv = Move::new(from, to, PieceType::Pawn);

    assert_eq!(mv.from(), from);
    assert_eq!(mv.to(), to);
    assert_eq!(mv.piece_type(), PieceType::Pawn);
    assert!(!mv.is_promotion());
    assert!(!mv.is_en_passant());
    assert!(!mv.is_castling());
}

#[test]
fn test_promotion_move() {
    let from = Square::from_algebraic("e7").unwrap();
    let to = Square::from_algebraic("e8").unwrap();
    let mv = Move::new_promotion(from, to, PieceType::Pawn, PieceType::Queen);

    assert_eq!(mv.from(), from);
    assert_eq!(mv.to(), to);
    assert_eq!(mv.piece_type(), PieceType::Pawn);
    assert!(mv.is_promotion());
    assert_eq!(mv.promotion_piece(), Some(PieceType::Queen));
}

#[test]
fn test_en_passant_move() {
    let from = Square::from_algebraic("e5").unwrap();
    let to = Square::from_algebraic("d6").unwrap();
    let mv = Move::new_en_passant(from, to);

    assert_eq!(mv.from(), from);
    assert_eq!(mv.to(), to);
    assert_eq!(mv.piece_type(), PieceType::Pawn);
    assert!(mv.is_en_passant());
}

#[test]
fn test_castling_move() {
    let from = Square::from_algebraic("e1").unwrap();
    let to = Square::from_algebraic("g1").unwrap();
    let mv = Move::new_castling(from, to, Color::White);

    assert_eq!(mv.from(), from);
    assert_eq!(mv.to(), to);
    assert_eq!(mv.piece_type(), PieceType::King);
    assert!(mv.is_castling());
}

#[test]
fn test_move_algebraic() {
    let from = Square::from_algebraic("e2").unwrap();
    let to = Square::from_algebraic("e4").unwrap();
    let mv = Move::new(from, to, PieceType::Pawn);

    assert_eq!(mv.to_algebraic(), "e2e4");

    let promotion = Move::new_promotion(from, to, PieceType::Pawn, PieceType::Queen);
    assert_eq!(promotion.to_algebraic(), "e2e4q");
}

#[test]
fn plain_move_notation_round_trips() {
    let mv = Move::new(Square(12), Square(28), PieceType::Pawn);
    let text = mv.to_algebraic();
    assert_eq!(text, "e2e4");
    assert_eq!(Move::from_algebraic(&text, PieceType::Pawn), Some(mv));
    let knight = Move::new(Square(6), Square(21), PieceType::Knight);
    assert_eq!(Move::from_algebraic("g1f3", PieceType::Knight), Some(knight));
}

#[test]
fn move_parsing_edge_cases() {
    let promo = Move::from_algebraic("e7e8n", PieceType::Pawn).unwrap();
    assert_eq!(promo.promotion_piece(), Some(PieceType::Knight));
    assert_eq!(promo.to_algebraic(), "e7e8n");
    assert_eq!(Move::from_algebraic("e7e8x", PieceType::Pawn), None);
    assert_eq!(Move::from_algebraic("e7e", PieceType::Pawn), None);
    assert_eq!(Move::from_algebraic("z7e8", PieceType::Pawn), None);
}

#[test]
fn capture_detection() {
    let board = Board::starting_position();
    let takes = Move::new(Square(1), Square(57), PieceType::Knight);
    assert!(takes.is_capture(&board));
    let quiet = Move::new(Square(12), Square(28), PieceType::Pawn);
    assert!(!quiet.is_capture(&board));
    let ep = Move::new_en_passant(Square(36), Square(43));
    assert!(ep.is_capture(&board));
}
