use magician::game::Game;
use magician::piece::{Color, Piece, PieceType};

#[test]
fn test_piece_new_and_accessors() {
    let p = Piece::new(PieceType::Queen, Color::Black);
    assert_eq!(p.piece_type(), PieceType::Queen);
    assert_eq!(p.color(), Color::Black);
    assert!(p.is_black());
    assert!(!p.is_white());

    let p2 = Piece::new(PieceType::Pawn, Color::White);
    assert_eq!(p2.piece_type(), PieceType::Pawn);
    assert_eq!(p2.color(), Color::White);
    assert!(p2.is_white());
    assert!(!p2.is_black());
}

#[test]
fn test_piece_debug_format() {
    let p = Piece::new(PieceType::Rook, Color::White);
    let debug_str = format!("{:?}", p);
    println!("{:#?}", p);
    assert!(debug_str.contains("piece_type: Rook"));
    assert!(debug_str.contains("color: White"));

    let p_black = Piece::new(PieceType::King, Color::Black);
    let debug_str_black = format!("{:?}", p_black);
    assert!(debug_str_black.contains("piece_type: King"));
    assert!(debug_str_black.contains("color: Black"));
}

#[test]
fn test_initial_positions() {
    let game = Game::new();

    // White pawns on rank 2 (index 8..15)
    for i in 8..16 {
        let piece = game.get_piece_at(i).expect("Expected a piece");
        assert_eq!(piece.piece_type(), PieceType::Pawn);
        assert_eq!(piece.color(), Color::White);
    }

    // White king on e1 (index 4)
    let king = game.get_piece_at(4).expect("Expected white king");
    assert_eq!(king.piece_type(), PieceType::King);
    assert_eq!(king.color(), Color::White);

    // Black pawns on rank 7 (index 48..55)
    for i in 48..56 {
        let piece = game.get_piece_at(i).expect("Expected a piece");
        assert_eq!(piece.piece_type(), PieceType::Pawn);
        assert_eq!(piece.color(), Color::Black);
    }

    // Black king on e8 (index 60)
    let black_king = game.get_piece_at(60).expect("Expected black king");
    assert_eq!(black_king.piece_type(), PieceType::King);
    assert_eq!(black_king.color(), Color::Black);

    // Empty square: a4 (index 24)
    assert!(game.get_piece_at(24).is_none());
}

#[test]
fn test_board_bits() {
    let mut b = magician::board::Board(0);
    assert!(!b.has_bit(28));
    b.set_bit(28);
    assert!(b.has_bit(28));
    assert!(!b.has_bit(27));
    assert!(!b.has_bit(64));
    assert!(!b.has_bit(255));
}
