use chess_movegen::board::{Color, PieceType};
use chess_movegen::fen::FenError;
use chess_movegen::game::GameState;
use chess_movegen::lookup::Tables;
use chess_movegen::position::Pieces;

fn error(fen: &str, tables: &Tables) -> Option<FenError> {
    GameState::from_fen(fen, tables).err()
}

#[test]
fn a_description_is_read_field_by_field() {
    let tables = Tables::new();
    let s = GameState::from_fen("r3k2r/8/8/3pP3/8/8/8/R3K2R b Kq d6 12 34", &tables).unwrap();
    assert_eq!(s.pieces.piece_on(0), Some((Color::White, PieceType::Rook)));
    assert_eq!(s.pieces.piece_on(4), Some((Color::White, PieceType::King)));
    assert_eq!(s.pieces.piece_on(7), Some((Color::White, PieceType::Rook)));
    assert_eq!(s.pieces.piece_on(35), Some((Color::Black, PieceType::Pawn)));
    assert_eq!(s.pieces.piece_on(36), Some((Color::White, PieceType::Pawn)));
    assert_eq!(s.pieces.piece_on(56), Some((Color::Black, PieceType::Rook)));
    assert_eq!(s.pieces.piece_on(60), Some((Color::Black, PieceType::King)));
    assert_eq!((0..64).filter(|sq| s.pieces.piece_on(*sq).is_some()).count(), 8);
    assert_eq!(s.active_color, Color::Black);
    assert_eq!(s.white_castling, (false, true));
    assert_eq!(s.black_castling, (true, false));
    assert_eq!(s.en_passant, Some(43));
    assert_eq!(s.halfmoves, 12);
    assert_eq!(s.fullmoves, 34);
}

#[test]
fn the_side_may_be_written_in_either_case() {
    let tables = Tables::new();
    assert_eq!(
        GameState::from_fen("4k3/8/8/8/8/8/8/4K3 W - - 0 1", &tables).unwrap().active_color,
        Color::White,
    );
    assert_eq!(
        GameState::from_fen("4k3/8/8/8/8/8/8/4K3 B - - 0 1", &tables).unwrap().active_color,
        Color::Black,
    );
}

#[test]
fn digits_may_follow_each_other() {
    let tables = Tables::new();
    let a = GameState::from_fen("4k3/8/8/8/8/8/8/4K3 w - - 0 1", &tables).unwrap();
    let b = GameState::from_fen("31k3/44/8/8/8/8/8/22K21 w - - 0 1", &tables).unwrap();
    assert_eq!(a.pieces.white_pieces, b.pieces.white_pieces);
    assert_eq!(a.pieces.black_pieces, b.pieces.black_pieces);
}

#[test]
fn a_text_needs_six_fields() {
    let tables = Tables::new();
    assert_eq!(error("", &tables), Some(FenError::Fields));
    assert_eq!(error("4k3/8/8/8/8/8/8/4K3 w - - 0", &tables), Some(FenError::Fields));
    assert_eq!(error("4k3/8/8/8/8/8/8/4K3 w - - 0 1 ", &tables), Some(FenError::Fields));
    assert_eq!(error("4k3/8/8/8/8/8/8/4K3 w - - 0 1 x", &tables), Some(FenError::Fields));
    // Two spaces make an empty field.
    assert_eq!(error("4k3/8/8/8/8/8/8/4K3  w - - 0", &tables), Some(FenError::Side));
    assert_eq!(error(" 4k3/8/8/8/8/8/8/4K3 w - - 0", &tables), Some(FenError::Placement));
    assert_eq!(error("4k3/8/8/8/8/8/8/4K3 w  - 0 1", &tables), Some(FenError::Castling));
}

#[test]
fn a_placement_needs_eight_ranks_of_eight_squares() {
    let tables = Tables::new();
    assert_eq!(error("4k3/8/8/8/8/8/4K3 w - - 0 1", &tables), Some(FenError::Placement));
    assert_eq!(error("4k3/8/8/8/8/8/8/8/4K3 w - - 0 1", &tables), Some(FenError::Placement));
    assert_eq!(error("4k3/8/8/8/8/8/8/4K4 w - - 0 1", &tables), Some(FenError::Placement));
    assert_eq!(error("4k3/8/8/8/8/8/8/4K2 w - - 0 1", &tables), Some(FenError::Placement));
    assert_eq!(error("4k3/9/8/8/8/8/8/4K3 w - - 0 1", &tables), Some(FenError::Placement));
    assert_eq!(error("4k3/08/8/8/8/8/8/4K3 w - - 0 1", &tables), Some(FenError::Placement));
    assert_eq!(error("4k3/7x/8/8/8/8/8/4K3 w - - 0 1", &tables), Some(FenError::Placement));
    assert_eq!(error("4k3//8/8/8/8/8/4K3 w - - 0 1", &tables), Some(FenError::Placement));
    assert_eq!(error("4k3/8/8/8/8/8/8/4K3/ w - - 0 1", &tables), Some(FenError::Placement));
}

#[test]
fn the_other_fields_are_checked_in_order() {
    let tables = Tables::new();
    assert_eq!(error("4k3/8/8/8/8/8/8/4K3 x - - 0 1", &tables), Some(FenError::Side));
    assert_eq!(error("4k3/8/8/8/8/8/8/4K3 ww - - 0 1", &tables), Some(FenError::Side));
    assert_eq!(error("4k3/8/8/8/8/8/8/4K3 w KX - 0 1", &tables), Some(FenError::Castling));
    assert_eq!(error("4k3/8/8/8/8/8/8/4K3 w K- - 0 1", &tables), Some(FenError::Castling));
    assert_eq!(error("4k3/8/8/8/8/8/8/4K3 w - e9 0 1", &tables), Some(FenError::EnPassant));
    assert_eq!(error("4k3/8/8/8/8/8/8/4K3 w - i3 0 1", &tables), Some(FenError::EnPassant));
    assert_eq!(error("4k3/8/8/8/8/8/8/4K3 w - e 0 1", &tables), Some(FenError::EnPassant));
    assert_eq!(error("4k3/8/8/8/8/8/8/4K3 w - e33 0 1", &tables), Some(FenError::EnPassant));
    assert_eq!(error("4k3/8/8/8/8/8/8/4K3 w - - x 1", &tables), Some(FenError::Counter));
    assert_eq!(error("4k3/8/8/8/8/8/8/4K3 w - - 0 -1", &tables), Some(FenError::Counter));
    assert_eq!(error("4k3/8/8/8/8/8/8/4K3 w - - 0 1x", &tables), Some(FenError::Counter));
    assert_eq!(
        error("4k3/8/8/8/8/8/8/4K3 w - - 0 99999999999999999999999999", &tables),
        Some(FenError::Counter)
    );
    assert_eq!(error("4k3/8/8/8/8/8/8/8 w - - 0 1", &tables), Some(FenError::WhiteKing));
    assert_eq!(error("4k3/8/8/8/8/8/8/3KK3 w - - 0 1", &tables), Some(FenError::WhiteKing));
    assert_eq!(error("8/8/8/8/8/8/8/4K3 w - - 0 1", &tables), Some(FenError::BlackKing));
    assert_eq!(error("8/8/8/8/8/8/8/8 w - - 0 1", &tables), Some(FenError::WhiteKing));
    // The first fault is the one reported.
    assert_eq!(error("8/8/8/8/8/8/8/8 x y z 0 1", &tables), Some(FenError::Side));
}

#[test]
fn counters_are_decimal_numbers() {
    let tables = Tables::new();
    let s = GameState::from_fen("4k3/8/8/8/8/8/8/4K3 w - - 007 4294967295", &tables).unwrap();
    assert_eq!(s.halfmoves, 7);
    assert_eq!(s.fullmoves, 4294967295);
}

#[test]
fn a_placement_alone_gives_the_pieces() {
    let p = Pieces::from_placement("rnbqkbnr/pppppppp/8/8/8/8/PPPPPPPP/RNBQKBNR").unwrap();
    assert_eq!(p.w_pawn, 0xff00);
    assert_eq!(p.b_pawn, 0x00ff_0000_0000_0000);
    assert_eq!(p.w_king, 1 << 4);
    assert_eq!(p.b_queen, 1 << 59);
    assert_eq!(p.w_rook, 0x81);
    assert_eq!(p.b_knight, (1 << 57) | (1 << 62));
    assert_eq!(p.w_bishop, (1 << 2) | (1 << 5));
    assert_eq!(p.white_pieces, 0xffff);
    assert_eq!(Pieces::from_placement("8/8/8/8/8/8/8").err(), Some(FenError::Placement));
    assert_eq!(
        Pieces::from_placement("rnbqkbnr/pppppppp/8/8/8/8/PPPPPPPP/RNBQKBNR w").err(),
        Some(FenError::Placement),
    );
    assert_eq!(Pieces::from_placement("4k3/8/8/8/8/8/8/8").err(), Some(FenError::WhiteKing));
    assert_eq!(Pieces::from_placement("8/8/8/8/8/8/8/4K3").err(), Some(FenError::BlackKing));
    assert_eq!(Pieces::from_placement("4k3/8/8/8/8/8/8/4KK2").err(), Some(FenError::WhiteKing));
}
