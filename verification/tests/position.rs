use chess_movegen::board::{Color, PieceType, PromotionType};
use chess_movegen::notation::{color_for, piece_color, piece_type};
use chess_movegen::position::{Pieces, PositionError};

#[test]
fn invert_gives_the_other_colour() {
    assert_eq!(Color::White.invert(), Color::Black);
    assert_eq!(Color::Black.invert(), Color::White);
}

#[test]
fn promotion_pieces() {
    assert_eq!(PromotionType::Queen.to_piece(), PieceType::Queen);
    assert_eq!(PromotionType::Rook.to_piece(), PieceType::Rook);
    assert_eq!(PromotionType::Bishop.to_piece(), PieceType::Bishop);
    assert_eq!(PromotionType::Knight.to_piece(), PieceType::Knight);
}

#[test]
fn letters_stand_for_piece_types() {
    assert_eq!(piece_type('k'), Some(PieceType::King));
    assert_eq!(piece_type('K'), Some(PieceType::King));
    assert_eq!(piece_type('q'), Some(PieceType::Queen));
    assert_eq!(piece_type('Q'), Some(PieceType::Queen));
    assert_eq!(piece_type('r'), Some(PieceType::Rook));
    assert_eq!(piece_type('B'), Some(PieceType::Bishop));
    assert_eq!(piece_type('n'), Some(PieceType::Knight));
    assert_eq!(piece_type('P'), Some(PieceType::Pawn));
    assert_eq!(piece_type('x'), None);
    assert_eq!(piece_type('1'), None);
    assert_eq!(piece_type('/'), None);
}

#[test]
fn piece_type_agrees_with_lower_casing() {
    // Every character whose lower case is one of the six letters, and no other.
    for code in 0..0x11_0000u32 {
        if let Some(c) = char::from_u32(code) {
            let lower = c.to_lowercase().to_string();
            let expected = match lower.as_str() {
                "k" => Some(PieceType::King),
                "q" => Some(PieceType::Queen),
                "r" => Some(PieceType::Rook),
                "b" => Some(PieceType::Bishop),
                "n" => Some(PieceType::Knight),
                "p" => Some(PieceType::Pawn),
                _ => None,
            };
            assert_eq!(piece_type(c), expected, "character {:x}", code);
        }
    }
}

#[test]
fn case_stands_for_colour() {
    assert_eq!(piece_color('K'), Some(Color::White));
    assert_eq!(piece_color('k'), Some(Color::Black));
    assert_eq!(piece_color('8'), None);
    assert_eq!(piece_color('/'), Some(Color::Black));
    assert_eq!(color_for(true, true), None);
    assert_eq!(color_for(true, false), None);
    assert_eq!(color_for(false, true), Some(Color::White));
    assert_eq!(color_for(false, false), Some(Color::Black));
}

fn two_kings() -> [Option<(Color, PieceType)>; 64] {
    let mut board = [None; 64];
    board[4] = Some((Color::White, PieceType::King));
    board[60] = Some((Color::Black, PieceType::King));
    board
}

#[test]
fn a_position_holds_what_the_board_holds() {
    let mut board = two_kings();
    board[0] = Some((Color::White, PieceType::Rook));
    board[52] = Some((Color::Black, PieceType::Pawn));
    board[27] = Some((Color::White, PieceType::Queen));
    board[33] = Some((Color::Black, PieceType::Knight));
    board[34] = Some((Color::Black, PieceType::Bishop));
    let p = Pieces::new(&board).unwrap();
    assert_eq!(p.w_king, 1 << 4);
    assert_eq!(p.b_king, 1 << 60);
    assert_eq!(p.w_rook, 1);
    assert_eq!(p.w_queen, 1 << 27);
    assert_eq!(p.b_pawn, 1 << 52);
    assert_eq!(p.b_knight, 1 << 33);
    assert_eq!(p.b_bishop, 1 << 34);
    assert_eq!(p.w_pawn | p.w_bishop | p.w_knight | p.b_queen | p.b_rook, 0);
    assert_eq!(p.white_pieces, (1 << 4) | 1 | (1 << 27));
    assert_eq!(p.black_pieces, (1 << 60) | (1 << 52) | (1 << 33) | (1 << 34));
    for sq in 0..64 {
        assert_eq!(p.piece_on(sq), board[sq]);
        assert_eq!(p.color_lookup[sq], board[sq].map(|x| x.0));
        assert_eq!(p.piece_type_lookup[sq], board[sq].map(|x| x.1));
    }
    assert_eq!(p.king_index(Color::White), 4);
    assert_eq!(p.king_index(Color::Black), 60);
    assert_eq!(p.bitboard(Color::White, PieceType::Queen), 1 << 27);
    assert_eq!(p.side(Color::Black), p.black_pieces);
    assert_eq!(p.vacant(), !(p.white_pieces | p.black_pieces));
}

#[test]
fn a_position_needs_one_king_of_each_colour() {
    let mut board = two_kings();
    board[4] = None;
    assert_eq!(Pieces::new(&board).err(), Some(PositionError::WhiteKing));
    let mut board = two_kings();
    board[5] = Some((Color::White, PieceType::King));
    assert_eq!(Pieces::new(&board).err(), Some(PositionError::WhiteKing));
    let mut board = two_kings();
    board[60] = None;
    assert_eq!(Pieces::new(&board).err(), Some(PositionError::BlackKing));
    let mut board = two_kings();
    board[61] = Some((Color::Black, PieceType::King));
    assert_eq!(Pieces::new(&board).err(), Some(PositionError::BlackKing));
    let board = [None; 64];
    assert_eq!(Pieces::new(&board).err(), Some(PositionError::WhiteKing));
    assert!(Pieces::new(&two_kings()).is_ok());
}

#[test]
fn pieces_are_put_and_taken() {
    let p = Pieces::new(&two_kings()).unwrap();
    let q = p.with_piece(10, Color::Black, PieceType::Rook);
    assert_eq!(q.piece_on(10), Some((Color::Black, PieceType::Rook)));
    assert_eq!(q.b_rook, 1 << 10);
    assert_eq!(q.black_pieces, (1 << 60) | (1 << 10));
    let r = q.without(10);
    assert_eq!(r.piece_on(10), None);
    assert_eq!(r.b_rook, 0);
    assert_eq!(r.black_pieces, 1 << 60);
    let s = r.without(11);
    assert_eq!(s.black_pieces, r.black_pieces);
    assert_eq!(Pieces::empty().white_pieces | Pieces::empty().black_pieces, 0);
}
