use chess_movegen::board::{Color, PieceType, PromotionType};
use chess_movegen::game::{GameState, StateError};
use chess_movegen::lookup::Tables;
use chess_movegen::movegen::Move;
use chess_movegen::position::Pieces;

fn state(fen: &str, tables: &Tables) -> GameState {
    GameState::from_fen(fen, tables).unwrap()
}

fn white(from: usize, to: usize) -> Move {
    Move { from, to, promoted_piece: None, piece_color: Color::White }
}

fn black(from: usize, to: usize) -> Move {
    Move { from, to, promoted_piece: None, piece_color: Color::Black }
}

fn same(a: &GameState, b: &GameState) -> bool {
    (0..64).all(|sq| a.pieces.piece_on(sq) == b.pieces.piece_on(sq))
        && a.pieces.white_pieces == b.pieces.white_pieces
        && a.pieces.black_pieces == b.pieces.black_pieces
        && a.active_color == b.active_color
        && a.white_castling == b.white_castling
        && a.black_castling == b.black_castling
        && a.legal_castling == b.legal_castling
        && a.en_passant == b.en_passant
        && a.masks == b.masks
        && a.empty == b.empty
        && a.w_king_idx == b.w_king_idx
        && a.b_king_idx == b.b_king_idx
}

#[test]
fn a_plain_move_moves_one_piece_and_passes_the_turn() {
    let tables = Tables::new();
    let s = GameState::default(&tables);
    let next = s.apply_move(white(6, 21), &tables);
    assert!(
        same(&next, &state("rnbqkbnr/pppppppp/8/8/8/5N2/PPPPPPPP/RNBQKB1R b KQkq - 0 1", &tables)),
    );
    assert_eq!(next.halfmoves, s.halfmoves);
    assert_eq!(next.fullmoves, s.fullmoves);
    assert_eq!(next.pieces.w_knight, (1 << 1) | (1 << 21));
}

#[test]
fn a_capture_removes_the_captured_piece() {
    let tables = Tables::new();
    let s = state("4k3/8/8/3q4/4P3/8/8/4K3 w - - 0 1", &tables);
    let next = s.apply_move(white(28, 35), &tables);
    assert!(same(&next, &state("4k3/8/8/3P4/8/8/8/4K3 b - - 0 1", &tables)));
    assert_eq!(next.pieces.b_queen, 0);
}

#[test]
fn a_double_step_sets_the_target_only_beside_an_enemy_pawn() {
    let tables = Tables::new();
    let s = GameState::default(&tables);
    assert_eq!(s.apply_move(white(12, 28), &tables).en_passant, None);
    let s = state("4k3/8/8/8/3p4/8/4P3/4K3 w - - 0 1", &tables);
    assert_eq!(s.apply_move(white(12, 28), &tables).en_passant, Some(20));
    assert_eq!(s.apply_move(white(12, 20), &tables).en_passant, None);
    let s = state("4k3/8/8/8/5p2/8/4P3/4K3 w - - 0 1", &tables);
    assert_eq!(s.apply_move(white(12, 28), &tables).en_passant, Some(20));
    // A pawn on the far side of the board is not beside.
    let s = state("4k3/8/8/8/p7/8/7P/4K3 w - - 0 1", &tables);
    assert_eq!(s.apply_move(white(15, 31), &tables).en_passant, None);
    // An enemy piece that is no pawn does not count.
    let s = state("4k3/8/8/8/3n4/8/4P3/4K3 w - - 0 1", &tables);
    assert_eq!(s.apply_move(white(12, 28), &tables).en_passant, None);
    let s = state("4k3/4p3/8/3P4/8/8/8/4K3 b - - 0 1", &tables);
    assert_eq!(s.apply_move(black(52, 36), &tables).en_passant, Some(44));
    // The target lasts for one move only.
    let s = state("4k3/8/8/3pP3/8/8/8/4K3 w - d6 0 1", &tables);
    assert_eq!(s.apply_move(white(4, 5), &tables).en_passant, None);
}

#[test]
fn a_capture_en_passant_removes_the_pawn_behind_the_target() {
    let tables = Tables::new();
    let s = state("4k3/8/8/3pP3/8/8/8/4K3 w - d6 0 1", &tables);
    let next = s.apply_move(white(36, 43), &tables);
    assert!(same(&next, &state("4k3/8/3P4/8/8/8/8/4K3 b - - 0 1", &tables)));
    let s = state("4k3/8/8/8/3pP3/8/8/4K3 b - e3 0 1", &tables);
    let next = s.apply_move(black(27, 20), &tables);
    assert!(same(&next, &state("4k3/8/8/8/8/4p3/8/4K3 w - - 0 1", &tables)));
    // A push of the same pawn leaves the other pawn alone.
    let s = state("4k3/8/8/3pP3/8/8/8/4K3 w - d6 0 1", &tables);
    let next = s.apply_move(white(36, 44), &tables);
    assert!(same(&next, &state("4k3/8/4P3/3p4/8/8/8/4K3 b - - 0 1", &tables)));
}

#[test]
fn a_promotion_puts_the_new_piece_on_the_board() {
    let tables = Tables::new();
    let s = state("3n4/4P3/8/8/8/8/8/k3K3 w - - 0 1", &tables);
    let m = Move {
        from: 52,
        to: 59,
        promoted_piece: Some(PromotionType::Knight),
        piece_color: Color::White,
    };
    let next = s.apply_move(m, &tables);
    assert!(same(&next, &state("3N4/8/8/8/8/8/8/k3K3 b - - 0 1", &tables)));
    let m = Move {
        from: 52,
        to: 60,
        promoted_piece: Some(PromotionType::Queen),
        piece_color: Color::White,
    };
    let next = s.apply_move(m, &tables);
    assert!(same(&next, &state("3nQ3/8/8/8/8/8/8/k3K3 b - - 0 1", &tables)));
    assert_eq!(next.pieces.piece_on(60), Some((Color::White, PieceType::Queen)));
    assert_eq!(next.pieces.w_pawn, 0);
}

#[test]
fn a_castle_moves_the_rook_too() {
    let tables = Tables::new();
    let s = state("r3k2r/8/8/8/8/8/8/R3K2R w KQkq - 0 1", &tables);
    let next = s.apply_move(white(4, 6), &tables);
    assert!(same(&next, &state("r3k2r/8/8/8/8/8/8/R4RK1 b kq - 0 1", &tables)));
    let next = s.apply_move(white(4, 2), &tables);
    assert!(same(&next, &state("r3k2r/8/8/8/8/8/8/2KR3R b kq - 0 1", &tables)));
    let next = s.apply_move(black(60, 62), &tables);
    assert!(same(&next, &state("r4rk1/8/8/8/8/8/8/R3K2R w KQ - 0 1", &tables)));
    let next = s.apply_move(black(60, 58), &tables);
    assert!(same(&next, &state("2kr3r/8/8/8/8/8/8/R3K2R w KQ - 0 1", &tables)));
}

#[test]
fn castling_rights_are_lost_for_good() {
    let tables = Tables::new();
    let s = state("r3k2r/8/8/8/8/8/8/R3K2R w KQkq - 0 1", &tables);
    // The king moves.
    let next = s.apply_move(white(4, 12), &tables);
    assert_eq!(next.white_castling, (false, false));
    assert_eq!(next.black_castling, (true, true));
    // It keeps them lost when it comes back.
    let back = next.apply_move(black(60, 52), &tables).apply_move(white(12, 4), &tables);
    assert_eq!(back.white_castling, (false, false));
    assert_eq!(back.black_castling, (false, false));
    assert_eq!(back.legal_castling, (false, false, false, false));
    // A rook moves from its corner.
    let next = s.apply_move(white(0, 8), &tables);
    assert_eq!(next.white_castling, (false, true));
    let next = s.apply_move(white(7, 15), &tables);
    assert_eq!(next.white_castling, (true, false));
    let next = s.apply_move(black(56, 48), &tables);
    assert_eq!(next.black_castling, (false, true));
    // A rook is taken in its corner.
    let next = s.apply_move(white(7, 63), &tables);
    assert_eq!(next.white_castling, (true, false));
    assert_eq!(next.black_castling, (true, false));
    let next = s.apply_move(white(0, 56), &tables);
    assert_eq!(next.white_castling, (false, true));
    assert_eq!(next.black_castling, (false, true));
}

#[test]
fn only_moves_of_a_piece_on_the_board_can_be_played() {
    let tables = Tables::new();
    let s = GameState::default(&tables);
    assert!(s.is_playable(white(12, 28)));
    assert!(s.is_playable(black(52, 36)));
    assert!(!s.is_playable(white(28, 36)));
    assert!(!s.is_playable(black(12, 28)));
    assert!(!s.is_playable(white(12, 12)));
    assert!(!s.is_playable(white(12, 64)));
    assert!(!s.is_playable(white(64, 12)));
    assert!(!s.is_playable(white(3, 60)));
    let promote = Move {
        from: 1,
        to: 18,
        promoted_piece: Some(PromotionType::Queen),
        piece_color: Color::White,
    };
    assert!(!s.is_playable(promote));
    for m in s.moves(Color::White, &tables) {
        assert!(s.is_playable(m));
    }
}

#[test]
fn a_state_is_made_of_its_parts() {
    let tables = Tables::new();
    let start = GameState::default(&tables);
    let s = GameState::new(
        start.pieces,
        Color::Black,
        (true, false),
        (false, true),
        Some(20),
        7,
        9,
        &tables,
    )
    .unwrap();
    assert_eq!(s.active_color, Color::Black);
    assert_eq!(s.white_castling, (true, false));
    assert_eq!(s.black_castling, (false, true));
    assert_eq!(s.en_passant, Some(20));
    assert_eq!(s.halfmoves, 7);
    assert_eq!(s.fullmoves, 9);
    assert_eq!(s.masks, start.masks);
    let bad = GameState::new(
        start.pieces,
        Color::White,
        (true, true),
        (true, true),
        Some(64),
        0,
        1,
        &tables,
    );
    assert_eq!(bad.err(), Some(StateError::EnPassantOffBoard));
    let edge = GameState::new(
        start.pieces,
        Color::White,
        (true, true),
        (true, true),
        Some(63),
        0,
        1,
        &tables,
    );
    assert!(edge.is_ok());
}

#[test]
fn the_start_position_is_the_usual_one() {
    let tables = Tables::new();
    let s = GameState::default(&tables);
    assert!(same(&s, &state("rnbqkbnr/pppppppp/8/8/8/8/PPPPPPPP/RNBQKBNR w KQkq - 0 1", &tables)));
    assert_eq!(s.halfmoves, 0);
    assert_eq!(s.fullmoves, 1);
    let board: Vec<_> = (0..64).map(|sq| s.pieces.piece_on(sq)).collect();
    let mut array = [None; 64];
    array.copy_from_slice(&board);
    assert_eq!(Pieces::new(&array).unwrap().w_pawn, 0xff00);
}

#[test]
fn only_king_and_rook_touch_the_castling_rights() {
    let tables = Tables::new();
    // A knight that leaves the corner of a rook leaves the right as it is.
    let s = state("4k3/8/8/8/8/8/8/N3K3 w Q - 0 1", &tables);
    let next = s.apply_move(white(0, 17), &tables);
    assert_eq!(next.white_castling, (true, false));
    assert_eq!(next.legal_castling, (false, false, false, false));
    // An enemy rook that lands on the empty corner takes nothing.
    let s = state("r3k3/8/8/8/8/8/8/4K2R b KQq - 0 1", &tables);
    let next = s.apply_move(black(56, 0), &tables);
    assert_eq!(next.white_castling, (true, true));
    assert_eq!(next.black_castling, (false, false));
    // A piece that is no rook and is taken on the corner costs no right.
    let s = state("r3k3/8/8/8/8/8/8/N3K2R b KQq - 0 1", &tables);
    let next = s.apply_move(black(56, 0), &tables);
    assert_eq!(next.white_castling, (true, true));
    // The rook of the other colour on the corner costs no right when it leaves.
    let s = state("4k3/8/8/8/8/8/8/r3K2R b KQ - 0 1", &tables);
    let next = s.apply_move(black(0, 8), &tables);
    assert_eq!(next.white_castling, (true, true));
    // The rook itself does: when it leaves, and when it is taken.
    let s = state("r3k3/8/8/8/8/8/8/R3K2R w KQq - 0 1", &tables);
    assert_eq!(s.apply_move(white(0, 8), &tables).white_castling, (false, true));
    assert_eq!(s.apply_move(white(7, 15), &tables).white_castling, (true, false));
    let s = state("r3k3/8/8/8/8/8/8/R3K2R b KQq - 0 1", &tables);
    let next = s.apply_move(black(56, 0), &tables);
    assert_eq!(next.white_castling, (false, true));
    assert_eq!(next.black_castling, (false, false));
    // A right that is not held does not come back, and the others stay.
    let s = state("r3k2r/8/8/8/8/8/8/R3K2R w Kq - 0 1", &tables);
    let next = s.apply_move(white(4, 12), &tables);
    assert_eq!(next.white_castling, (false, false));
    assert_eq!(next.black_castling, (true, false));
    let next = s.apply_move(white(0, 1), &tables);
    assert_eq!(next.white_castling, (false, true));
    assert_eq!(next.black_castling, (true, false));
}
