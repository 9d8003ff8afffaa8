use chess_movegen::board::Color;
use chess_movegen::game::GameState;
use chess_movegen::lookup::Tables;
use chess_movegen::masks::{diagonal_attacks, straight_attacks, attacked_squares, Masks};

fn squares(list: &[usize]) -> u64 {
    list.iter().fold(0, |b, sq| b | (1u64 << sq))
}

fn state(fen: &str, tables: &Tables) -> GameState {
    GameState::from_fen(fen, tables).unwrap()
}

#[test]
fn masks_of_the_start_position() {
    let tables = Tables::new();
    let s = GameState::default(&tables);
    let m = s.masks;
    assert_eq!(m.white_checkers, 0);
    assert_eq!(m.black_checkers, 0);
    assert_eq!(m.white_pinned, 0);
    assert_eq!(m.black_pinned, 0);
    assert_eq!(m.white_checkmask, !s.pieces.white_pieces);
    assert_eq!(m.black_checkmask, !s.pieces.black_pieces);
    assert_eq!(m.white_space, 0xff_ff7e);
    assert_eq!(m.black_space, 0x7eff_ff00_0000_0000);
    assert_eq!(m.white_king_danger, m.black_space);
    assert_eq!(m.black_king_danger, m.white_space);
    assert_eq!(s.empty, 0x0000_ffff_ffff_0000);
    assert_eq!(s.w_king_idx, 4);
    assert_eq!(s.b_king_idx, 60);
    assert_eq!(s.legal_castling, (false, false, false, false));
}

#[test]
fn a_distant_check_is_answered_on_the_squares_between() {
    let tables = Tables::new();
    let s = state("4k3/8/8/8/4r3/8/8/4K3 w - - 0 1", &tables);
    assert_eq!(s.masks.white_checkers, squares(&[28]));
    assert_eq!(s.masks.white_checkmask, squares(&[12, 20, 28]));
    assert_eq!(s.masks.black_checkers, 0);
    assert_eq!(s.masks.black_checkmask, !s.pieces.black_pieces);
    assert_eq!(s.masks.checkers_of(Color::White), squares(&[28]));
    assert_eq!(s.masks.checkmask_of(Color::White), squares(&[12, 20, 28]));
}

#[test]
fn a_knight_check_is_answered_by_capture_only() {
    let tables = Tables::new();
    let s = state("4k3/8/8/8/8/3n4/8/4K3 w - - 0 1", &tables);
    assert_eq!(s.masks.white_checkers, squares(&[19]));
    assert_eq!(s.masks.white_checkmask, squares(&[19]));
}

#[test]
fn a_pawn_check_is_seen() {
    let tables = Tables::new();
    let s = state("4k3/8/8/8/8/8/3p4/4K3 w - - 0 1", &tables);
    assert_eq!(s.masks.white_checkers, squares(&[11]));
    assert_eq!(s.masks.white_checkmask, squares(&[11]));
    let s = state("4k3/3P4/8/8/8/8/8/4K3 b - - 0 1", &tables);
    assert_eq!(s.masks.black_checkers, squares(&[51]));
    // A pawn straight ahead of the king gives no check.
    let s = state("4k3/4P3/8/8/8/8/8/4K3 b - - 0 1", &tables);
    assert_eq!(s.masks.black_checkers, 0);
}

#[test]
fn a_double_check_has_two_checkers() {
    let tables = Tables::new();
    let s = state("4k3/8/8/8/4r3/3n4/8/Q3K3 w - - 0 1", &tables);
    assert_eq!(s.masks.white_checkers, squares(&[19, 28]));
    assert_eq!(s.masks.white_checkmask, squares(&[12, 20, 28, 19]));
    assert!(s.in_double_check(Color::White));
    assert!(!s.in_double_check(Color::Black));
}

#[test]
fn a_shielding_piece_is_pinned() {
    let tables = Tables::new();
    let s = state("4k3/8/8/8/4r3/8/4B3/4K3 w - - 0 1", &tables);
    assert_eq!(s.masks.white_checkers, 0);
    assert_eq!(s.masks.white_pinned, squares(&[12]));
    assert_eq!(s.masks.white_pinmask.v, squares(&[12, 20, 28]));
    assert_eq!(s.masks.white_pinmask.h, squares(&[0, 1, 2, 3, 5, 6, 7]));
    assert_eq!(s.masks.pinned_of(Color::White), squares(&[12]));
    assert_eq!(s.masks.pinmask_of(Color::White).v, squares(&[12, 20, 28]));
    // Two shields are no pin.
    let s = state("4k3/8/8/8/4r3/4N3/4B3/4K3 w - - 0 1", &tables);
    assert_eq!(s.masks.white_pinned, 0);
    // A bishop does not pin along a file.
    let s = state("4k3/8/8/8/4b3/8/4B3/4K3 w - - 0 1", &tables);
    assert_eq!(s.masks.white_pinned, 0);
    // An enemy piece in between is not pinned.
    let s = state("4k3/8/8/8/4r3/8/4n3/4K3 w - - 0 1", &tables);
    assert_eq!(s.masks.white_pinned, 0);
    assert_eq!(s.masks.black_pinned, 0);
}

#[test]
fn a_diagonal_pin_is_seen() {
    let tables = Tables::new();
    let s = state("4k3/8/8/7b/8/5N2/8/3K4 w - - 0 1", &tables);
    // King d1, knight f3, bishop h5 on one diagonal.
    assert_eq!(s.masks.white_pinned, squares(&[21]));
    assert_eq!(s.masks.white_pinmask.d1, squares(&[12, 21, 30, 39]));
    assert_eq!(s.masks.white_pinmask.d2, squares(&[10, 17, 24]));
}

#[test]
fn king_danger_looks_through_the_king() {
    let tables = Tables::new();
    let s = state("4k3/8/8/8/8/8/8/r3K3 w - - 0 1", &tables);
    // The rook sees up to the king; behind the king the square stays unsafe.
    assert_eq!(s.masks.black_space & squares(&[1, 2, 3, 4, 5]), squares(&[1, 2, 3, 4]));
    assert_eq!(
        s.masks.white_king_danger & squares(&[1, 2, 3, 4, 5, 6, 7]),
        squares(&[1, 2, 3, 4, 5, 6, 7]),
    );
    assert_eq!(s.masks.space_of(Color::Black), s.masks.black_space);
    assert_eq!(s.masks.king_danger_of(Color::White), s.masks.white_king_danger);
}

#[test]
fn masks_are_recomputed_from_the_pieces_alone() {
    let tables = Tables::new();
    let s = state("r3k2r/p1ppqpb1/bn2pnp1/3PN3/1p2P3/2N2Q1p/PPPBBPPP/R3K2R w KQkq - 0 1", &tables);
    assert_eq!(Masks::compute(&s.pieces, &tables), s.masks);
    assert_eq!(
        attacked_squares(&s.pieces, &tables, Color::White, s.empty),
        s.masks.white_space
    );
    assert_eq!(
        attacked_squares(&s.pieces, &tables, Color::White, s.empty | s.pieces.b_king),
        s.masks.black_king_danger
    );
}

#[test]
fn straight_and_diagonal_attacks() {
    let d4 = 1u64 << 27;
    assert_eq!(
        straight_attacks(d4, !d4),
        squares(&[3, 11, 19, 35, 43, 51, 59, 24, 25, 26, 28, 29, 30, 31])
    );
    assert_eq!(
        diagonal_attacks(d4, !d4),
        squares(&[0, 9, 18, 36, 45, 54, 63, 6, 13, 20, 34, 41, 48])
    );
}
