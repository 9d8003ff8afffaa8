use chess_movegen::board::{Color, PromotionType};
use chess_movegen::game::GameState;
use chess_movegen::lookup::Tables;
use chess_movegen::movegen::Move;

fn state(fen: &str, tables: &Tables) -> GameState {
    GameState::from_fen(fen, tables).unwrap()
}

fn white(from: usize, to: usize) -> Move {
    Move { from, to, promoted_piece: None, piece_color: Color::White }
}

fn black(from: usize, to: usize) -> Move {
    Move { from, to, promoted_piece: None, piece_color: Color::Black }
}

#[test]
fn the_start_position_has_twenty_moves_in_order() {
    let tables = Tables::new();
    let s = GameState::default(&tables);
    let moves = s.moves(Color::White, &tables);
    let expected = vec![
        white(1, 16), white(1, 18), white(6, 21), white(6, 23),
        white(8, 16), white(8, 24), white(9, 17), white(9, 25),
        white(10, 18), white(10, 26), white(11, 19), white(11, 27),
        white(12, 20), white(12, 28), white(13, 21), white(13, 29),
        white(14, 22), white(14, 30), white(15, 23), white(15, 31),
    ];
    assert_eq!(moves, expected);
    assert_eq!(s.king_moves(Color::White, &tables), vec![]);
    assert_eq!(s.queen_moves(Color::White, &tables), vec![]);
    assert_eq!(s.rook_moves(Color::White, &tables), vec![]);
    assert_eq!(s.bishop_moves(Color::White, &tables), vec![]);
    assert_eq!(s.knight_moves(Color::White, &tables), expected[..4].to_vec());
    assert_eq!(s.pawn_moves(Color::White, &tables), expected[4..].to_vec());
    let replies = s.moves(Color::Black, &tables);
    assert_eq!(replies.len(), 20);
    assert_eq!(replies[0], black(57, 40));
    assert_eq!(replies[19], black(55, 47));
}

#[test]
fn moves_come_by_piece_type_then_square() {
    let tables = Tables::new();
    let s = state("4k3/8/8/8/8/8/P7/RNBQK3 w - - 0 1", &tables);
    let moves = s.moves(Color::White, &tables);
    let mut expected = s.king_moves(Color::White, &tables);
    expected.extend(s.queen_moves(Color::White, &tables));
    expected.extend(s.rook_moves(Color::White, &tables));
    expected.extend(s.bishop_moves(Color::White, &tables));
    expected.extend(s.knight_moves(Color::White, &tables));
    expected.extend(s.pawn_moves(Color::White, &tables));
    assert_eq!(moves, expected);
    assert_eq!(
        s.king_moves(Color::White, &tables),
        vec![white(4, 5), white(4, 11), white(4, 12), white(4, 13)],
    );
    assert_eq!(s.rook_moves(Color::White, &tables), vec![]);
    assert_eq!(
        s.knight_moves(Color::White, &tables),
        vec![white(1, 11), white(1, 16), white(1, 18)],
    );
    assert_eq!(s.pawn_moves(Color::White, &tables), vec![white(8, 16), white(8, 24)]);
    assert_eq!(
        s.bishop_moves(Color::White, &tables),
        vec![
            white(2, 9),
            white(2, 11),
            white(2, 16),
            white(2, 20),
            white(2, 29),
            white(2, 38),
            white(2, 47),
        ]
    );
}

#[test]
fn a_pinned_rook_stays_on_the_line_of_the_pin() {
    let tables = Tables::new();
    let s = state("4k3/8/8/8/4r3/8/4R3/4K3 w - - 0 1", &tables);
    assert_eq!(s.rook_moves(Color::White, &tables), vec![white(12, 20), white(12, 28)]);
    let all = s.moves(Color::White, &tables);
    assert!(!all.contains(&white(12, 11)));
    assert!(!all.contains(&white(12, 13)));
    assert!(!all.contains(&white(12, 8)));
}

#[test]
fn a_pinned_queen_keeps_the_moves_on_the_line() {
    let tables = Tables::new();
    // King d1, queen f3, bishop h5: the queen moves on the diagonal d1-h5 only.
    let s = state("4k3/8/8/7b/8/5Q2/8/3K4 w - - 0 1", &tables);
    assert_eq!(
        s.queen_moves(Color::White, &tables),
        vec![white(21, 12), white(21, 30), white(21, 39)],
    );
}

#[test]
fn a_piece_pinned_across_its_lines_has_no_move() {
    let tables = Tables::new();
    // A bishop pinned on a file, a rook pinned on a diagonal, a knight pinned.
    let s = state("4k3/8/8/8/4r3/8/4B3/4K3 w - - 0 1", &tables);
    assert_eq!(s.bishop_moves(Color::White, &tables), vec![]);
    let s = state("4k3/8/8/7b/8/5R2/8/3K4 w - - 0 1", &tables);
    assert_eq!(s.rook_moves(Color::White, &tables), vec![]);
    let s = state("4k3/8/8/7b/8/5N2/8/3K4 w - - 0 1", &tables);
    assert_eq!(s.knight_moves(Color::White, &tables), vec![]);
    let s = state("4k3/8/8/8/4r3/8/4N3/4K3 w - - 0 1", &tables);
    assert_eq!(s.knight_moves(Color::White, &tables), vec![]);
}

#[test]
fn a_pinned_pawn_moves_along_the_pin_only() {
    let tables = Tables::new();
    // Pinned on the file: it may push, it may not capture.
    let s = state("4k3/8/8/8/4r3/3p4/4P3/4K3 w - - 0 1", &tables);
    assert_eq!(s.pawn_moves(Color::White, &tables), vec![white(12, 20)]);
    // Pinned on the diagonal: it may capture the pinner, it may not push.
    let s = state("4k3/8/8/8/8/2b5/3P4/4K3 w - - 0 1", &tables);
    assert_eq!(s.pawn_moves(Color::White, &tables), vec![white(11, 18)]);
    // Pinned on the rank: no move at all.
    let s = state("4k3/8/8/8/8/8/r2PK3/8 w - - 0 1", &tables);
    assert_eq!(s.pawn_moves(Color::White, &tables), vec![]);
}

#[test]
fn a_single_check_is_blocked_or_the_checker_taken() {
    let tables = Tables::new();
    let s = state("4k3/8/8/8/4r3/Q7/8/4K3 w - - 0 1", &tables);
    assert_eq!(
        s.moves(Color::White, &tables),
        vec![white(4, 3), white(4, 5), white(4, 11), white(4, 13), white(16, 20)]
    );
    let s = state("4k3/8/8/8/Q3r3/8/8/4K3 w - - 0 1", &tables);
    assert_eq!(s.queen_moves(Color::White, &tables), vec![white(24, 28)]);
    // A knight that gives check can only be taken.
    let s = state("4k3/8/8/8/8/3n4/4P3/4K3 w - - 0 1", &tables);
    assert_eq!(s.pawn_moves(Color::White, &tables), vec![white(12, 19)]);
    // A knight answers a check too.
    let s = state("4k3/8/8/8/4r3/8/8/1N2K3 w - - 0 1", &tables);
    assert_eq!(s.knight_moves(Color::White, &tables), vec![]);
    let s = state("4k3/8/8/8/4r3/8/8/2N1K3 w - - 0 1", &tables);
    assert_eq!(s.knight_moves(Color::White, &tables), vec![white(2, 12)]);
}

#[test]
fn in_double_check_only_the_king_moves() {
    let tables = Tables::new();
    let s = state("4k3/8/8/8/4r3/3n4/8/Q3K3 w - - 0 1", &tables);
    let moves = s.moves(Color::White, &tables);
    assert_eq!(moves, vec![white(4, 3), white(4, 5), white(4, 11)]);
    assert_eq!(moves, s.king_moves(Color::White, &tables));
}

#[test]
fn the_king_does_not_step_into_danger() {
    let tables = Tables::new();
    // Behind the king, on the line of the checking rook, is no refuge.
    let s = state("4k3/8/8/8/8/8/8/r2K4 w - - 0 1", &tables);
    assert_eq!(s.king_moves(Color::White, &tables), vec![white(3, 10), white(3, 11), white(3, 12)]);
    // A defended piece cannot be taken by the king.
    let s = state("4k3/8/8/8/8/2b5/3r4/4K3 w - - 0 1", &tables);
    assert_eq!(s.king_moves(Color::White, &tables), vec![white(4, 5)]);
}

#[test]
fn no_moves_means_mate_or_stalemate() {
    let tables = Tables::new();
    // Back-rank mate.
    let s = state("6k1/5ppp/8/8/8/8/8/R3K2R b - - 0 1", &tables);
    assert_eq!(s.moves(Color::Black, &tables).len(), 8);
    let s = state("R5k1/5ppp/8/8/8/8/8/4K3 b - - 0 1", &tables);
    assert_eq!(s.moves(Color::Black, &tables), vec![]);
    assert_ne!(s.masks.black_checkers, 0);
    // Stalemate.
    let s = state("7k/5Q2/6K1/8/8/8/8/8 b - - 0 1", &tables);
    assert_eq!(s.moves(Color::Black, &tables), vec![]);
    assert_eq!(s.masks.black_checkers, 0);
}

#[test]
fn en_passant_is_offered() {
    let tables = Tables::new();
    let s = state("4k3/8/8/3pP3/8/8/8/4K3 w - d6 0 1", &tables);
    assert_eq!(s.pawn_moves(Color::White, &tables), vec![white(36, 43), white(36, 44)]);
    let s = state("4k3/8/8/8/3pP3/8/8/4K3 b - e3 0 1", &tables);
    assert_eq!(s.pawn_moves(Color::Black, &tables), vec![black(27, 19), black(27, 20)]);
    // Without the target there is no capture.
    let s = state("4k3/8/8/3pP3/8/8/8/4K3 w - - 0 1", &tables);
    assert_eq!(s.pawn_moves(Color::White, &tables), vec![white(36, 44)]);
    // A target on the third rank is for Black alone.
    let s = state("4k3/8/8/8/8/8/3Pp3/4K3 w - e3 0 1", &tables);
    assert_eq!(s.pawn_moves(Color::White, &tables), vec![white(11, 19), white(11, 27)]);
}

#[test]
fn en_passant_that_uncovers_the_king_on_the_rank_is_left_out() {
    let tables = Tables::new();
    // Both pawns would leave the fourth rank and the queen would see the king.
    let s = state("8/8/8/8/k2Pp2Q/8/8/3K4 b - d3 0 1", &tables);
    assert_eq!(s.pawn_moves(Color::Black, &tables), vec![black(28, 20)]);
    assert!(!s.moves(Color::Black, &tables).contains(&black(28, 19)));
    // With the queen off the rank the capture is there.
    let s = state("8/8/8/8/k2Pp3/7Q/8/3K4 b - d3 0 1", &tables);
    assert_eq!(s.pawn_moves(Color::Black, &tables), vec![black(28, 19), black(28, 20)]);
    // The same for White on the fifth rank.
    let s = state("8/8/8/K2pP2r/8/8/8/7k w - d6 0 1", &tables);
    assert_eq!(s.pawn_moves(Color::White, &tables), vec![white(36, 44)]);
    // A piece between king and pawns keeps the capture.
    let s = state("8/8/8/KN1pP2r/8/8/8/7k w - d6 0 1", &tables);
    assert_eq!(s.pawn_moves(Color::White, &tables), vec![white(36, 43), white(36, 44)]);
}

#[test]
fn en_passant_takes_a_checking_pawn() {
    let tables = Tables::new();
    // The pawn on d5 has just come two steps and gives check to the king on e4.
    let s = state("4k3/8/8/3pP3/4K3/8/8/8 w - d6 0 1", &tables);
    assert_eq!(s.masks.white_checkers, 1 << 35);
    assert_eq!(s.pawn_moves(Color::White, &tables), vec![white(36, 43)]);
}

#[test]
fn pawns_promote_on_the_last_rank() {
    let tables = Tables::new();
    let s = state("3n4/4P3/8/8/8/8/8/k3K3 w - - 0 1", &tables);
    let promo = |to: usize, piece: PromotionType| Move {
        from: 52,
        to,
        promoted_piece: Some(piece),
        piece_color: Color::White,
    };
    assert_eq!(
        s.pawn_moves(Color::White, &tables),
        vec![
            promo(59, PromotionType::Queen),
            promo(59, PromotionType::Rook),
            promo(59, PromotionType::Bishop),
            promo(59, PromotionType::Knight),
            promo(60, PromotionType::Queen),
            promo(60, PromotionType::Rook),
            promo(60, PromotionType::Bishop),
            promo(60, PromotionType::Knight),
        ]
    );
    let s = state("4k3/8/8/8/8/8/3p4/K7 b - - 0 1", &tables);
    let moves = s.pawn_moves(Color::Black, &tables);
    assert_eq!(moves.len(), 4);
    assert_eq!(
        moves[0],
        Move {
            from: 11,
            to: 3,
            promoted_piece: Some(PromotionType::Queen),
            piece_color: Color::Black,
        },
    );
    assert_eq!(
        moves[3],
        Move {
            from: 11,
            to: 3,
            promoted_piece: Some(PromotionType::Knight),
            piece_color: Color::Black,
        },
    );
    // One rank before the last there is no promotion.
    let s = state("4k3/8/8/8/8/3p4/8/K7 b - - 0 1", &tables);
    assert_eq!(s.pawn_moves(Color::Black, &tables), vec![black(19, 11)]);
}

#[test]
fn a_pawn_steps_two_only_from_its_rank_and_over_empty_squares() {
    let tables = Tables::new();
    let s = state("4k3/8/8/8/8/4n3/4P3/4K3 w - - 0 1", &tables);
    assert_eq!(s.pawn_moves(Color::White, &tables), vec![]);
    let s = state("4k3/8/8/8/4n3/8/4P3/4K3 w - - 0 1", &tables);
    assert_eq!(s.pawn_moves(Color::White, &tables), vec![white(12, 20)]);
    let s = state("4k3/8/8/8/8/4P3/8/4K3 w - - 0 1", &tables);
    assert_eq!(s.pawn_moves(Color::White, &tables), vec![white(20, 28)]);
    let s = state("4k3/4p3/8/8/8/8/8/4K3 b - - 0 1", &tables);
    assert_eq!(s.pawn_moves(Color::Black, &tables), vec![black(52, 36), black(52, 44)]);
}

#[test]
fn castles_are_among_the_king_moves() {
    let tables = Tables::new();
    let s = state("r3k2r/8/8/8/8/8/8/R3K2R w KQkq - 0 1", &tables);
    assert_eq!(s.legal_castling, (true, true, true, true));
    let king = s.king_moves(Color::White, &tables);
    assert_eq!(
        king,
        vec![
            white(4, 2),
            white(4, 3),
            white(4, 5),
            white(4, 6),
            white(4, 11),
            white(4, 12),
            white(4, 13),
        ]
    );
    let king = s.king_moves(Color::Black, &tables);
    assert!(king.contains(&black(60, 58)));
    assert!(king.contains(&black(60, 62)));
}

fn castles(fen: &str, tables: &Tables) -> (bool, bool, bool, bool) {
    let s = state(fen, tables);
    let w = s.moves(Color::White, tables);
    let b = s.moves(Color::Black, tables);
    let found =
        (
            w.contains(&white(4, 2)),
            w.contains(&white(4, 6)),
            b.contains(&black(60, 58)),
            b.contains(&black(60, 62)),
        );
    assert_eq!(found, s.legal_castling);
    found
}

#[test]
fn each_castle_is_gated_by_its_own_conditions() {
    let tables = Tables::new();
    assert_eq!(castles("r3k2r/8/8/8/8/8/8/R3K2R w KQkq - 0 1", &tables), (true, true, true, true));
    // The right lost.
    assert_eq!(castles("r3k2r/8/8/8/8/8/8/R3K2R w Qkq - 0 1", &tables), (true, false, true, true));
    assert_eq!(castles("r3k2r/8/8/8/8/8/8/R3K2R w Kkq - 0 1", &tables), (false, true, true, true));
    assert_eq!(castles("r3k2r/8/8/8/8/8/8/R3K2R w KQq - 0 1", &tables), (true, true, true, false));
    assert_eq!(castles("r3k2r/8/8/8/8/8/8/R3K2R w KQk - 0 1", &tables), (true, true, false, true));
    assert_eq!(castles("r3k2r/8/8/8/8/8/8/R3K2R w - - 0 1", &tables), (false, false, false, false));
    // The rook gone from its corner.
    assert_eq!(castles("r3k2r/8/8/8/8/8/8/R3K3 w KQkq - 0 1", &tables), (true, false, true, true));
    assert_eq!(castles("r3k2r/8/8/8/8/8/7R/R3K3 w KQkq - 0 1", &tables), (true, false, true, true));
    assert_eq!(castles("4k2r/8/8/8/8/8/8/R3K2R w KQkq - 0 1", &tables), (true, true, false, true));
    // A square between king and rook occupied.
    assert_eq!(
        castles("r3k2r/8/8/8/8/8/8/R3K1NR w KQkq - 0 1", &tables),
        (true, false, true, true),
    );
    assert_eq!(
        castles("r3k2r/8/8/8/8/8/8/RN2K2R w KQkq - 0 1", &tables),
        (false, true, true, true),
    );
    assert_eq!(
        castles("rn2k2r/8/8/8/8/8/8/R3K2R w KQkq - 0 1", &tables),
        (true, true, false, true),
    );
    // A square that the king passes or lands on attacked.
    assert_eq!(castles("r3k3/8/8/8/8/8/8/R3K2R w KQq - 0 1", &tables), (true, true, true, false));
    assert_eq!(castles("4kr2/8/8/8/8/8/8/R3K2R w KQ - 0 1", &tables), (true, false, false, false));
    assert_eq!(castles("4k1r1/8/8/8/8/8/8/R3K2R w KQ - 0 1", &tables), (true, false, false, false));
    assert_eq!(castles("3rk3/8/8/8/8/8/8/R3K2R w KQ - 0 1", &tables), (false, true, false, false));
    assert_eq!(castles("2r1k3/8/8/8/8/8/8/R3K2R w KQ - 0 1", &tables), (false, true, false, false));
    // An attack on the rook's side of the queenside does not matter.
    assert_eq!(castles("1r2k3/8/8/8/8/8/8/R3K2R w KQ - 0 1", &tables), (true, true, false, false));
    assert_eq!(castles("r3k3/8/8/8/8/8/8/R3K2R w KQ - 0 1", &tables), (true, true, false, false));
    // The king away from home.
    assert_eq!(
        castles("r3k2r/8/8/8/8/8/8/R2K3R w KQkq - 0 1", &tables),
        (false, false, true, true),
    );
}

#[test]
fn no_king_is_ever_taken() {
    let tables = Tables::new();
    // The side that is not to move stands in check: its king is still no target.
    let s = state("4k3/8/8/8/8/8/8/4RK2 w - - 0 1", &tables);
    assert!(!s.moves(Color::White, &tables).contains(&white(4, 60)));
    assert!(s.moves(Color::White, &tables).contains(&white(4, 52)));
}
