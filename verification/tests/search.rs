use chess_movegen::board::{Color, PromotionType};
use chess_movegen::game::GameState;
use chess_movegen::lookup::Tables;
use chess_movegen::movegen::Move;
use chess_movegen::search::count_ones;

fn state(fen: &str, tables: &Tables) -> GameState {
    GameState::from_fen(fen, tables).unwrap()
}

fn white(from: usize, to: usize) -> Move {
    Move { from, to, promoted_piece: None, piece_color: Color::White }
}

#[test]
fn perft_of_the_start_position() {
    let tables = Tables::new();
    let start = GameState::default(&tables);
    assert_eq!(start.perft(0, &tables), 1);
    assert_eq!(start.perft(1, &tables), 20);
    assert_eq!(start.perft(2, &tables), 400);
    assert_eq!(start.perft(3, &tables), 8902);
    assert_eq!(start.perft(4, &tables), 197281);
}

#[test]
fn perft_with_castles_and_pins() {
    let tables = Tables::new();
    let s = state("r3k2r/p1ppqpb1/bn2pnp1/3PN3/1p2P3/2N2Q1p/PPPBBPPP/R3K2R w KQkq - 0 1", &tables);
    assert_eq!(s.perft(1, &tables), 48);
    assert_eq!(s.perft(2, &tables), 2039);
    assert_eq!(s.perft(3, &tables), 97862);
}

#[test]
fn perft_with_en_passant_on_the_rank_of_the_king() {
    let tables = Tables::new();
    let s = state("8/2p5/3p4/KP5r/1R3p1k/8/4P1P1/8 w - - 0 1", &tables);
    assert_eq!(s.perft(1, &tables), 14);
    assert_eq!(s.perft(2, &tables), 191);
    assert_eq!(s.perft(3, &tables), 2812);
    assert_eq!(s.perft(4, &tables), 43238);
}

#[test]
fn perft_with_promotions() {
    let tables = Tables::new();
    let s = state("r3k2r/Pppp1ppp/1b3nbN/nP6/BBP1P3/q4N2/Pp1P2PP/R2Q1RK1 w kq - 0 1", &tables);
    assert_eq!(s.perft(1, &tables), 6);
    assert_eq!(s.perft(2, &tables), 264);
    assert_eq!(s.perft(3, &tables), 9467);
    let s = state("rnbq1k1r/pp1Pbppp/2p5/8/2B5/8/PPP1NnPP/RNBQK2R w KQ - 1 8", &tables);
    assert_eq!(s.perft(1, &tables), 44);
    assert_eq!(s.perft(2, &tables), 1486);
}

#[test]
fn perft_of_a_middlegame() {
    let tables = Tables::new();
    let s = state(
        "r4rk1/1pp1qppp/p1np1n2/2b1p1B1/2B1P1b1/P1NP1N2/1PP1QPPP/R4RK1 w - - 0 10",
        &tables,
    );
    assert_eq!(s.perft(1, &tables), 46);
    assert_eq!(s.perft(2, &tables), 2079);
    assert_eq!(s.perft(3, &tables), 89890);
}

#[test]
fn every_state_of_the_tree_can_be_built() {
    // Walks the tree of the start position four plies deep by hand: every
    // legal move can be played, and the state it leads to has moves of its
    // own that are generated without a fault.
    fn walk(state: &GameState, depth: usize, tables: &Tables) -> u64 {
        if depth == 0 {
            return 1;
        }
        let mut nodes = 0;
        for m in state.moves(state.active_color, tables) {
            assert!(state.is_playable(m));
            let next = state.apply_move(m, tables);
            assert_eq!(next.active_color, state.active_color.invert());
            assert_eq!(next.pieces.w_king.count_ones(), 1);
            assert_eq!(next.pieces.b_king.count_ones(), 1);
            nodes += walk(&next, depth - 1, tables);
        }
        nodes
    }
    let tables = Tables::new();
    assert_eq!(walk(&GameState::default(&tables), 4, &tables), 197281);
}

#[test]
fn counting_squares() {
    assert_eq!(count_ones(0), 0);
    assert_eq!(count_ones(1), 1);
    assert_eq!(count_ones(0x8000_0000_0000_0001), 2);
    assert_eq!(count_ones(0xff00), 8);
    assert_eq!(count_ones(!0), 64);
}

#[test]
fn the_material_count_is_seen_from_the_side_to_move() {
    let tables = Tables::new();
    assert_eq!(GameState::default(&tables).static_eval(), 0);
    assert_eq!(state("4k3/8/8/8/8/8/8/Q3K3 w - - 0 1", &tables).static_eval(), 9);
    assert_eq!(state("4k3/8/8/8/8/8/8/Q3K3 b - - 0 1", &tables).static_eval(), -9);
    // 9 + 2 * 5 + 3 + 3 + 4 for White, 5 + 3 + 2 for Black.
    assert_eq!(state("r3k1n1/pp6/8/8/8/8/PPPP4/RNBQK2R w - - 0 1", &tables).static_eval(), 29 - 10);
    assert_eq!(state("r3k1n1/pp6/8/8/8/8/PPPP4/RNBQK2R b - - 0 1", &tables).static_eval(), 10 - 29);
}

#[test]
fn a_search_of_depth_zero_counts_material() {
    let tables = Tables::new();
    let s = state("4k3/8/8/8/8/8/8/Q3K3 w - - 0 1", &tables);
    let (best, score) = s.negamax(0, Color::White, &tables);
    assert_eq!(score, 9);
    assert_eq!(best, Some(s.moves(Color::White, &tables)[0]));
}

#[test]
fn a_search_takes_what_is_free() {
    let tables = Tables::new();
    // The rook can take the queen; one ply deep that is the best move.
    let s = state("4k3/8/8/8/8/8/8/R2qK3 w - - 0 1", &tables);
    let (best, score) = s.negamax(1, Color::White, &tables);
    assert_eq!(best, Some(white(4, 3)));
    assert_eq!(score, 5);
    // Two plies deep the search sees the reply.
    let s = state("4k3/8/4p3/3p4/8/8/8/3QK3 w - - 0 1", &tables);
    let (best, score) = s.negamax(1, Color::White, &tables);
    assert_eq!(score, 9 - 1);
    assert_eq!(best, Some(white(3, 35)));
    let (best, score) = s.negamax(2, Color::White, &tables);
    assert_eq!(score, 9 - 2);
    assert_ne!(best, Some(white(3, 35)));
}

#[test]
fn among_equal_moves_a_search_keeps_the_first() {
    let tables = Tables::new();
    let s = state("4k3/8/8/8/8/8/8/4K3 w - - 0 1", &tables);
    let (best, score) = s.negamax(1, Color::White, &tables);
    assert_eq!(score, 0);
    assert_eq!(best, Some(white(4, 3)));
    let (best, score) = s.negamax(2, Color::White, &tables);
    assert_eq!(score, 0);
    assert_eq!(best, Some(white(4, 3)));
}

#[test]
fn a_search_knows_mate_from_stalemate() {
    let tables = Tables::new();
    let mated = state("R5k1/5ppp/8/8/8/8/8/4K3 b - - 0 1", &tables);
    assert_eq!(mated.negamax(2, Color::Black, &tables), (None, -69420));
    assert_eq!(mated.negamax(0, Color::Black, &tables), (None, 3 - 5));
    let stale = state("7k/5Q2/6K1/8/8/8/8/8 b - - 0 1", &tables);
    assert_eq!(stale.negamax(3, Color::Black, &tables), (None, 0));
    // Mate in one is found two plies deep: the mated side scores as if it
    // had lost its king.
    let s = state("6k1/5ppp/8/8/8/8/8/R3K3 w - - 0 1", &tables);
    let (best, score) = s.negamax(2, Color::White, &tables);
    assert_eq!(best, Some(white(0, 56)));
    assert_eq!(score, 69420);
}

#[test]
fn a_search_promotes_to_the_queen() {
    let tables = Tables::new();
    let s = state("8/4P3/8/8/8/8/8/k3K3 w - - 0 1", &tables);
    let (best, score) = s.negamax(1, Color::White, &tables);
    assert_eq!(
        best,
        Some(Move {
            from: 52,
            to: 60,
            promoted_piece: Some(PromotionType::Queen),
            piece_color: Color::White,
        })
    );
    assert_eq!(score, 9);
}
