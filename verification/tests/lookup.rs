use chess_movegen::board::{Color, PieceType};
use chess_movegen::line_attacks;
use chess_movegen::lookup::{
    generate_slide_lookup, piece_lookup, to_12x10, to_8x8, verify_index, Tables,
};

fn squares(list: &[usize]) -> u64 {
    list.iter().fold(0, |b, sq| b | (1u64 << sq))
}

#[test]
fn bordered_board_indices() {
    assert_eq!(to_12x10(0), 21);
    assert_eq!(to_12x10(7), 28);
    assert_eq!(to_12x10(8), 31);
    assert_eq!(to_12x10(63), 98);
    assert_eq!(to_12x10(-1), 20);
    assert_eq!(to_12x10(-8), 11);
    assert_eq!(to_8x8(21), 0);
    assert_eq!(to_8x8(28), 7);
    assert_eq!(to_8x8(31), 8);
    assert_eq!(to_8x8(98), 63);
    assert_eq!(to_8x8(118), 79);
    assert_eq!(to_8x8(11), -8);
    for sq in 0..64 {
        assert_eq!(to_8x8(to_12x10(sq)), sq);
    }
}

#[test]
fn verify_index_knows_the_border() {
    assert!(verify_index(21));
    assert!(verify_index(28));
    assert!(!verify_index(29));
    assert!(!verify_index(30));
    assert!(!verify_index(20));
    assert!(verify_index(98));
    assert!(verify_index(118));
    assert!(!verify_index(119));
    assert!(!verify_index(120));
    assert!(!verify_index(-5));
}

#[test]
fn king_lookup_values() {
    assert_eq!(piece_lookup(0, PieceType::King, None), squares(&[1, 8, 9]));
    assert_eq!(piece_lookup(63, PieceType::King, None), squares(&[62, 55, 54]));
    assert_eq!(
        piece_lookup(28, PieceType::King, None),
        squares(&[19, 20, 21, 27, 29, 35, 36, 37])
    );
    assert_eq!(piece_lookup(7, PieceType::King, None), squares(&[6, 14, 15]));
}

#[test]
fn knight_lookup_values() {
    assert_eq!(piece_lookup(0, PieceType::Knight, None), squares(&[10, 17]));
    assert_eq!(
        piece_lookup(28, PieceType::Knight, None),
        squares(&[11, 13, 18, 22, 34, 38, 43, 45])
    );
    assert_eq!(piece_lookup(63, PieceType::Knight, None), squares(&[46, 53]));
    assert_eq!(piece_lookup(15, PieceType::Knight, None), squares(&[5, 21, 30]));
}

#[test]
fn pawn_lookup_values() {
    assert_eq!(piece_lookup(12, PieceType::Pawn, Some(Color::White)), squares(&[19, 21]));
    assert_eq!(piece_lookup(8, PieceType::Pawn, Some(Color::White)), squares(&[17]));
    assert_eq!(piece_lookup(15, PieceType::Pawn, Some(Color::White)), squares(&[22]));
    assert_eq!(piece_lookup(60, PieceType::Pawn, Some(Color::White)), 0);
    assert_eq!(piece_lookup(52, PieceType::Pawn, Some(Color::Black)), squares(&[43, 45]));
    assert_eq!(piece_lookup(48, PieceType::Pawn, Some(Color::Black)), squares(&[41]));
    assert_eq!(piece_lookup(4, PieceType::Pawn, Some(Color::Black)), 0);
}

#[test]
fn slider_lookup_values() {
    assert_eq!(
        piece_lookup(0, PieceType::Rook, None),
        squares(&[1, 2, 3, 4, 5, 6, 7, 8, 16, 24, 32, 40, 48, 56])
    );
    assert_eq!(
        piece_lookup(0, PieceType::Bishop, None),
        squares(&[9, 18, 27, 36, 45, 54, 63])
    );
    assert_eq!(
        piece_lookup(27, PieceType::Bishop, None),
        squares(&[0, 9, 18, 36, 45, 54, 63, 34, 41, 48, 20, 13, 6])
    );
    for sq in 0..64 {
        assert_eq!(
            piece_lookup(sq, PieceType::Queen, None),
            piece_lookup(sq, PieceType::Rook, None) | piece_lookup(sq, PieceType::Bishop, None)
        );
        assert_eq!(piece_lookup(sq, PieceType::Rook, None).count_ones(), 14);
        assert_eq!(
            piece_lookup(sq, PieceType::Rook, None) & piece_lookup(sq, PieceType::Bishop, None),
            0
        );
    }
}

#[test]
fn squares_between_two_squares() {
    assert_eq!(generate_slide_lookup(squares(&[0, 7])), squares(&[1, 2, 3, 4, 5, 6]));
    assert_eq!(generate_slide_lookup(squares(&[0, 56])), squares(&[8, 16, 24, 32, 40, 48]));
    assert_eq!(generate_slide_lookup(squares(&[0, 63])), squares(&[9, 18, 27, 36, 45, 54]));
    assert_eq!(generate_slide_lookup(squares(&[7, 56])), squares(&[14, 21, 28, 35, 42, 49]));
    assert_eq!(generate_slide_lookup(squares(&[4, 5])), 0);
    assert_eq!(generate_slide_lookup(squares(&[4, 13])), 0);
    assert_eq!(generate_slide_lookup(squares(&[12, 30])), squares(&[21]));
    assert_eq!(generate_slide_lookup(squares(&[26, 30])), squares(&[27, 28, 29]));
}

#[test]
fn tables_hold_the_lookups() {
    let tables = Tables::new();
    assert_eq!(tables.king.len(), 64);
    for sq in 0..64 {
        assert_eq!(tables.king[sq], piece_lookup(sq, PieceType::King, None));
        assert_eq!(tables.queen[sq], piece_lookup(sq, PieceType::Queen, None));
        assert_eq!(tables.rook[sq], piece_lookup(sq, PieceType::Rook, None));
        assert_eq!(tables.bishop[sq], piece_lookup(sq, PieceType::Bishop, None));
        assert_eq!(tables.knight[sq], piece_lookup(sq, PieceType::Knight, None));
        assert_eq!(tables.white_pawn[sq], piece_lookup(sq, PieceType::Pawn, Some(Color::White)));
        assert_eq!(tables.black_pawn[sq], piece_lookup(sq, PieceType::Pawn, Some(Color::Black)));
    }
    // 64 * 27.something / 2: every pair of squares on a line has one entry.
    let pairs: u32 = (0..64).map(|sq| tables.queen[sq].count_ones()).sum();
    assert_eq!(tables.between.len() as u32, pairs / 2);
    assert_eq!(tables.squares_between(4, 60), squares(&[12, 20, 28, 36, 44, 52]));
    assert_eq!(tables.squares_between(60, 4), squares(&[12, 20, 28, 36, 44, 52]));
    assert_eq!(tables.squares_between(2, 20), squares(&[11]));
}

#[test]
fn a_slider_sees_along_its_rank_up_to_the_first_blockers() {
    // Slider on the d-file, blockers on the b-file and the g-file.
    assert_eq!(line_attacks(0b0100_1010, 0b0000_1000), 0b0111_0110);
    // No blocker at all: the whole rank but the slider's own file.
    assert_eq!(line_attacks(0b0000_1000, 0b0000_1000), 0b1111_0111);
    assert_eq!(line_attacks(0, 0b0000_1000), 0b1111_0111);
    // Neighbours on both sides.
    assert_eq!(line_attacks(0b0001_1100, 0b0000_1000), 0b0001_0100);
    // A slider in the corner.
    assert_eq!(line_attacks(0b1000_0001, 0b0000_0001), 0b1111_1110);
    assert_eq!(line_attacks(0b1001_0001, 0b1000_0000), 0b0111_0000);
    // No slider, nothing seen.
    assert_eq!(line_attacks(0b0101_0101, 0), 0);
    for occ in 0..=255u8 {
        for s in 0..8 {
            let mut expected = 0u8;
            for to in 0..8 {
                let (lo, hi) = if s < to { (s, to) } else { (to, s) };
                if to != s && (lo + 1..hi).all(|x| occ & (1 << x) == 0) {
                    expected |= 1 << to;
                }
            }
            assert_eq!(line_attacks(occ, 1 << s), expected);
        }
    }
}
