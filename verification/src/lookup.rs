//! Static attack tables: for every square, the squares that a king, a knight
//! or a pawn of either colour reaches from it, and the squares a rook, bishop
//! or queen reaches on an empty board.
//!
//! The entries are computed on a board of twelve ranks and ten files that
//! holds the real board in its middle, so that a step off the real board lands
//! on a border square and is recognised there.

use vstd::prelude::*;
use std::collections::HashMap;
use vstd::pervasive::unreached;
use vstd::std_specs::hash::{
    axiom_random_state_builds_valid_hashers, axiom_u64_obeys_hash_table_key_model,
    builds_valid_hashers, obeys_key_model,
};
use crate::bits::{
    bit, lemma_bit_consts, lemma_bit_ops, lemma_bit_single, lemma_bits_equal, lemma_lowest,
    lemma_zero_iff_empty, lowest, lowest_square, square, without_lowest,
};
use crate::board::{
    aligned, between, distance, file_of, in_direction, lemma_between_direction, lemma_square_of,
    lemma_square_parts, on_board, rank_of, reaches, Color, Direction, PieceType,
};

verus! {

/// The quotient of `a` by a positive `b`, rounded towards zero.
pub open spec fn quotient(a: int, b: int) -> int {
    if a >= 0 {
        a / b
    } else {
        -((-a) / b)
    }
}

/// The index on the bordered board that stands for `index`. Squares of the
/// real board have the indices 21 to 98 whose last digit is 1 to 8.
pub open spec fn bordered(index: int) -> int {
    index + 21 + 2 * quotient(index, 8)
}

/// The inverse of `bordered` on the squares of the real board.
pub open spec fn unbordered(index: int) -> int {
    (index - 21) - 2 * quotient(index - 21, 10)
}

/// The index on the bordered board that stands for `index`: for a square of
/// the real board, 21 plus ten times its rank plus its file.
pub fn to_12x10(index: isize) -> (r: isize)
    requires
        isize::MIN <= bordered(index as int) <= isize::MAX,
    ensures
        r == bordered(index as int),
{
    index + 21 + 2 * (index / 8)
}

/// The index on the real board of a square of the bordered board.
pub fn to_8x8(index: isize) -> (r: isize)
    requires
        isize::MIN <= index - 21,
    ensures
        r == unbordered(index as int),
{
    (index - 21) - 2 * ((index - 21) / 10)
}

/// Whether `index` is a square of the bordered board that is not on its left
/// or right border, nor on its two lowest ranks.
pub fn verify_index(index: isize) -> (r: bool)
    ensures
        r == (21 <= index <= 119 && (index - 21) % 10 < 8),
{
    if index < 21 || index > 119 {
        return false;
    }
    (index - 21) % 10 < 8
}

/// On the bordered board a leap of at most two ranks and two files from a
/// real square is recognised as leaving the real board exactly when it does.
proof fn lemma_bordered_leap(r: int, f: int, dr: int, df: int)
    requires
        0 <= r < 8,
        0 <= f < 8,
        -2 <= dr <= 2,
        -2 <= df <= 2,
    ensures
        bordered(8 * r + f) == 21 + 10 * r + f,
        ({
            let x = 21 + 10 * (r + dr) + (f + df);
            let inside = 0 <= r + dr < 8 && 0 <= f + df < 8;
            &&& (21 <= x <= 119 && (x - 21) % 10 < 8 && unbordered(x) < 64) == inside
            &&& inside ==> unbordered(x) == 8 * (r + dr) + (f + df)
        }),
{
    lemma_square_of(r, f);
    let rr = r + dr;
    let ff = f + df;
    let y = 10 * rr + ff;
    if 0 <= ff < 10 {
        if rr >= 0 {
            assert(y / 10 == rr && y % 10 == ff);
        }
    } else {
        assert(y == 10 * (rr - 1) + (ff + 10));
        if rr >= 1 {
            assert(y / 10 == rr - 1 && y % 10 == ff + 10);
        }
    }
}

/// The square `dr` ranks and `df` files from `sq`, if the board has one.
pub open spec fn leap(sq: int, dr: int, df: int) -> Option<int> {
    let r = rank_of(sq) + dr;
    let f = file_of(sq) + df;
    if on_board(sq) && 0 <= r < 8 && 0 <= f < 8 {
        Some(8 * r + f)
    } else {
        None
    }
}

/// The only square with the rank and file of a leap's target is that target.
pub proof fn lemma_leap(sq: int, dr: int, df: int)
    requires
        on_board(sq),
    ensures
        forall|t: int|
            (on_board(t) && rank_of(t) == rank_of(sq) + dr && file_of(t) == file_of(sq) + df) == (
            leap(sq, dr, df) == Some(t)),
{
    lemma_square_parts(sq);
    assert forall|t: int|
        (on_board(t) && rank_of(t) == rank_of(sq) + dr && file_of(t) == file_of(sq) + df) == (
        leap(sq, dr, df) == Some(t)) by {
        if on_board(t) {
            lemma_square_parts(t);
        }
        if leap(sq, dr, df) == Some(t) {
            lemma_square_of(rank_of(sq) + dr, file_of(sq) + df);
        }
    }
}

/// Finds the target of a leap by way of the bordered board.
fn leap_target(piece_index: usize, dr: isize, df: isize) -> (r: Option<usize>)
    requires
        piece_index < 64,
        -2 <= dr <= 2,
        -2 <= df <= 2,
    ensures
        match r {
            Some(t) => leap(piece_index as int, dr as int, df as int) == Some(t as int) && t < 64,
            None => leap(piece_index as int, dr as int, df as int) is None,
        },
{
    let ghost a: int = piece_index as int;
    proof {
        lemma_square_parts(a);
        lemma_bordered_leap(rank_of(a), file_of(a), dr as int, df as int);
    }
    let new: isize = to_12x10(piece_index as isize) + 10 * dr + df;
    if verify_index(new) && to_8x8(new) < 64 {
        let target: isize = to_8x8(new);
        Some(target as usize)
    } else {
        None
    }
}

/// Adds to `bitboard` the square that lies `dr` ranks and `df` files from
/// `piece_index`, if the board has such a square.
fn with_leap(bitboard: u64, piece_index: usize, dr: isize, df: isize) -> (r: u64)
    requires
        piece_index < 64,
        -2 <= dr <= 2,
        -2 <= df <= 2,
    ensures
        forall|sq: int| #[trigger]
            bit(r, sq) == (bit(bitboard, sq) || (on_board(sq) && rank_of(sq) == rank_of(
                piece_index as int,
            ) + dr && file_of(sq) == file_of(piece_index as int) + df)),
{
    proof {
        lemma_leap(piece_index as int, dr as int, df as int);
    }
    match leap_target(piece_index, dr, df) {
        Some(target) => {
            proof {
                lemma_bit_single(target as u64);
                lemma_bit_ops(bitboard, 1u64 << target);
            }
            bitboard | (1u64 << target)
        },
        None => bitboard,
    }
}

fn rank_delta(d: Direction) -> (r: isize)
    ensures
        r == d.rank_step(),
{
    match d {
        Direction::North | Direction::NorthEast | Direction::NorthWest => 1,
        Direction::South | Direction::SouthEast | Direction::SouthWest => -1,
        Direction::East | Direction::West => 0,
    }
}

fn file_delta(d: Direction) -> (r: isize)
    ensures
        r == d.file_step(),
{
    match d {
        Direction::East | Direction::NorthEast | Direction::SouthEast => 1,
        Direction::West | Direction::NorthWest | Direction::SouthWest => -1,
        Direction::North | Direction::South => 0,
    }
}

/// One step in direction `d` from a square that lies in that direction from
/// `a`, or is `a`: what lies between `a` and the new square.
proof fn lemma_direction_step(d: Direction, a: int, c: int, n: int)
    requires
        on_board(a),
        c == a || in_direction(d, a, c),
        leap(c, d.rank_step(), d.file_step()) == Some(n),
    ensures
        in_direction(d, a, n),
        distance(a, n) == distance(a, c) + 1,
        forall|sq: int|
            in_direction(d, a, sq) ==> ((sq == n || in_direction(d, sq, n)) == (sq == n || sq == c
                || in_direction(d, sq, c))),
{
    lemma_square_parts(a);
    lemma_square_parts(c);
    lemma_square_of(rank_of(c) + d.rank_step(), file_of(c) + d.file_step());
    assert forall|sq: int| in_direction(d, a, sq) implies ((sq == n || in_direction(d, sq, n)) == (
    sq == n || sq == c || in_direction(d, sq, c))) by {
        lemma_square_parts(sq);
    }
}

/// Where no step in direction `d` is left, every square in that direction
/// from `a` has been passed.
proof fn lemma_direction_end(d: Direction, a: int, c: int)
    requires
        on_board(a),
        c == a || in_direction(d, a, c),
        leap(c, d.rank_step(), d.file_step()) is None || distance(a, c) >= 7,
    ensures
        forall|sq: int| in_direction(d, a, sq) ==> sq == c || in_direction(d, sq, c),
{
    lemma_square_parts(a);
    lemma_square_parts(c);
    assert forall|sq: int| in_direction(d, a, sq) implies sq == c || in_direction(d, sq, c) by {
        lemma_square_parts(sq);
    }
}

/// Adds to `bitboard` every square that lies in direction `d` from
/// `piece_index`.
fn with_ray(bitboard: u64, piece_index: usize, d: Direction) -> (r: u64)
    requires
        piece_index < 64,
    ensures
        forall|sq: int| #[trigger]
            bit(r, sq) == (bit(bitboard, sq) || in_direction(d, piece_index as int, sq)),
{
    let dr: isize = rank_delta(d);
    let df: isize = file_delta(d);
    let mut result: u64 = bitboard;
    let mut current: usize = piece_index;
    let mut multiplier: u8 = 1;
    let ghost a: int = piece_index as int;
    while multiplier < 8
        invariant_except_break
            1 <= multiplier <= 8,
            multiplier - 1 == distance(a, current as int),
            multiplier == 8 ==> forall|sq: int|
                in_direction(d, a, sq) ==> sq == current || in_direction(d, sq, current as int),
        invariant
            a == piece_index,
            on_board(a),
            current < 64,
            dr == d.rank_step(),
            df == d.file_step(),
            current == a || in_direction(d, a, current as int),
            forall|sq: int| #[trigger]
                bit(result, sq) == (bit(bitboard, sq) || (in_direction(d, a, sq) && (sq == current
                    || in_direction(d, sq, current as int)))),
        ensures
            forall|sq: int|
                in_direction(d, a, sq) ==> sq == current || in_direction(d, sq, current as int),
        decreases 8 - multiplier,
    {
        match leap_target(current, dr, df) {
            Some(target) => {
                proof {
                    lemma_bit_single(target as u64);
                    lemma_bit_ops(result, 1u64 << target);
                    lemma_direction_step(d, a, current as int, target as int);
                }
                result = result | (1u64 << target);
                current = target;
            },
            None => {
                proof {
                    lemma_direction_end(d, a, current as int);
                }
                break;
            },
        }
        multiplier += 1;
        proof {
            if multiplier == 8 {
                lemma_direction_end(d, a, current as int);
            }
        }
    }
    result
}

/// The squares that a piece of the given type reaches from `piece_index` on
/// an otherwise empty board. A pawn reaches the two squares it attacks.
pub fn piece_lookup(piece_index: usize, piece_type: PieceType, piece_color: Option<Color>) -> (r:
    u64)
    requires
        piece_index < 64,
        piece_type == PieceType::Pawn ==> piece_color is Some,
    ensures
        forall|sq: int| #[trigger]
            bit(r, sq) == reaches(piece_type, piece_color, piece_index as int, sq),
{
    let mut bitboard: u64 = 0;
    proof {
        lemma_bit_consts();
    }
    match piece_type {
        PieceType::King => {
            bitboard = with_leap(bitboard, piece_index, -1, -1);
            bitboard = with_leap(bitboard, piece_index, -1, 0);
            bitboard = with_leap(bitboard, piece_index, -1, 1);
            bitboard = with_leap(bitboard, piece_index, 0, -1);
            bitboard = with_leap(bitboard, piece_index, 0, 1);
            bitboard = with_leap(bitboard, piece_index, 1, -1);
            bitboard = with_leap(bitboard, piece_index, 1, 0);
            bitboard = with_leap(bitboard, piece_index, 1, 1);
        },
        PieceType::Queen => {
            bitboard = with_ray(bitboard, piece_index, Direction::SouthWest);
            bitboard = with_ray(bitboard, piece_index, Direction::South);
            bitboard = with_ray(bitboard, piece_index, Direction::SouthEast);
            bitboard = with_ray(bitboard, piece_index, Direction::West);
            bitboard = with_ray(bitboard, piece_index, Direction::East);
            bitboard = with_ray(bitboard, piece_index, Direction::NorthWest);
            bitboard = with_ray(bitboard, piece_index, Direction::North);
            bitboard = with_ray(bitboard, piece_index, Direction::NorthEast);
        },
        PieceType::Rook => {
            bitboard = with_ray(bitboard, piece_index, Direction::South);
            bitboard = with_ray(bitboard, piece_index, Direction::West);
            bitboard = with_ray(bitboard, piece_index, Direction::East);
            bitboard = with_ray(bitboard, piece_index, Direction::North);
        },
        PieceType::Bishop => {
            bitboard = with_ray(bitboard, piece_index, Direction::SouthWest);
            bitboard = with_ray(bitboard, piece_index, Direction::SouthEast);
            bitboard = with_ray(bitboard, piece_index, Direction::NorthWest);
            bitboard = with_ray(bitboard, piece_index, Direction::NorthEast);
        },
        PieceType::Knight => {
            bitboard = with_leap(bitboard, piece_index, -2, -1);
            bitboard = with_leap(bitboard, piece_index, -2, 1);
            bitboard = with_leap(bitboard, piece_index, -1, -2);
            bitboard = with_leap(bitboard, piece_index, -1, 2);
            bitboard = with_leap(bitboard, piece_index, 1, -2);
            bitboard = with_leap(bitboard, piece_index, 1, 2);
            bitboard = with_leap(bitboard, piece_index, 2, -1);
            bitboard = with_leap(bitboard, piece_index, 2, 1);
        },
        PieceType::Pawn => match piece_color {
            Some(Color::White) => {
                bitboard = with_leap(bitboard, piece_index, 1, 1);
                bitboard = with_leap(bitboard, piece_index, 1, -1);
            },
            Some(Color::Black) => {
                bitboard = with_leap(bitboard, piece_index, -1, -1);
                bitboard = with_leap(bitboard, piece_index, -1, 1);
            },
            None => {},
        },
    }
    bitboard
}

/// Whether `key` holds the two squares `a` and `b`, and no other.
pub open spec fn pair_of(key: u64, a: int, b: int) -> bool {
    0 <= a < b < 64 && forall|i: int| bit(key, i) == (i == a || i == b)
}

/// The bitboard of two squares: the key under which the squares between
/// them are kept.
pub open spec fn pair_key(a: int, b: int) -> u64 {
    (1u64 << (a as u64)) | (1u64 << (b as u64))
}

/// The key of two different squares holds them, whichever comes first.
pub proof fn lemma_pair_key(a: int, b: int)
    requires
        on_board(a),
        on_board(b),
        a != b,
    ensures
        pair_key(a, b) == pair_key(b, a),
        forall|i: int| #[trigger] bit(pair_key(a, b), i) == (i == a || i == b),
        a < b ==> pair_of(pair_key(a, b), a, b),
        b < a ==> pair_of(pair_key(a, b), b, a),
{
    lemma_bit_single(a as u64);
    lemma_bit_single(b as u64);
    lemma_bit_ops(1u64 << (a as u64), 1u64 << (b as u64));
    lemma_bit_ops(1u64 << (b as u64), 1u64 << (a as u64));
    lemma_bits_equal(pair_key(a, b), pair_key(b, a));
}

/// A key holds at most one pair of squares: its lowest square and the lowest
/// of the rest.
pub proof fn lemma_pair_squares(key: u64, a: int, b: int)
    requires
        pair_of(key, a, b),
    ensures
        key != 0,
        a == lowest(key),
        key & ((key - 1) as u64) != 0,
        b == lowest(key & ((key - 1) as u64)),
{
    assert(bit(key, a));
    lemma_zero_iff_empty(key);
    lemma_lowest(key);
    let rest: u64 = key & ((key - 1) as u64);
    assert(bit(key, lowest(key)));
    assert(bit(rest, b));
    lemma_zero_iff_empty(rest);
    lemma_lowest(rest);
    assert(bit(rest, lowest(rest)));
}

/// The direction in which the higher of two squares on one line lies from
/// the lower.
fn direction_between(low: usize, high: usize) -> (d: Direction)
    requires
        low < high < 64,
        aligned(low as int, high as int),
    ensures
        in_direction(d, low as int, high as int),
{
    proof {
        lemma_square_parts(low as int);
        lemma_square_parts(high as int);
    }
    let rank1: usize = low / 8;
    let file1: usize = low % 8;
    let rank2: usize = high / 8;
    let file2: usize = high % 8;
    if rank1 == rank2 {
        Direction::East
    } else if file1 == file2 {
        Direction::North
    } else if file1 < file2 {
        Direction::NorthEast
    } else {
        Direction::NorthWest
    }
}

/// The squares strictly between the two squares that `key` holds, which
/// share a rank, a file or a diagonal.
pub fn generate_slide_lookup(key: u64) -> (r: u64)
    requires
        exists|a: int, b: int| pair_of(key, a, b) && aligned(a, b),
    ensures
        forall|a: int, b: int, sq: int|
            #![trigger pair_of(key, a, b), bit(r, sq)]
            pair_of(key, a, b) ==> bit(r, sq) == between(a, b, sq),
{
    let ghost (a, b) = choose|a: int, b: int| pair_of(key, a, b) && aligned(a, b);
    proof {
        lemma_pair_squares(key, a, b);
        assert forall|a2: int, b2: int| pair_of(key, a2, b2) implies a2 == a && b2 == b by {
            lemma_pair_squares(key, a2, b2);
        }
        lemma_bit_consts();
    }
    let index1: usize = lowest_square(key);
    let index2: usize = lowest_square(without_lowest(key));
    let d: Direction = direction_between(index1, index2);
    let dr: isize = rank_delta(d);
    let df: isize = file_delta(d);
    let mut bitboard: u64 = 0;
    let mut current: usize = index1;
    proof {
        lemma_between_direction(d, a, b);
    }
    loop
        invariant_except_break
            in_direction(d, current as int, b),
        invariant
            a == index1,
            b == index2,
            on_board(a),
            on_board(b),
            current < 64,
            dr == d.rank_step(),
            df == d.file_step(),
            in_direction(d, a, b),
            current == a || in_direction(d, a, current as int),
            forall|sq: int| #[trigger]
                bit(bitboard, sq) == (in_direction(d, a, sq) && (sq == current || in_direction(
                    d,
                    sq,
                    current as int,
                )) && sq != b && a != current),
        ensures
            leap(current as int, d.rank_step(), d.file_step()) == Some(b),
        decreases distance(current as int, b),
    {
        proof {
            lemma_square_parts(current as int);
            lemma_square_parts(b);
        }
        match leap_target(current, dr, df) {
            Some(target) => {
                proof {
                    lemma_direction_step(d, a, current as int, target as int);
                    lemma_square_of(
                        rank_of(current as int) + d.rank_step(),
                        file_of(current as int) + d.file_step(),
                    );
                }
                if target == index2 {
                    break;
                }
                proof {
                    lemma_bit_single(target as u64);
                    lemma_bit_ops(bitboard, 1u64 << target);
                }
                bitboard = bitboard | square(target);
                current = target;
            },
            None => {
                break;
            },
        }
    }
    proof {
        lemma_direction_step(d, a, current as int, b);
        assert forall|sq: int| bit(bitboard, sq) == between(a, b, sq) by {
            if on_board(sq) {
                lemma_square_parts(sq);
                lemma_square_parts(a);
                lemma_square_parts(b);
                lemma_square_parts(current as int);
            }
        }
    }
    bitboard
}

/// Whether `table` holds, for each square, the squares that a piece of the
/// given type and colour reaches from it.
pub open spec fn table_holds(table: Seq<u64>, piece: PieceType, color: Option<Color>) -> bool {
    table.len() == 64 && forall|a: int, sq: int|
        0 <= a < 64 ==> #[trigger] bit(table[a], sq) == reaches(piece, color, a, sq)
}

/// Whether `spans` has an entry for every square on a line with one of the
/// first `n` squares.
pub open spec fn table_covers(spans: Map<u64, u64>, n: int) -> bool {
    forall|a: int, b: int|
        0 <= a < n && on_board(b) && aligned(a, b) ==> #[trigger] spans.contains_key(
            pair_key(a, b),
        )
}

/// Whether every entry that `spans` has for two squares on a line holds the
/// squares between them.
pub open spec fn table_sound(spans: Map<u64, u64>) -> bool {
    forall|a: int, b: int, sq: int|
        #![trigger bit(spans[pair_key(a, b)], sq)]
        on_board(a) && on_board(b) && aligned(a, b) && spans.contains_key(pair_key(a, b)) ==> bit(
            spans[pair_key(a, b)],
            sq,
        ) == between(a, b, sq)
}

/// Whether every key of `spans` holds two squares on one line.
pub open spec fn table_tight(spans: Map<u64, u64>) -> bool {
    forall|key: u64| #[trigger]
        spans.contains_key(key) ==> exists|a: int, b: int|
            on_board(a) && on_board(b) && aligned(a, b) && key == pair_key(a, b)
}

/// The static tables. They depend on nothing but the geometry of the board:
/// build them once and hand them to every position by reference.
pub struct Tables {
    pub king: Vec<u64>,
    pub queen: Vec<u64>,
    pub rook: Vec<u64>,
    pub bishop: Vec<u64>,
    pub knight: Vec<u64>,
    pub white_pawn: Vec<u64>,
    pub black_pawn: Vec<u64>,
    /// For every two squares on one line, under the key that holds the two,
    /// the squares strictly between them.
    pub between: HashMap<u64, u64>,
}

impl Tables {
    /// Every table holds what its name says, for every square.
    pub open spec fn wf(&self) -> bool {
        &&& table_holds(self.king@, PieceType::King, None)
        &&& table_holds(self.queen@, PieceType::Queen, None)
        &&& table_holds(self.rook@, PieceType::Rook, None)
        &&& table_holds(self.bishop@, PieceType::Bishop, None)
        &&& table_holds(self.knight@, PieceType::Knight, None)
        &&& table_holds(self.white_pawn@, PieceType::Pawn, Some(Color::White))
        &&& table_holds(self.black_pawn@, PieceType::Pawn, Some(Color::Black))
        &&& table_covers(self.between@, 64)
        &&& table_sound(self.between@)
        &&& table_tight(self.between@)
    }

    /// Builds every table.
    pub fn new() -> (t: Tables)
        ensures
            t.wf(),
    {
        let mut king: Vec<u64> = Vec::new();
        let mut queen: Vec<u64> = Vec::new();
        let mut rook: Vec<u64> = Vec::new();
        let mut bishop: Vec<u64> = Vec::new();
        let mut knight: Vec<u64> = Vec::new();
        let mut white_pawn: Vec<u64> = Vec::new();
        let mut black_pawn: Vec<u64> = Vec::new();
        let mut spans: HashMap<u64, u64> = HashMap::new();
        broadcast use {
            axiom_u64_obeys_hash_table_key_model,
            axiom_random_state_builds_valid_hashers,
        };
        let mut idx: usize = 0;
        while idx < 64
            invariant
                idx <= 64,
                obeys_key_model::<u64>(),
                builds_valid_hashers::<std::hash::RandomState>(),
                king@.len() == idx,
                queen@.len() == idx,
                rook@.len() == idx,
                bishop@.len() == idx,
                knight@.len() == idx,
                white_pawn@.len() == idx,
                black_pawn@.len() == idx,
                forall|a: int, sq: int|
                    0 <= a < idx ==> #[trigger] bit(king@[a], sq) == reaches(
                        PieceType::King,
                        None,
                        a,
                        sq,
                    ),
                forall|a: int, sq: int|
                    0 <= a < idx ==> #[trigger] bit(queen@[a], sq) == reaches(
                        PieceType::Queen,
                        None,
                        a,
                        sq,
                    ),
                forall|a: int, sq: int|
                    0 <= a < idx ==> #[trigger] bit(rook@[a], sq) == reaches(
                        PieceType::Rook,
                        None,
                        a,
                        sq,
                    ),
                forall|a: int, sq: int|
                    0 <= a < idx ==> #[trigger] bit(bishop@[a], sq) == reaches(
                        PieceType::Bishop,
                        None,
                        a,
                        sq,
                    ),
                forall|a: int, sq: int|
                    0 <= a < idx ==> #[trigger] bit(knight@[a], sq) == reaches(
                        PieceType::Knight,
                        None,
                        a,
                        sq,
                    ),
                forall|a: int, sq: int|
                    0 <= a < idx ==> #[trigger] bit(white_pawn@[a], sq) == reaches(
                        PieceType::Pawn,
                        Some(Color::White),
                        a,
                        sq,
                    ),
                forall|a: int, sq: int|
                    0 <= a < idx ==> #[trigger] bit(black_pawn@[a], sq) == reaches(
                        PieceType::Pawn,
                        Some(Color::Black),
                        a,
                        sq,
                    ),
                table_covers(spans@, idx as int),
                table_sound(spans@),
                table_tight(spans@),
            decreases 64 - idx,
        {
            king.push(piece_lookup(idx, PieceType::King, None));
            let line_mates: u64 = piece_lookup(idx, PieceType::Queen, None);
            queen.push(line_mates);
            rook.push(piece_lookup(idx, PieceType::Rook, None));
            bishop.push(piece_lookup(idx, PieceType::Bishop, None));
            knight.push(piece_lookup(idx, PieceType::Knight, None));
            black_pawn.push(piece_lookup(idx, PieceType::Pawn, Some(Color::Black)));
            white_pawn.push(piece_lookup(idx, PieceType::Pawn, Some(Color::White)));
            let mut slide_squares: u64 = line_mates;
            while slide_squares > 0
                invariant
                    idx < 64,
                    obeys_key_model::<u64>(),
                    builds_valid_hashers::<std::hash::RandomState>(),
                    forall|sq: int| #[trigger]
                        bit(line_mates, sq) == reaches(PieceType::Queen, None, idx as int, sq),
                    forall|sq: int| bit(slide_squares, sq) ==> bit(line_mates, sq),
                    table_covers(spans@, idx as int),
                    forall|b: int|
                        bit(line_mates, b) && !bit(slide_squares, b)
                            ==> #[trigger] spans@.contains_key(pair_key(idx as int, b)),
                    table_sound(spans@),
                    table_tight(spans@),
                decreases slide_squares,
            {
                let slide_square: usize = lowest_square(slide_squares);
                let key: u64 = square(idx) | square(slide_square);
                proof {
                    lemma_square_parts(idx as int);
                    lemma_square_parts(slide_square as int);
                    lemma_pair_key(idx as int, slide_square as int);
                    assert(key == pair_key(idx as int, slide_square as int));
                    assert(aligned(idx as int, slide_square as int));
                    if idx < slide_square {
                        assert(pair_of(key, idx as int, slide_square as int));
                    } else {
                        assert(pair_of(key, slide_square as int, idx as int));
                        assert(aligned(slide_square as int, idx as int));
                    }
                }
                let span: u64 = generate_slide_lookup(key);
                let ghost before = spans@;
                spans.insert(key, span);
                slide_squares = without_lowest(slide_squares);
                proof {
                    assert forall|other: u64| #[trigger] spans@.contains_key(other) implies exists|
                        a: int,
                        b: int,
                    | on_board(a) && on_board(b) && aligned(a, b) && other == pair_key(a, b) by {
                        if other == key {
                            assert(on_board(idx as int) && on_board(slide_square as int)
                                && aligned(idx as int, slide_square as int) && other == pair_key(
                                idx as int,
                                slide_square as int,
                            ));
                        } else {
                            assert(before.contains_key(other));
                        }
                    }
                    assert forall|a: int, b: int, sq: int|
                        #![trigger bit(spans@[pair_key(a, b)], sq)]
                        on_board(a) && on_board(b) && aligned(a, b) && spans@.contains_key(
                            pair_key(a, b),
                        ) implies bit(spans@[pair_key(a, b)], sq) == between(a, b, sq) by {
                        if pair_key(a, b) == key {
                            lemma_pair_key(a, b);
                            lemma_square_parts(a);
                            lemma_square_parts(b);
                            if a < b {
                                assert(pair_of(key, a, b));
                            } else {
                                assert(pair_of(key, b, a));
                                assert(bit(span, sq) == between(b, a, sq));
                            }
                            if on_board(sq) {
                                lemma_square_parts(sq);
                            }
                        } else {
                            assert(before.contains_key(pair_key(a, b)));
                            assert(bit(before[pair_key(a, b)], sq) == between(a, b, sq));
                        }
                    }
                }
            }
            proof {
                assert forall|a: int, b: int|
                    0 <= a < idx + 1 && on_board(b) && aligned(a, b)
                    implies #[trigger] spans@.contains_key(pair_key(a, b)) by {
                    if a == idx {
                        lemma_square_parts(a);
                        lemma_square_parts(b);
                        lemma_zero_iff_empty(slide_squares);
                        assert(bit(line_mates, b));
                    }
                }
            }
            idx += 1;
        }
        Tables { king, queen, rook, bishop, knight, white_pawn, black_pawn, between: spans }
    }

    /// The squares strictly between two squares on one line.
    pub fn squares_between(&self, a: usize, b: usize) -> (r: u64)
        requires
            self.wf(),
            a < 64,
            b < 64,
            aligned(a as int, b as int),
        ensures
            forall|sq: int| #[trigger] bit(r, sq) == between(a as int, b as int, sq),
    {
        broadcast use {
            axiom_u64_obeys_hash_table_key_model,
            axiom_random_state_builds_valid_hashers,
        };
        proof {
            assert(self.between@.contains_key(pair_key(a as int, b as int)));
        }
        let key: u64 = square(a) | square(b);
        match self.between.get(&key) {
            Some(span) => *span,
            None => unreached(),
        }
    }
}

} // verus!
