//! Occluded fills: where sliding pieces see along each of the eight compass
//! directions.
//!
//! A slider moving in a direction passes over empty squares and sees every
//! square it passes, together with the first square that is not empty. The
//! fills below compute that set for all sliders of a bitboard at once.

use vstd::prelude::*;
use crate::bits::{bit, lemma_bit_consts, lemma_bit_ops, lemma_bit_shl, lemma_bit_shr, NOT_A, NOT_H};
use crate::board::{lemma_step_room, room, step, Direction};

verus! {

/// Whether a slider moving in direction `d` stands on `sq`, or comes to stand
/// on it by passing over empty squares only (`sq` itself being empty).
pub open spec fn slides_onto(d: Direction, sliders: u64, empty: u64, sq: int) -> bool
    decreases room(d.opposite(), sq),
{
    bit(sliders, sq) || (bit(empty, sq) && match step(d.opposite(), sq) {
        Some(p) => slides_onto(d, sliders, empty, p),
        None => false,
    })
}

/// Whether a slider moving in direction `d` sees `sq`: the square before `sq`
/// holds a slider, or is empty and reached by one.
pub open spec fn ray_attacks(d: Direction, sliders: u64, empty: u64, sq: int) -> bool {
    match step(d.opposite(), sq) {
        Some(p) => slides_onto(d, sliders, empty, p),
        None => false,
    }
}

/// Whether a slider sees `sq` along any of the eight directions.
pub open spec fn sees(sliders: u64, empty: u64, sq: int) -> bool {
    ray_attacks(Direction::North, sliders, empty, sq)
        || ray_attacks(Direction::NorthEast, sliders, empty, sq)
        || ray_attacks(Direction::East, sliders, empty, sq)
        || ray_attacks(Direction::SouthEast, sliders, empty, sq)
        || ray_attacks(Direction::South, sliders, empty, sq)
        || ray_attacks(Direction::SouthWest, sliders, empty, sq)
        || ray_attacks(Direction::West, sliders, empty, sq)
        || ray_attacks(Direction::NorthWest, sliders, empty, sq)
}

/// `slides_onto` for sliders that make at most `n` steps.
pub open spec fn slides_within(d: Direction, sliders: u64, empty: u64, sq: int, n: nat) -> bool
    decreases n,
{
    bit(sliders, sq) || (n > 0 && bit(empty, sq) && match step(d.opposite(), sq) {
        Some(p) => slides_within(d, sliders, empty, p, (n - 1) as nat),
        None => false,
    })
}

/// Whether `y` is the set `x` moved one step in direction `d`, squares that
/// would leave the board being dropped.
pub open spec fn moved_one(d: Direction, x: u64, y: u64) -> bool {
    forall|sq: int| #[trigger]
        bit(y, sq) == (match step(d.opposite(), sq) {
            Some(p) => bit(x, p),
            None => false,
        })
}

proof fn lemma_within_grows(d: Direction, sliders: u64, empty: u64, sq: int, n: nat)
    requires
        slides_within(d, sliders, empty, sq, n),
    ensures
        slides_within(d, sliders, empty, sq, n + 1),
    decreases n,
{
    if !bit(sliders, sq) {
        let p = step(d.opposite(), sq)->0;
        lemma_within_grows(d, sliders, empty, p, (n - 1) as nat);
    }
}

/// No slider needs more steps than the board has room for.
proof fn lemma_within_full(d: Direction, sliders: u64, empty: u64, sq: int, n: nat)
    requires
        n >= room(d.opposite(), sq),
    ensures
        slides_within(d, sliders, empty, sq, n) == slides_onto(d, sliders, empty, sq),
    decreases n,
{
    lemma_step_room(d.opposite(), sq);
    if n > 0 {
        if let Some(p) = step(d.opposite(), sq) {
            lemma_within_full(d, sliders, empty, p, (n - 1) as nat);
        }
    }
}

/// One round of a fill lets every slider make one more step.
proof fn lemma_fill_round(
    d: Direction,
    sliders: u64,
    empty: u64,
    flood: u64,
    shifted: u64,
    next: u64,
    n: nat,
)
    requires
        forall|sq: int| #[trigger] bit(flood, sq) == slides_within(d, sliders, empty, sq, n),
        moved_one(d, flood, shifted),
        forall|sq: int| #[trigger]
            bit(next, sq) == (bit(flood, sq) || (bit(shifted, sq) && bit(empty, sq))),
    ensures
        forall|sq: int| #[trigger] bit(next, sq) == slides_within(d, sliders, empty, sq, n + 1),
{
    assert forall|sq: int| #[trigger]
        bit(next, sq) == slides_within(d, sliders, empty, sq, n + 1) by {
        assert(bit(shifted, sq) == (match step(d.opposite(), sq) {
            Some(p) => bit(flood, p),
            None => false,
        }));
        if bit(flood, sq) {
            lemma_within_grows(d, sliders, empty, sq, n);
        }
    }
}

/// After seven rounds the fill is complete, and one more step gives what the
/// sliders see.
proof fn lemma_fill_done(d: Direction, sliders: u64, empty: u64, flood: u64, result: u64)
    requires
        forall|sq: int| #[trigger] bit(flood, sq) == slides_within(d, sliders, empty, sq, 7),
        moved_one(d, flood, result),
    ensures
        forall|sq: int| #[trigger] bit(result, sq) == ray_attacks(d, sliders, empty, sq),
{
    assert forall|sq: int| #[trigger] bit(result, sq) == ray_attacks(d, sliders, empty, sq) by {
        if let Some(p) = step(d.opposite(), sq) {
            lemma_step_room(d.opposite(), p);
            lemma_within_full(d, sliders, empty, p, 7);
        }
    }
}

/// The eight shifts, each with the mask that stops it from wrapping round the
/// edge of the board, move a set one step.
pub proof fn lemma_shifts(x: u64)
    ensures
        moved_one(Direction::North, x, x << 8),
        moved_one(Direction::South, x, x >> 8),
        moved_one(Direction::East, x, (x << 1) & NOT_A),
        moved_one(Direction::West, x, (x >> 1) & NOT_H),
        moved_one(Direction::NorthEast, x, (x << 9) & NOT_A),
        moved_one(Direction::NorthWest, x, (x << 7) & NOT_H),
        moved_one(Direction::SouthEast, x, (x >> 7) & NOT_A),
        moved_one(Direction::SouthWest, x, (x >> 9) & NOT_H),
{
    lemma_bit_consts();
    lemma_bit_shl(x, 8);
    lemma_bit_shr(x, 8);
    lemma_bit_shl(x, 1);
    lemma_bit_shr(x, 1);
    lemma_bit_shl(x, 9);
    lemma_bit_shl(x, 7);
    lemma_bit_shr(x, 7);
    lemma_bit_shr(x, 9);
    lemma_bit_ops(x << 1, NOT_A);
    lemma_bit_ops(x >> 1, NOT_H);
    lemma_bit_ops(x << 9, NOT_A);
    lemma_bit_ops(x << 7, NOT_H);
    lemma_bit_ops(x >> 7, NOT_A);
    lemma_bit_ops(x >> 9, NOT_H);
}

/// What a fill round computes from the flood so far, the shifted flood and
/// the squares that may be passed.
proof fn lemma_round_bits(flood: u64, shift: u64, mask: u64, empty: u64)
    ensures
        forall|sq: int| #[trigger]
            bit(flood | (shift & (empty & mask)), sq) == (bit(flood, sq) || (bit(
                shift & mask,
                sq,
            ) && bit(empty, sq))),
{
    lemma_bit_ops(flood, shift & (empty & mask));
    lemma_bit_ops(shift, empty & mask);
    lemma_bit_ops(empty, mask);
    lemma_bit_ops(shift, mask);
}

/// Every square that the sliders of `pieces` see towards the south, passing
/// over the squares of `empty`.
pub fn sout_attacks(pieces: u64, empty: u64) -> (r: u64)
    ensures
        forall|sq: int| #[trigger] bit(r, sq) == ray_attacks(Direction::South, pieces, empty, sq),
{
    let mut flood: u64 = pieces;
    let mut n: u8 = 0;
    while n < 7
        invariant
            n <= 7,
            forall|sq: int| #[trigger]
                bit(flood, sq) == slides_within(Direction::South, pieces, empty, sq, n as nat),
        decreases 7 - n,
    {
        proof {
            lemma_shifts(flood);
            lemma_bit_ops(flood, (flood >> 8) & empty);
            lemma_bit_ops(flood >> 8, empty);
            lemma_fill_round(
                Direction::South,
                pieces,
                empty,
                flood,
                flood >> 8,
                flood | ((flood >> 8) & empty),
                n as nat,
            );
        }
        flood |= (flood >> 8) & empty;
        n += 1;
    }
    proof {
        lemma_shifts(flood);
        lemma_fill_done(Direction::South, pieces, empty, flood, flood >> 8);
    }
    flood >> 8
}

/// Every square that the sliders of `pieces` see towards the north, passing
/// over the squares of `empty`.
pub fn nort_attacks(pieces: u64, empty: u64) -> (r: u64)
    ensures
        forall|sq: int| #[trigger] bit(r, sq) == ray_attacks(Direction::North, pieces, empty, sq),
{
    let mut flood: u64 = pieces;
    let mut n: u8 = 0;
    while n < 7
        invariant
            n <= 7,
            forall|sq: int| #[trigger]
                bit(flood, sq) == slides_within(Direction::North, pieces, empty, sq, n as nat),
        decreases 7 - n,
    {
        proof {
            lemma_shifts(flood);
            lemma_bit_ops(flood, (flood << 8) & empty);
            lemma_bit_ops(flood << 8, empty);
            lemma_fill_round(
                Direction::North,
                pieces,
                empty,
                flood,
                flood << 8,
                flood | ((flood << 8) & empty),
                n as nat,
            );
        }
        flood |= (flood << 8) & empty;
        n += 1;
    }
    proof {
        lemma_shifts(flood);
        lemma_fill_done(Direction::North, pieces, empty, flood, flood << 8);
    }
    flood << 8
}

/// Every square that the sliders of `pieces` see towards the east, passing
/// over the squares of `empty`.
pub fn east_attacks(pieces: u64, empty: u64) -> (r: u64)
    ensures
        forall|sq: int| #[trigger] bit(r, sq) == ray_attacks(Direction::East, pieces, empty, sq),
{
    let open: u64 = empty & NOT_A;
    let mut flood: u64 = pieces;
    let mut n: u8 = 0;
    while n < 7
        invariant
            n <= 7,
            open == empty & NOT_A,
            forall|sq: int| #[trigger]
                bit(flood, sq) == slides_within(Direction::East, pieces, empty, sq, n as nat),
        decreases 7 - n,
    {
        proof {
            lemma_shifts(flood);
            lemma_round_bits(flood, flood << 1, NOT_A, empty);
            lemma_fill_round(
                Direction::East,
                pieces,
                empty,
                flood,
                (flood << 1) & NOT_A,
                flood | ((flood << 1) & open),
                n as nat,
            );
        }
        flood |= (flood << 1) & open;
        n += 1;
    }
    proof {
        lemma_shifts(flood);
        lemma_fill_done(Direction::East, pieces, empty, flood, (flood << 1) & NOT_A);
    }
    (flood << 1) & NOT_A
}

/// Every square that the sliders of `pieces` see towards the west, passing
/// over the squares of `empty`.
pub fn west_attacks(pieces: u64, empty: u64) -> (r: u64)
    ensures
        forall|sq: int| #[trigger] bit(r, sq) == ray_attacks(Direction::West, pieces, empty, sq),
{
    let open: u64 = empty & NOT_H;
    let mut flood: u64 = pieces;
    let mut n: u8 = 0;
    while n < 7
        invariant
            n <= 7,
            open == empty & NOT_H,
            forall|sq: int| #[trigger]
                bit(flood, sq) == slides_within(Direction::West, pieces, empty, sq, n as nat),
        decreases 7 - n,
    {
        proof {
            lemma_shifts(flood);
            lemma_round_bits(flood, flood >> 1, NOT_H, empty);
            lemma_fill_round(
                Direction::West,
                pieces,
                empty,
                flood,
                (flood >> 1) & NOT_H,
                flood | ((flood >> 1) & open),
                n as nat,
            );
        }
        flood |= (flood >> 1) & open;
        n += 1;
    }
    proof {
        lemma_shifts(flood);
        lemma_fill_done(Direction::West, pieces, empty, flood, (flood >> 1) & NOT_H);
    }
    (flood >> 1) & NOT_H
}

/// Every square that the sliders of `pieces` see towards the north-east, passing
/// over the squares of `empty`.
pub fn noea_attacks(pieces: u64, empty: u64) -> (r: u64)
    ensures
        forall|sq: int| #[trigger]
            bit(r, sq) == ray_attacks(Direction::NorthEast, pieces, empty, sq),
{
    let open: u64 = empty & NOT_A;
    let mut flood: u64 = pieces;
    let mut n: u8 = 0;
    while n < 7
        invariant
            n <= 7,
            open == empty & NOT_A,
            forall|sq: int| #[trigger]
                bit(flood, sq) == slides_within(
                    Direction::NorthEast,
                    pieces,
                    empty,
                    sq,
                    n as nat,
                ),
        decreases 7 - n,
    {
        proof {
            lemma_shifts(flood);
            lemma_round_bits(flood, flood << 9, NOT_A, empty);
            lemma_fill_round(
                Direction::NorthEast,
                pieces,
                empty,
                flood,
                (flood << 9) & NOT_A,
                flood | ((flood << 9) & open),
                n as nat,
            );
        }
        flood |= (flood << 9) & open;
        n += 1;
    }
    proof {
        lemma_shifts(flood);
        lemma_fill_done(Direction::NorthEast, pieces, empty, flood, (flood << 9) & NOT_A);
    }
    (flood << 9) & NOT_A
}

/// Every square that the sliders of `pieces` see towards the north-west, passing
/// over the squares of `empty`.
pub fn nowe_attacks(pieces: u64, empty: u64) -> (r: u64)
    ensures
        forall|sq: int| #[trigger]
            bit(r, sq) == ray_attacks(Direction::NorthWest, pieces, empty, sq),
{
    let open: u64 = empty & NOT_H;
    let mut flood: u64 = pieces;
    let mut n: u8 = 0;
    while n < 7
        invariant
            n <= 7,
            open == empty & NOT_H,
            forall|sq: int| #[trigger]
                bit(flood, sq) == slides_within(
                    Direction::NorthWest,
                    pieces,
                    empty,
                    sq,
                    n as nat,
                ),
        decreases 7 - n,
    {
        proof {
            lemma_shifts(flood);
            lemma_round_bits(flood, flood << 7, NOT_H, empty);
            lemma_fill_round(
                Direction::NorthWest,
                pieces,
                empty,
                flood,
                (flood << 7) & NOT_H,
                flood | ((flood << 7) & open),
                n as nat,
            );
        }
        flood |= (flood << 7) & open;
        n += 1;
    }
    proof {
        lemma_shifts(flood);
        lemma_fill_done(Direction::NorthWest, pieces, empty, flood, (flood << 7) & NOT_H);
    }
    (flood << 7) & NOT_H
}

/// Every square that the sliders of `pieces` see towards the south-east, passing
/// over the squares of `empty`.
pub fn soea_attacks(pieces: u64, empty: u64) -> (r: u64)
    ensures
        forall|sq: int| #[trigger]
            bit(r, sq) == ray_attacks(Direction::SouthEast, pieces, empty, sq),
{
    let open: u64 = empty & NOT_A;
    let mut flood: u64 = pieces;
    let mut n: u8 = 0;
    while n < 7
        invariant
            n <= 7,
            open == empty & NOT_A,
            forall|sq: int| #[trigger]
                bit(flood, sq) == slides_within(
                    Direction::SouthEast,
                    pieces,
                    empty,
                    sq,
                    n as nat,
                ),
        decreases 7 - n,
    {
        proof {
            lemma_shifts(flood);
            lemma_round_bits(flood, flood >> 7, NOT_A, empty);
            lemma_fill_round(
                Direction::SouthEast,
                pieces,
                empty,
                flood,
                (flood >> 7) & NOT_A,
                flood | ((flood >> 7) & open),
                n as nat,
            );
        }
        flood |= (flood >> 7) & open;
        n += 1;
    }
    proof {
        lemma_shifts(flood);
        lemma_fill_done(Direction::SouthEast, pieces, empty, flood, (flood >> 7) & NOT_A);
    }
    (flood >> 7) & NOT_A
}

/// Every square that the sliders of `pieces` see towards the south-west, passing
/// over the squares of `empty`.
pub fn sowe_attacks(pieces: u64, empty: u64) -> (r: u64)
    ensures
        forall|sq: int| #[trigger]
            bit(r, sq) == ray_attacks(Direction::SouthWest, pieces, empty, sq),
{
    let open: u64 = empty & NOT_H;
    let mut flood: u64 = pieces;
    let mut n: u8 = 0;
    while n < 7
        invariant
            n <= 7,
            open == empty & NOT_H,
            forall|sq: int| #[trigger]
                bit(flood, sq) == slides_within(
                    Direction::SouthWest,
                    pieces,
                    empty,
                    sq,
                    n as nat,
                ),
        decreases 7 - n,
    {
        proof {
            lemma_shifts(flood);
            lemma_round_bits(flood, flood >> 9, NOT_H, empty);
            lemma_fill_round(
                Direction::SouthWest,
                pieces,
                empty,
                flood,
                (flood >> 9) & NOT_H,
                flood | ((flood >> 9) & open),
                n as nat,
            );
        }
        flood |= (flood >> 9) & open;
        n += 1;
    }
    proof {
        lemma_shifts(flood);
        lemma_fill_done(Direction::SouthWest, pieces, empty, flood, (flood >> 9) & NOT_H);
    }
    (flood >> 9) & NOT_H
}

/// Every square that the sliders see along any of the eight directions.
pub fn vision(pieces: u64, empty: u64) -> (r: u64)
    ensures
        forall|sq: int| #[trigger] bit(r, sq) == sees(pieces, empty, sq),
{
    let n: u64 = nort_attacks(pieces, empty);
    let ne: u64 = noea_attacks(pieces, empty);
    let e: u64 = east_attacks(pieces, empty);
    let se: u64 = soea_attacks(pieces, empty);
    let s: u64 = sout_attacks(pieces, empty);
    let sw: u64 = sowe_attacks(pieces, empty);
    let w: u64 = west_attacks(pieces, empty);
    let nw: u64 = nowe_attacks(pieces, empty);
    proof {
        lemma_bit_ops(n, ne);
        lemma_bit_ops(n | ne, e);
        lemma_bit_ops(n | ne | e, se);
        lemma_bit_ops(n | ne | e | se, s);
        lemma_bit_ops(n | ne | e | se | s, sw);
        lemma_bit_ops(n | ne | e | se | s | sw, w);
        lemma_bit_ops(n | ne | e | se | s | sw | w, nw);
    }
    n | ne | e | se | s | sw | w | nw
}

} // verus!
