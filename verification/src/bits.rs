//! Bit-level vocabulary for bitboards: membership of a square in a 64-bit set,
//! and the elementary facts about the bitwise operators that the rest of the
//! library builds on.

use vstd::prelude::*;
use vstd::std_specs::bits::{axiom_u64_trailing_zeros, u64_trailing_zeros};

verus! {

/// Every square of the board.
pub const ALL_BITS: u64 = 0xffff_ffff_ffff_ffff;

/// Every square outside the a-file.
pub const NOT_A: u64 = 0xfefe_fefe_fefe_fefe;

/// Every square outside the h-file.
pub const NOT_H: u64 = 0x7f7f_7f7f_7f7f_7f7f;

/// Whether square `i` belongs to the set of squares encoded by `b`.
pub open spec fn bit(b: u64, i: int) -> bool {
    0 <= i < 64 && (b >> (i as u64)) & 1 == 1
}

/// The square of the lowest member of `b` (64 for the empty set).
pub open spec fn lowest(b: u64) -> int {
    u64_trailing_zeros(b) as int
}

/// One bit of the results of the bitwise operators.
proof fn lemma_ops_at(a: u64, b: u64, i: u64)
    by (bit_vector)
    requires
        i < 64,
    ensures
        (((a | b) >> i) & 1 == 1) == (((a >> i) & 1 == 1) || ((b >> i) & 1 == 1)),
        (((a & b) >> i) & 1 == 1) == (((a >> i) & 1 == 1) && ((b >> i) & 1 == 1)),
        (((a ^ b) >> i) & 1 == 1) == (((a >> i) & 1 == 1) != ((b >> i) & 1 == 1)),
        (((!a) >> i) & 1 == 1) == !((a >> i) & 1 == 1),
{
}

/// One bit of a shifted bitboard, and of the bitboard of a single square.
proof fn lemma_shift_at(a: u64, k: u64, i: u64)
    by (bit_vector)
    requires
        i < 64,
        k < 64,
    ensures
        (((a << k) >> i) & 1 == 1) == (i >= k && (a >> ((i - k) as u64)) & 1 == 1),
        (((a >> k) >> i) & 1 == 1) == (i + k < 64 && (a >> ((i + k) as u64)) & 1 == 1),
        (((1u64 << k) >> i) & 1 == 1) == (i == k),
{
}

/// One bit of each constant.
proof fn lemma_consts_at(i: u64)
    by (bit_vector)
    requires
        i < 64,
    ensures
        (0u64 >> i) & 1 != 1,
        (0xffff_ffff_ffff_ffffu64 >> i) & 1 == 1,
        ((0xfefe_fefe_fefe_fefeu64 >> i) & 1 == 1) == (i % 8 != 0),
        ((0x7f7f_7f7f_7f7f_7f7fu64 >> i) & 1 == 1) == (i % 8 != 7),
{
}

/// One bit of the mask of a rank.
proof fn lemma_rank_at(r: u64, i: u64)
    by (bit_vector)
    requires
        r < 8,
        i < 64,
    ensures
        (((0xffu64 << ((8 * r) as u64)) >> i) & 1 == 1) == (i / 8 == r),
{
}

/// Two bitboards that differ in no bit are equal.
proof fn lemma_xor_zero(a: u64, b: u64)
    by (bit_vector)
    ensures
        a ^ b == 0 ==> a == b,
{
}

/// One bit of a bitboard without its lowest bit, which is bit `t`.
proof fn lemma_drop_lowest_at(b: u64, t: u64, i: u64)
    by (bit_vector)
    requires
        b != 0,
        i < 64,
        t < 64,
        (b >> t) & 1 == 1,
        b << ((64 - t) as u64) == 0 || t == 0,
    ensures
        (((b & ((b - 1) as u64)) >> i) & 1 == 1) == ((b >> i) & 1 == 1 && i != t),
        b & ((b - 1) as u64) < b,
{
}

/// Membership in a union, an intersection, a symmetric difference and a
/// complement.
pub proof fn lemma_bit_ops(a: u64, b: u64)
    ensures
        forall|i: int| #[trigger] bit(a | b, i) == (bit(a, i) || bit(b, i)),
        forall|i: int| #[trigger] bit(a & b, i) == (bit(a, i) && bit(b, i)),
        forall|i: int| #[trigger] bit(a ^ b, i) == (bit(a, i) != bit(b, i)),
        forall|i: int| #[trigger] bit(!a, i) == (0 <= i < 64 && !bit(a, i)),
{
    assert forall|i: int| #[trigger] bit(a | b, i) == (bit(a, i) || bit(b, i)) by {
        if 0 <= i < 64 {
            lemma_ops_at(a, b, i as u64);
        }
    }
    assert forall|i: int| #[trigger] bit(a & b, i) == (bit(a, i) && bit(b, i)) by {
        if 0 <= i < 64 {
            lemma_ops_at(a, b, i as u64);
        }
    }
    assert forall|i: int| #[trigger] bit(a ^ b, i) == (bit(a, i) != bit(b, i)) by {
        if 0 <= i < 64 {
            lemma_ops_at(a, b, i as u64);
        }
    }
    assert forall|i: int| #[trigger] bit(!a, i) == (0 <= i < 64 && !bit(a, i)) by {
        if 0 <= i < 64 {
            lemma_ops_at(a, b, i as u64);
        }
    }
}

/// Membership in a set moved `k` squares up the board.
pub proof fn lemma_bit_shl(a: u64, k: u64)
    requires
        k < 64,
    ensures
        forall|i: int| #[trigger] bit(a << k, i) == (i < 64 && bit(a, i - k)),
{
    assert forall|i: int| #[trigger] bit(a << k, i) == (i < 64 && bit(a, i - k)) by {
        if 0 <= i < 64 {
            lemma_shift_at(a, k, i as u64);
        }
    }
}

/// Membership in a set moved `k` squares down the board.
pub proof fn lemma_bit_shr(a: u64, k: u64)
    requires
        k < 64,
    ensures
        forall|i: int| #[trigger] bit(a >> k, i) == (0 <= i && bit(a, i + k)),
{
    assert forall|i: int| #[trigger] bit(a >> k, i) == (0 <= i && bit(a, i + k)) by {
        if 0 <= i < 64 {
            lemma_shift_at(a, k, i as u64);
        }
    }
}

/// The set that holds square `k` alone.
pub proof fn lemma_bit_single(k: u64)
    requires
        k < 64,
    ensures
        forall|i: int| #[trigger] bit(1u64 << k, i) == (i == k),
{
    assert forall|i: int| #[trigger] bit(1u64 << k, i) == (i == k) by {
        if 0 <= i < 64 {
            lemma_shift_at(0, k, i as u64);
        }
    }
}

/// The members of the empty set, the full board, and the two file masks.
pub proof fn lemma_bit_consts()
    ensures
        forall|i: int| !#[trigger] bit(0, i),
        forall|i: int| #[trigger] bit(ALL_BITS, i) == (0 <= i < 64),
        forall|i: int| #[trigger] bit(NOT_A, i) == (0 <= i < 64 && i % 8 != 0),
        forall|i: int| #[trigger] bit(NOT_H, i) == (0 <= i < 64 && i % 8 != 7),
{
    assert forall|i: int| !#[trigger] bit(0, i) by {
        if 0 <= i < 64 {
            lemma_consts_at(i as u64);
        }
    }
    assert forall|i: int| #[trigger] bit(ALL_BITS, i) == (0 <= i < 64) by {
        if 0 <= i < 64 {
            lemma_consts_at(i as u64);
        }
    }
    assert forall|i: int| #[trigger] bit(NOT_A, i) == (0 <= i < 64 && i % 8 != 0) by {
        if 0 <= i < 64 {
            lemma_consts_at(i as u64);
        }
    }
    assert forall|i: int| #[trigger] bit(NOT_H, i) == (0 <= i < 64 && i % 8 != 7) by {
        if 0 <= i < 64 {
            lemma_consts_at(i as u64);
        }
    }
}

/// Two bitboards with the same members are the same bitboard.
pub proof fn lemma_bits_equal(a: u64, b: u64)
    requires
        forall|i: int| 0 <= i < 64 ==> bit(a, i) == bit(b, i),
    ensures
        a == b,
{
    let x: u64 = a ^ b;
    if x != 0 {
        axiom_u64_trailing_zeros(x);
        let t: int = lowest(x);
        lemma_bit_ops(a, b);
        assert(bit(x, t));
        assert(bit(a, t) != bit(b, t));
    }
    lemma_xor_zero(a, b);
}

/// The lowest member of a non-empty set: it is a member, and no smaller
/// square is. Clearing it leaves the other members.
pub proof fn lemma_lowest(b: u64)
    requires
        b != 0,
    ensures
        0 <= lowest(b) < 64,
        bit(b, lowest(b)),
        forall|i: int| 0 <= i < lowest(b) ==> !bit(b, i),
        forall|i: int| #[trigger]
            bit(b & ((b - 1) as u64), i) == (bit(b, i) && i != lowest(b)),
        b & ((b - 1) as u64) < b,
{
    axiom_u64_trailing_zeros(b);
    let t: u64 = u64_trailing_zeros(b) as u64;
    assert forall|i: int| 0 <= i < lowest(b) implies !bit(b, i) by {
        let j: u64 = i as u64;
        assert((b >> j) & 1u64 == 0u64);
    }
    assert forall|i: int| #[trigger]
        bit(b & ((b - 1) as u64), i) == (bit(b, i) && i != lowest(b)) by {
        if 0 <= i < 64 {
            lemma_drop_lowest_at(b, t, i as u64);
        }
    }
    lemma_drop_lowest_at(b, t, 0);
}

/// A set is empty exactly when it has no member.
pub proof fn lemma_zero_iff_empty(b: u64)
    ensures
        (b == 0) == (forall|i: int| 0 <= i < 64 ==> !bit(b, i)),
{
    lemma_bit_consts();
    if b != 0 {
        lemma_lowest(b);
    }
}

/// The lowest square of a non-empty set.
pub fn lowest_square(b: u64) -> (sq: usize)
    requires
        b != 0,
    ensures
        sq == lowest(b),
        sq < 64,
        bit(b, sq as int),
        forall|i: int| 0 <= i < sq ==> !bit(b, i),
{
    proof {
        lemma_lowest(b);
    }
    b.trailing_zeros() as usize
}

/// A non-empty set without its lowest square.
pub fn without_lowest(b: u64) -> (r: u64)
    requires
        b != 0,
    ensures
        r == b & ((b - 1) as u64),
        r < b,
        forall|i: int| #[trigger] bit(r, i) == (bit(b, i) && i != lowest(b)),
{
    proof {
        lemma_lowest(b);
    }
    b & (b - 1)
}

/// Whether `b` holds the square `k` and no other.
pub open spec fn only(b: u64, k: int) -> bool {
    0 <= k < 64 && forall|i: int| bit(b, i) == (i == k)
}

/// A set of one square has that square as its lowest, and nothing is left
/// of it without that square.
pub proof fn lemma_only(b: u64, k: int)
    requires
        only(b, k),
    ensures
        b != 0,
        lowest(b) == k,
        b & ((b - 1) as u64) == 0,
        b == 1u64 << (k as u64),
{
    assert(bit(b, k));
    lemma_zero_iff_empty(b);
    lemma_lowest(b);
    assert(bit(b, lowest(b)));
    lemma_zero_iff_empty(b & ((b - 1) as u64));
    lemma_bit_single(k as u64);
    lemma_bits_equal(b, 1u64 << (k as u64));
}

/// Whether the set holds exactly one square.
pub fn is_single(b: u64) -> (r: bool)
    ensures
        r == exists|k: int| only(b, k),
        r ==> only(b, lowest(b)),
{
    if b == 0 {
        proof {
            lemma_bit_consts();
            assert forall|k: int| !only(b, k) by {
                if only(b, k) {
                    assert(bit(b, k));
                }
            }
        }
        false
    } else {
        let rest: u64 = without_lowest(b);
        proof {
            lemma_lowest(b);
            lemma_zero_iff_empty(rest);
            if rest == 0 {
                assert forall|i: int| bit(b, i) == (i == lowest(b)) by {
                    assert(bit(rest, i) == (bit(b, i) && i != lowest(b)));
                }
                assert(only(b, lowest(b)));
            } else {
                assert forall|k: int| !only(b, k) by {
                    if only(b, k) {
                        lemma_only(b, k);
                    }
                }
            }
        }
        rest == 0
    }
}

/// The set that holds the square `sq` alone.
pub fn square(sq: usize) -> (r: u64)
    requires
        sq < 64,
    ensures
        r == 1u64 << sq,
        forall|i: int| #[trigger] bit(r, i) == (i == sq),
{
    proof {
        lemma_bit_single(sq as u64);
    }
    1u64 << sq
}

/// The squares of one rank.
pub fn rank_mask(rank: usize) -> (r: u64)
    requires
        rank < 8,
    ensures
        forall|i: int| #[trigger] bit(r, i) == (0 <= i < 64 && i / 8 == rank),
{
    let shift: u64 = 8 * (rank as u64);
    proof {
        assert forall|i: int| #[trigger]
            bit(0xffu64 << shift, i) == (0 <= i < 64 && i / 8 == rank) by {
            if 0 <= i < 64 {
                lemma_rank_at(rank as u64, i as u64);
            }
        }
    }
    0xffu64 << shift
}

/// Whether square `sq` belongs to `b`.
pub fn holds(b: u64, sq: usize) -> (r: bool)
    requires
        sq < 64,
    ensures
        r == bit(b, sq as int),
{
    proof {
        lemma_bit_single(sq as u64);
        lemma_bit_ops(b, 1u64 << sq);
        lemma_zero_iff_empty(b & (1u64 << sq));
        assert(bit(b & (1u64 << sq), sq as int) == bit(b, sq as int));
        assert(forall|i: int| i != sq ==> !bit(b & (1u64 << sq), i));
    }
    b & (1u64 << sq) != 0
}

/// Puts square `index` into the set when `state` holds, and takes it out
/// otherwise; every other square is left as it was.
pub fn set_bit(bitboard: &mut u64, index: usize, state: bool)
    requires
        index < 64,
    ensures
        forall|i: int| #[trigger]
            bit(*final(bitboard), i) == (if i == index {
                state
            } else {
                bit(*old(bitboard), i)
            }),
{
    let board: u64 = *bitboard;
    let mask: u64 = 1u64 << index;
    proof {
        lemma_bit_single(index as u64);
        lemma_bit_ops(board, mask);
        lemma_bit_ops(board, !mask);
        lemma_bit_ops(mask, mask);
    }
    let new_bitboard: u64 = if state {
        board | mask
    } else {
        board & !mask
    };
    *bitboard = new_bitboard;
}

} // verus!
