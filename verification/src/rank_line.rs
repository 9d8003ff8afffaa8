//! What a slider sees along one rank, computed on the eight bits of the rank
//! by subtraction: taking twice the slider from the occupancy flips exactly
//! the bits from the slider up to its first blocker.

use vstd::prelude::*;
use vstd::wrapping::u8_specs::{wrapping_mul, wrapping_sub};

verus! {

/// Whether file `i` belongs to the set of files encoded by `b`.
pub open spec fn file_bit(b: u8, i: int) -> bool {
    0 <= i < 8 && (b >> (i as u8)) & 1 == 1
}

/// The set of files read from the other end: file `i` of the result is file
/// `7 - i` of `b`. Each file is picked out and put in its new place.
pub open spec fn mirrored(b: u8) -> u8 {
    ((b & 0x01) << 7u8) | ((b & 0x02) << 5u8) | ((b & 0x04) << 3u8) | ((b & 0x08) << 1u8) | ((b
        & 0x10) >> 1u8) | ((b & 0x20) >> 3u8) | ((b & 0x40) >> 5u8) | ((b & 0x80) >> 7u8)
}

/// One file of a mirrored set.
proof fn lemma_mirrored_at(b: u8, i: u8)
    by (bit_vector)
    requires
        i < 8,
    ensures
        ((mirrored(b) >> i) & 1 == 1) == ((b >> ((7 - i) as u8)) & 1 == 1),
{
}

/// File `i` of a mirrored set is file `7 - i` of the set.
pub proof fn lemma_mirrored(b: u8)
    ensures
        forall|i: int| #[trigger] file_bit(mirrored(b), i) == file_bit(b, 7 - i),
{
    assert forall|i: int| #[trigger] file_bit(mirrored(b), i) == file_bit(b, 7 - i) by {
        if 0 <= i < 8 {
            lemma_mirrored_at(b, i as u8);
        }
    }
}

/// Exchanging the halves of a set, then the pairs of files within each
/// half, then the files within each pair, mirrors it.
proof fn lemma_swaps_mirror(b: u8)
    by (bit_vector)
    ensures
        ({
            let halves = ((b & 0xf0) >> 4u8) | ((b & 0x0f) << 4u8);
            let pairs = ((halves & 0xcc) >> 2u8) | ((halves & 0x33) << 2u8);
            ((pairs & 0xaa) >> 1u8) | ((pairs & 0x55) << 1u8)
        }) == mirrored(b),
{
}

/// The value that `line_attacks` computes.
pub open spec fn line_value(occ: u8, sldr: u8) -> u8 {
    wrapping_sub(occ, wrapping_mul(sldr, 2)) ^ mirrored(
        wrapping_sub(mirrored(occ), wrapping_mul(mirrored(sldr), 2)),
    )
}

/// Whether a slider on file `s` sees file `to`: it is another file, and no
/// file between the two is occupied.
pub open spec fn sees_on_rank(occ: u8, s: int, to: int) -> bool {
    0 <= to < 8 && to != s && forall|x: int|
        (s < x < to || to < x < s) ==> !file_bit(occ, x)
}

proof fn lemma_line_steps(occ: u8, s: u8, j: u8)
    by (bit_vector)
    requires
        s < 8,
        j < 8,
    ensures
        ({
            let f = line_value(occ, 1u8 << s);
            &&& (f >> s) & 1 != 1
            &&& j == s + 1 ==> (f >> j) & 1 == 1
            &&& j > s + 1 ==> ((f >> j) & 1 == 1) == ((f >> ((j - 1) as u8)) & 1 == 1 && (occ >> (
            (j - 1) as u8)) & 1 != 1)
            &&& j + 1 == s ==> (f >> j) & 1 == 1
            &&& j + 1 < s ==> ((f >> j) & 1 == 1) == ((f >> ((j + 1) as u8)) & 1 == 1 && (occ >> (
            (j + 1) as u8)) & 1 != 1)
        }),
{
}

/// The set of files that holds file `s` alone.
pub open spec fn one_file(s: int) -> u8 {
    1u8 << (s as u8)
}

/// What the computed value holds for a single slider, above and below it.
proof fn lemma_line_side(occ: u8, s: int, to: int)
    requires
        0 <= s < 8,
        0 <= to < 8,
    ensures
        file_bit(line_value(occ, one_file(s)), to) == sees_on_rank(occ, s, to),
    decreases
            if to > s {
                to - s
            } else {
                s - to
            },
{
    lemma_line_steps(occ, s as u8, to as u8);
    let f = line_value(occ, one_file(s));
    if to == s {
        assert(!file_bit(f, to));
    } else if to == s + 1 || to + 1 == s {
        assert(file_bit(f, to));
        assert(sees_on_rank(occ, s, to));
    } else if to > s + 1 {
        lemma_line_side(occ, s, to - 1);
        assert(file_bit(f, to) == (file_bit(f, to - 1) && !file_bit(occ, to - 1)));
        if sees_on_rank(occ, s, to - 1) && !file_bit(occ, to - 1) {
            assert forall|x: int| (s < x < to || to < x < s) implies !file_bit(occ, x) by {
                if x < to - 1 {
                    assert(s < x < to - 1);
                }
            }
            assert(sees_on_rank(occ, s, to));
        }
        if sees_on_rank(occ, s, to) {
            assert(s < to - 1 < to);
            assert(!file_bit(occ, to - 1));
            assert forall|x: int| (s < x < to - 1 || to - 1 < x < s) implies !file_bit(occ, x) by {
                assert(s < x < to);
            }
            assert(sees_on_rank(occ, s, to - 1));
        }
    } else {
        lemma_line_side(occ, s, to + 1);
        assert(file_bit(f, to) == (file_bit(f, to + 1) && !file_bit(occ, to + 1)));
        if sees_on_rank(occ, s, to + 1) && !file_bit(occ, to + 1) {
            assert forall|x: int| (s < x < to || to < x < s) implies !file_bit(occ, x) by {
                if x > to + 1 {
                    assert(to + 1 < x < s);
                }
            }
            assert(sees_on_rank(occ, s, to));
        }
        if sees_on_rank(occ, s, to) {
            assert(to < to + 1 < s);
            assert(!file_bit(occ, to + 1));
            assert forall|x: int| (s < x < to + 1 || to + 1 < x < s) implies !file_bit(occ, x) by {
                assert(to < x < s);
            }
            assert(sees_on_rank(occ, s, to + 1));
        }
    }
}

/// The files that a single slider on file `s` sees along its rank: every
/// file up to the first occupied one on either side, that one included.
pub proof fn lemma_line_attacks(occ: u8, s: int)
    requires
        0 <= s < 8,
    ensures
        forall|to: int| #[trigger]
            file_bit(line_value(occ, one_file(s)), to) == sees_on_rank(occ, s, to),
{
    assert forall|to: int| #[trigger]
        file_bit(line_value(occ, one_file(s)), to) == sees_on_rank(occ, s, to) by {
        if 0 <= to < 8 {
            lemma_line_side(occ, s, to);
        }
    }
}

/// The set of files with the order of the files reversed.
fn mirror(b: u8) -> (r: u8)
    ensures
        r == mirrored(b),
        forall|i: int| #[trigger] file_bit(r, i) == file_bit(b, 7 - i),
{
    proof {
        lemma_swaps_mirror(b);
        lemma_mirrored(b);
    }
    let halves: u8 = ((b & 0xf0) >> 4u8) | ((b & 0x0f) << 4u8);
    let pairs: u8 = ((halves & 0xcc) >> 2u8) | ((halves & 0x33) << 2u8);
    ((pairs & 0xaa) >> 1u8) | ((pairs & 0x55) << 1u8)
}

/// The files that the slider of `sldr` sees along a rank whose occupied
/// files are `occ`: for a single slider every file up to the first occupied
/// one on either side, that one included. The subtractions wrap.
pub fn line_attacks(occ: u8, sldr: u8) -> (r: u8)
    ensures
        r == line_value(occ, sldr),
        forall|s: int, to: int|
            #![trigger one_file(s), file_bit(r, to)]
            0 <= s < 8 && sldr == one_file(s) ==> file_bit(r, to) == sees_on_rank(occ, s, to),
{
    proof {
        assert forall|s: int, to: int|
            #![trigger one_file(s), file_bit(line_value(occ, sldr), to)]
            0 <= s < 8 && sldr == one_file(s) implies file_bit(line_value(occ, sldr), to)
            == sees_on_rank(occ, s, to) by {
            lemma_line_attacks(occ, s);
        }
    }
    let forward: u8 = occ.wrapping_sub(sldr.wrapping_mul(2));
    let backward: u8 = mirror(mirror(occ).wrapping_sub(mirror(sldr).wrapping_mul(2)));
    forward ^ backward
}

} // verus!
