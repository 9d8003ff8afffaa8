//! What the fills mean on the board: a slider sees only along its ray.

use vstd::prelude::*;
use crate::bits::{bit, only};
use crate::board::{
    aligned, between, bishop_reach, in_direction, lemma_square_parts, lemma_step_room, on_board,
    rook_reach, room, same_line, step, Direction,
};
use crate::sliding_pieces::{ray_attacks, slides_onto};

verus! {

/// A square in some direction from another shares a line with it.
pub proof fn lemma_direction_aligned(d: Direction, a: int, b: int)
    requires
        in_direction(d, a, b),
    ensures
        aligned(a, b),
        aligned(b, a),
        same_line(d.line(), a, b),
        in_direction(d.opposite(), b, a),
{
    lemma_square_parts(a);
    lemma_square_parts(b);
}

/// Whether every square between `a` and `b` belongs to `empty`.
pub open spec fn clear_path(empty: u64, a: int, b: int) -> bool {
    forall|x: int| between(a, b, x) ==> bit(empty, x)
}

/// One step further in direction `d`: the squares between `s` and the new
/// square are those between `s` and the old one, and the old one.
pub proof fn lemma_between_step(d: Direction, s: int, q: int, p: int)
    requires
        on_board(s),
        q == s || in_direction(d, s, q),
        step(d, q) == Some(p),
    ensures
        in_direction(d, s, p),
        forall|x: int| between(s, p, x) == ((x == q && q != s) || between(s, q, x)),
{
    lemma_step_room(d, q);
    lemma_square_parts(s);
    lemma_square_parts(q);
    lemma_square_parts(p);
    assert forall|x: int| between(s, p, x) == ((x == q && q != s) || between(s, q, x)) by {
        if on_board(x) {
            lemma_square_parts(x);
        }
    }
}

/// A square in direction `d` from `s` has a square before it, which is `s`
/// or lies in direction `d` from `s`.
pub proof fn lemma_direction_back(d: Direction, s: int, p: int)
    requires
        in_direction(d, s, p),
    ensures
        step(d.opposite(), p) is Some,
        step(d.opposite(), p)->0 == s || in_direction(d, s, step(d.opposite(), p)->0),
        step(d, step(d.opposite(), p)->0) == Some(p),
{
    lemma_square_parts(s);
    lemma_square_parts(p);
    lemma_step_room(d.opposite(), p);
    let q = step(d.opposite(), p)->0;
    lemma_square_parts(q);
}

/// Along the line of a pin. A king on `k` sees the piece on `from` in
/// direction `d`. A square `to` of the line through both, which the piece
/// reaches over empty squares and which is not the king's, then lies in
/// direction `d` from the king too, and nothing stands between the king
/// and it but the piece itself.
pub proof fn lemma_along_pin(
    d: Direction,
    empty: u64,
    through: u64,
    k: int,
    from: int,
    to: int,
)
    requires
        in_direction(d, k, from),
        clear_path(empty, k, from),
        bit(through, from),
        forall|x: int| bit(empty, x) ==> bit(through, x),
        !bit(empty, k),
        on_board(to),
        to != k,
        to != from,
        same_line(d.line(), k, to),
        clear_path(empty, from, to),
    ensures
        in_direction(d, k, to),
        clear_path(through, k, to),
{
    lemma_square_parts(k);
    lemma_square_parts(from);
    lemma_square_parts(to);
    if !in_direction(d, k, to) || (in_direction(d, k, to) && !in_direction(d, from, to)
        && !between(k, from, to)) {
        assert(between(from, to, k));
    }
    assert forall|x: int| between(k, to, x) implies bit(through, x) by {
        lemma_square_parts(x);
        if x != from {
            if between(k, from, x) {
                assert(bit(empty, x));
            } else {
                assert(between(from, to, x));
                assert(bit(empty, x));
            }
        }
    }
}

/// Whether one of `sliders` lies in direction `d` behind `sq`, with nothing
/// but squares of `empty` between.
pub open spec fn slider_behind(d: Direction, sliders: u64, empty: u64, sq: int) -> bool {
    exists|s: int| bit(sliders, s) && in_direction(d, s, sq) && clear_path(empty, s, sq)
}

/// Where sliders come to stand: on their own squares, and on the empty
/// squares that one of them reaches over empty squares.
pub proof fn lemma_slides_sources(d: Direction, sliders: u64, empty: u64, sq: int)
    ensures
        slides_onto(d, sliders, empty, sq) == (bit(sliders, sq) || (bit(empty, sq)
            && slider_behind(d, sliders, empty, sq))),
    decreases room(d.opposite(), sq),
{
    lemma_step_room(d.opposite(), sq);
    if !bit(sliders, sq) && bit(empty, sq) {
        if slides_onto(d, sliders, empty, sq) {
            let q = step(d.opposite(), sq)->0;
            lemma_slides_sources(d, sliders, empty, q);
            assert(step(d, q) == Some(sq)) by {
                lemma_square_parts(sq);
                lemma_square_parts(q);
            }
            if bit(sliders, q) {
                lemma_between_step(d, q, q, sq);
                assert(bit(sliders, q) && in_direction(d, q, sq) && clear_path(empty, q, sq));
            } else {
                let s = choose|s: int|
                    bit(sliders, s) && in_direction(d, s, q) && clear_path(empty, s, q);
                lemma_between_step(d, s, q, sq);
                assert(bit(sliders, s) && in_direction(d, s, sq) && clear_path(empty, s, sq));
            }
        }
        if slider_behind(d, sliders, empty, sq) {
            let s = choose|s: int|
                bit(sliders, s) && in_direction(d, s, sq) && clear_path(empty, s, sq);
            lemma_direction_back(d, s, sq);
            let q = step(d.opposite(), sq)->0;
            lemma_between_step(d, s, q, sq);
            lemma_slides_sources(d, sliders, empty, q);
            if q != s {
                assert(between(s, sq, q));
                assert forall|x: int| between(s, q, x) implies bit(empty, x) by {
                    assert(between(s, sq, x));
                }
                assert(bit(sliders, s) && in_direction(d, s, q) && clear_path(empty, s, q));
            }
        }
    }
}

/// What sliders see in a direction: the squares that nothing but empty
/// squares separates from one of them.
pub proof fn lemma_ray_sources(d: Direction, sliders: u64, empty: u64, sq: int)
    ensures
        ray_attacks(d, sliders, empty, sq) == slider_behind(d, sliders, empty, sq),
{
    lemma_step_room(d.opposite(), sq);
    if ray_attacks(d, sliders, empty, sq) {
        let q = step(d.opposite(), sq)->0;
        lemma_slides_sources(d, sliders, empty, q);
        assert(step(d, q) == Some(sq)) by {
            lemma_square_parts(sq);
            lemma_square_parts(q);
        }
        if bit(sliders, q) {
            lemma_between_step(d, q, q, sq);
            assert(bit(sliders, q) && in_direction(d, q, sq) && clear_path(empty, q, sq));
        } else {
            let s = choose|s: int|
                bit(sliders, s) && in_direction(d, s, q) && clear_path(empty, s, q);
            lemma_between_step(d, s, q, sq);
            assert(bit(sliders, s) && in_direction(d, s, sq) && clear_path(empty, s, sq));
        }
    }
    if slider_behind(d, sliders, empty, sq) {
        let s = choose|s: int|
            bit(sliders, s) && in_direction(d, s, sq) && clear_path(empty, s, sq);
        lemma_direction_back(d, s, sq);
        let q = step(d.opposite(), sq)->0;
        lemma_between_step(d, s, q, sq);
        lemma_slides_sources(d, sliders, empty, q);
        if q != s {
            assert(between(s, sq, q));
            assert forall|x: int| between(s, q, x) implies bit(empty, x) by {
                assert(between(s, sq, x));
            }
            assert(bit(sliders, s) && in_direction(d, s, q) && clear_path(empty, s, q));
        }
    }
}

/// What a slider on the single square `s` sees: the squares in its
/// direction that nothing but empty squares separates from `s`.
pub proof fn lemma_ray_clear(d: Direction, sliders: u64, empty: u64, s: int, sq: int)
    requires
        only(sliders, s),
    ensures
        ray_attacks(d, sliders, empty, sq) == (in_direction(d, s, sq) && clear_path(
            empty,
            s,
            sq,
        )),
{
    lemma_ray_sources(d, sliders, empty, sq);
    if slider_behind(d, sliders, empty, sq) {
        let from = choose|from: int|
            bit(sliders, from) && in_direction(d, from, sq) && clear_path(empty, from, sq);
        assert(from == s);
    }
    if in_direction(d, s, sq) && clear_path(empty, s, sq) {
        assert(bit(sliders, s) && in_direction(d, s, sq) && clear_path(empty, s, sq));
    }
}

/// A slider on the single square `s` sees only squares that lie in its
/// direction from `s`.
pub proof fn lemma_ray_from_one(d: Direction, sliders: u64, empty: u64, s: int, sq: int)
    requires
        only(sliders, s),
        ray_attacks(d, sliders, empty, sq),
    ensures
        in_direction(d, s, sq),
{
    lemma_ray_clear(d, sliders, empty, s, sq);
}

/// The direction in which `b` lies from `a`, for two squares on one line.
pub open spec fn direction_to(a: int, b: int) -> Direction {
    if in_direction(Direction::North, a, b) {
        Direction::North
    } else if in_direction(Direction::NorthEast, a, b) {
        Direction::NorthEast
    } else if in_direction(Direction::East, a, b) {
        Direction::East
    } else if in_direction(Direction::SouthEast, a, b) {
        Direction::SouthEast
    } else if in_direction(Direction::South, a, b) {
        Direction::South
    } else if in_direction(Direction::SouthWest, a, b) {
        Direction::SouthWest
    } else if in_direction(Direction::West, a, b) {
        Direction::West
    } else {
        Direction::NorthWest
    }
}

/// A square from which a rook or bishop would reach another lies in one
/// direction from it: a straight one for the rook, a diagonal one for the
/// bishop.
pub proof fn lemma_direction_to(a: int, b: int)
    requires
        rook_reach(a, b) || bishop_reach(a, b),
    ensures
        in_direction(direction_to(a, b), a, b),
        direction_to(a, b).straight() == rook_reach(a, b),
        !direction_to(a, b).straight() == bishop_reach(a, b),
{
    lemma_square_parts(a);
    lemma_square_parts(b);
}

/// A square in a direction from another is reached from it as a rook
/// reaches it if the direction is straight, and as a bishop if not.
pub proof fn lemma_direction_reach(d: Direction, a: int, b: int)
    requires
        in_direction(d, a, b),
    ensures
        d.straight() == rook_reach(a, b),
        !d.straight() == bishop_reach(a, b),
        rook_reach(a, b) == rook_reach(b, a),
        bishop_reach(a, b) == bishop_reach(b, a),
{
    lemma_square_parts(a);
    lemma_square_parts(b);
}

/// Two squares seen from a third that lies between them: what lies
/// between the two is the third, and what lies between it and either.
pub proof fn lemma_between_split(d: Direction, k: int, sq: int, x: int)
    requires
        in_direction(d, k, sq),
        in_direction(d, sq, x),
    ensures
        in_direction(d, k, x),
        between(k, x, sq),
        forall|y: int| between(k, x, y) == (between(k, sq, y) || y == sq || between(sq, x, y)),
{
    lemma_square_parts(k);
    lemma_square_parts(sq);
    lemma_square_parts(x);
    assert forall|y: int|
        between(k, x, y) == (between(k, sq, y) || y == sq || between(sq, x, y)) by {
        if on_board(y) {
            lemma_square_parts(y);
        }
    }
}

/// A square between two squares lies, from the first, in the direction of
/// the second, and the second lies in that direction from it.
pub proof fn lemma_between_directions(d: Direction, k: int, sq: int, x: int)
    requires
        in_direction(d, k, x),
        between(k, x, sq),
    ensures
        in_direction(d, k, sq),
        in_direction(d, sq, x),
{
    lemma_square_parts(k);
    lemma_square_parts(sq);
    lemma_square_parts(x);
}

/// Of two squares in one direction from a third, one lies between the
/// third and the other, unless they are one square.
pub proof fn lemma_same_direction(d: Direction, k: int, a: int, b: int)
    requires
        in_direction(d, k, a),
        in_direction(d, k, b),
    ensures
        a == b || between(k, a, b) || between(k, b, a),
{
    lemma_square_parts(k);
    lemma_square_parts(a);
    lemma_square_parts(b);
}

/// A square lies in at most one direction from another.
pub proof fn lemma_one_direction(d: Direction, e: Direction, a: int, b: int)
    requires
        in_direction(d, a, b),
        in_direction(e, a, b),
    ensures
        d == e,
{
    lemma_square_parts(a);
    lemma_square_parts(b);
}

} // verus!
