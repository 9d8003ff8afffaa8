//! Every move that follows the rules of movement and leaves the king of the
//! side that makes it out of check is among the legal moves.

use vstd::prelude::*;
use crate::bits::{
    bit, lemma_bit_consts, lemma_bit_ops, lemma_bit_single, lemma_zero_iff_empty, only,
};
use crate::board::{
    between, bishop_reach, in_direction, king_reach, knight_reach, lemma_square_parts, on_board,
    pawn_reach, rank_of, rook_reach, Color, Direction, PieceType,
};
use crate::game::{can_castle, castle_target, king_home, GameState};
use crate::laws::castle_move;
use crate::legal::holds_move;
use crate::masks::covers_check;
use crate::movegen::{forward, last_rank, pawn_rank, pin_line, Move};
use crate::rays::{
    clear_path, direction_to, lemma_between_directions, lemma_between_split, lemma_direction_to,
    lemma_one_direction, lemma_ray_clear, lemma_same_direction,
};
use crate::rules::{lemma_between_symmetric, lemma_diagonal_meaning, lemma_straight_meaning};
use crate::sliding_pieces::ray_attacks;

verus! {

impl GameState {
    /// Whether the piece of type `kind` on `from` moves to `to` as its type
    /// moves, the safety of its king aside: onto a square that holds no
    /// piece of its colour and no king; a king to a neighbouring square, a
    /// knight a leap away, a rook, bishop or queen along its lines over
    /// empty squares, a pawn one step ahead onto an empty square, two from
    /// its starting rank over empty squares, diagonally ahead onto an enemy
    /// piece, or diagonally ahead en passant. Castles are not among these.
    pub open spec fn moves_as(&self, kind: PieceType, color: Color, from: int, to: int) -> bool {
        let empty = self.pieces.empty_squares();
        let one = from + forward(color);
        self.open_to(color, to) && match kind {
            PieceType::King => king_reach(from, to),
            PieceType::Queen => (rook_reach(from, to) || bishop_reach(from, to)) && clear_path(
                empty,
                from,
                to,
            ),
            PieceType::Rook => rook_reach(from, to) && clear_path(empty, from, to),
            PieceType::Bishop => bishop_reach(from, to) && clear_path(empty, from, to),
            PieceType::Knight => knight_reach(from, to),
            PieceType::Pawn => {
                ||| to == one && self.pieces.at(to) is None
                ||| to == one + forward(color) && rank_of(from) == pawn_rank(color)
                    && self.pieces.at(one) is None && self.pieces.at(to) is None
                ||| pawn_reach(color, from, to) && bit(self.pieces.occupied(color.other()), to)
                ||| self.passing(color, from, to)
            },
        }
    }

    /// Whether a move names a piece of colour `color` that moves as its type
    /// moves, and promotes exactly when a pawn reaches its last rank.
    pub open spec fn follows_rules(&self, kind: PieceType, color: Color, m: Move) -> bool {
        &&& m.piece_color == color
        &&& m.from < 64
        &&& m.to < 64
        &&& self.pieces.at(m.from as int) == Some((color, kind))
        &&& self.moves_as(kind, color, m.from as int, m.to as int)
        &&& (m.promoted_piece is Some) == (kind == PieceType::Pawn && rank_of(m.to as int)
            == last_rank(color))
    }

    /// A move that follows the rules can be played, and is no castle.
    pub proof fn lemma_rules_playable(&self, kind: PieceType, color: Color, m: Move)
        requires
            self.wf(),
            self.follows_rules(kind, color, m),
        ensures
            self.playable(m),
            self.mover(m) == kind,
            !self.castles(m, true),
            !self.castles(m, false),
            self.takes_en_passant(m) == (kind == PieceType::Pawn && self.passing(
                color,
                m.from as int,
                m.to as int,
            )),
            bit(self.pieces.board(color, kind), m.from as int),
            bit(self.pieces.occupied(color), m.from as int),
    {
        let from = m.from as int;
        let to = m.to as int;
        lemma_square_parts(from);
        lemma_square_parts(to);
        assert(bit(self.pieces.board(color, kind), from) == (self.pieces.at(from) == Some(
            (color, kind),
        )));
        assert(bit(self.pieces.occupied(color), from) == (self.pieces.at(from) matches Some(p)
            && p.0 == color));
        assert(bit(self.pieces.occupied(color), to) == (self.pieces.at(to) matches Some(p) && p.0
            == color));
        assert(bit(self.pieces.occupied(color.other()), to) == (self.pieces.at(to) matches Some(p)
            && p.0 == color.other()));
    }

    /// A piece that attacks the king keeps attacking it after a move of
    /// another piece than the king, unless the move takes it or steps in
    /// its way.
    proof fn lemma_attack_stays(&self, kind: PieceType, m: Move, next: GameState, x: int)
        requires
            self.wf(),
            kind != PieceType::King,
            self.follows_rules(kind, m.piece_color, m),
            self.leads_to(m, next),
            self.pieces.attacker(
                m.piece_color.other(),
                self.pieces.empty_squares(),
                x,
                self.pieces.king_square(m.piece_color),
            ),
            m.to != x,
            !(self.takes_en_passant(m) && x == m.to - forward(m.piece_color)),
            !between(self.pieces.king_square(m.piece_color), x, m.to as int),
        ensures
            next.pieces.attacker(
                m.piece_color.other(),
                next.pieces.empty_squares(),
                x,
                next.pieces.king_square(m.piece_color),
            ),
    {
        let color = m.piece_color;
        let k = self.pieces.king_square(color);
        let empty = self.pieces.empty_squares();
        let after = next.pieces.empty_squares();
        self.lemma_rules_playable(kind, color, m);
        self.lemma_board_after(m, next);
        self.pieces.lemma_occupied();
        lemma_between_symmetric(k, x);
        assert(next.pieces.at(x) == self.piece_after(m, x));
        if clear_path(empty, x, k) {
            assert forall|y: int| between(x, k, y) implies bit(after, y) by {
                assert(bit(empty, y));
                assert(next.pieces.at(y) == self.piece_after(m, y));
            }
        }
        self.pieces.lemma_attack_carries(empty, next.pieces, after, x, k);
    }

    /// Where no piece attacks the king after a move of another piece than
    /// the king, the move has taken every piece that gave check, or stepped
    /// in its way.
    proof fn lemma_check_met(&self, kind: PieceType, m: Move, next: GameState, x: int)
        requires
            self.wf(),
            kind != PieceType::King,
            self.follows_rules(kind, m.piece_color, m),
            self.leads_to(m, next),
            next.masks.checkers(m.piece_color) == 0,
            bit(self.masks.checkers(m.piece_color), x),
        ensures
            self.pieces.attacker(
                m.piece_color.other(),
                self.pieces.empty_squares(),
                x,
                self.pieces.king_square(m.piece_color),
            ),
            m.to == x || (self.takes_en_passant(m) && x == m.to - forward(m.piece_color))
                || between(self.pieces.king_square(m.piece_color), x, m.to as int),
    {
        let color = m.piece_color;
        self.lemma_masks_meaning(color, x);
        next.lemma_masks_meaning(color, x);
        lemma_bit_consts();
        if !(m.to == x || (self.takes_en_passant(m) && x == m.to - forward(color)) || between(
            self.pieces.king_square(color),
            x,
            m.to as int,
        )) {
            self.lemma_attack_stays(kind, m, next, x);
        }
    }

    /// A piece that gives check over a distance is a slider with a clear
    /// path to the king, in one direction from it.
    proof fn lemma_distant_check(&self, color: Color, x: int, y: int)
        requires
            self.wf(),
            self.pieces.attacker(
                color.other(),
                self.pieces.empty_squares(),
                x,
                self.pieces.king_square(color),
            ),
            between(self.pieces.king_square(color), x, y),
        ensures
            clear_path(self.pieces.empty_squares(), self.pieces.king_square(color), x),
            in_direction(
                direction_to(self.pieces.king_square(color), x),
                self.pieces.king_square(color),
                x,
            ),
            in_direction(
                direction_to(self.pieces.king_square(color), x),
                self.pieces.king_square(color),
                y,
            ),
            self.pieces.at(y) is None,
            (bit(self.pieces.straight_sliders(color.other()), x) && rook_reach(
                x,
                self.pieces.king_square(color),
            )) || (bit(self.pieces.diagonal_sliders(color.other()), x) && bishop_reach(
                x,
                self.pieces.king_square(color),
            )),
    {
        let k = self.pieces.king_square(color);
        let empty = self.pieces.empty_squares();
        lemma_between_symmetric(k, x);
        Self::lemma_distant_attacker(self.pieces, color.other(), empty, x, k, y);
        lemma_direction_to(k, x);
        lemma_between_directions(direction_to(k, x), k, y, x);
        self.pieces.lemma_occupied();
        assert(clear_path(empty, x, k) == clear_path(empty, k, x));
        assert(bit(empty, y));
    }

    /// A move that takes one piece that gives check does not step in the way
    /// of another.
    proof fn lemma_taken_not_between(&self, color: Color, a: int, b: int)
        requires
            self.wf(),
            self.pieces.attacker(
                color.other(),
                self.pieces.empty_squares(),
                a,
                self.pieces.king_square(color),
            ),
            self.pieces.attacker(
                color.other(),
                self.pieces.empty_squares(),
                b,
                self.pieces.king_square(color),
            ),
        ensures
            !between(self.pieces.king_square(color), b, a),
    {
        if between(self.pieces.king_square(color), b, a) {
            self.lemma_distant_check(color, b, a);
        }
    }

    /// No square lies between the king and each of two pieces that give
    /// check.
    proof fn lemma_not_between_two(&self, color: Color, a: int, b: int, to: int)
        requires
            self.wf(),
            a != b,
            self.pieces.attacker(
                color.other(),
                self.pieces.empty_squares(),
                a,
                self.pieces.king_square(color),
            ),
            self.pieces.attacker(
                color.other(),
                self.pieces.empty_squares(),
                b,
                self.pieces.king_square(color),
            ),
        ensures
            !(between(self.pieces.king_square(color), a, to) && between(
                self.pieces.king_square(color),
                b,
                to,
            )),
    {
        let k = self.pieces.king_square(color);
        if between(k, a, to) && between(k, b, to) {
            self.lemma_distant_check(color, a, to);
            self.lemma_distant_check(color, b, to);
            lemma_one_direction(direction_to(k, a), direction_to(k, b), k, to);
            lemma_same_direction(direction_to(k, a), k, a, b);
            self.lemma_taken_not_between(color, a, b);
            self.lemma_taken_not_between(color, b, a);
        }
    }

    /// The square on which a pawn lands that takes en passant a pawn that
    /// gives check lies on no line with the king.
    proof fn lemma_passing_off_line(&self, color: Color, from: int, to: int, b: int)
        requires
            self.wf(),
            self.passing(color, from, to),
            self.pieces.attacker(
                color.other(),
                self.pieces.empty_squares(),
                to - forward(color),
                self.pieces.king_square(color),
            ),
        ensures
            !between(self.pieces.king_square(color), b, to),
    {
        let k = self.pieces.king_square(color);
        self.pieces.lemma_king(color);
        lemma_square_parts(k);
        lemma_square_parts(to);
        lemma_square_parts(to - forward(color));
        if on_board(b) {
            lemma_square_parts(b);
        }
    }

    /// Where no piece attacks the king after a move of another piece than
    /// the king, at most one piece gave check before it: no move takes or
    /// hinders two.
    proof fn lemma_safe_not_double(&self, kind: PieceType, m: Move, next: GameState)
        requires
            self.wf(),
            kind != PieceType::King,
            self.follows_rules(kind, m.piece_color, m),
            self.leads_to(m, next),
            next.masks.checkers(m.piece_color) == 0,
        ensures
            !self.double_check(m.piece_color),
    {
        let color = m.piece_color;
        let enemy = color.other();
        let k = self.pieces.king_square(color);
        let to = m.to as int;
        let checkers = self.masks.checkers(color);
        if self.double_check(color) {
            let (a, b) = choose|a: int, b: int| a != b && bit(checkers, a) && bit(checkers, b);
            self.lemma_check_met(kind, m, next, a);
            self.lemma_check_met(kind, m, next, b);
            self.lemma_rules_playable(kind, color, m);
            self.lemma_taken_not_between(color, a, b);
            self.lemma_taken_not_between(color, b, a);
            self.lemma_not_between_two(color, a, b, to);
            if self.takes_en_passant(m) {
                assert(self.pieces.at(to) is None);
                if a == to - forward(color) {
                    self.lemma_passing_off_line(color, m.from as int, to, b);
                }
                if b == to - forward(color) {
                    self.lemma_passing_off_line(color, m.from as int, to, a);
                }
            }
        }
    }

    /// Where no piece attacks the king after a move of another piece than
    /// the king, the move has answered every check: its target is in the
    /// check mask, or it takes en passant the pawn that gave check.
    proof fn lemma_safe_answers(&self, kind: PieceType, m: Move, next: GameState)
        requires
            self.wf(),
            kind != PieceType::King,
            self.follows_rules(kind, m.piece_color, m),
            self.leads_to(m, next),
            next.masks.checkers(m.piece_color) == 0,
        ensures
            bit(self.masks.checkmask(m.piece_color), m.to as int) || (kind == PieceType::Pawn
                && self.en_passant_answers(m.piece_color, m.to as int)),
    {
        let color = m.piece_color;
        let k = self.pieces.king_square(color);
        let to = m.to as int;
        let victim = to - forward(color);
        let checkers = self.masks.checkers(color);
        self.lemma_rules_playable(kind, color, m);
        assert(self.masks.describes_side(self.pieces, color));
        lemma_zero_iff_empty(checkers);
        if checkers != 0 {
            let x = choose|x: int| 0 <= x < 64 && bit(checkers, x);
            self.lemma_check_met(kind, m, next, x);
            if to == x || between(k, x, to) {
                assert(bit(checkers, x) && (to == x || between(k, x, to)));
                assert(covers_check(checkers, k, to));
            } else {
                self.lemma_safe_not_double(kind, m, next);
                assert forall|j: int| bit(checkers, j) == (j == victim) by {
                    if bit(checkers, j) && j != victim {
                        assert(j != x && bit(checkers, j) && bit(checkers, x));
                    }
                }
                assert(only(checkers, victim));
            }
        }
    }

    /// A slider that a piece held off the king attacks the king once the
    /// piece has left the line between them, unless the piece has taken the
    /// slider.
    proof fn lemma_pinner_attacks(&self, kind: PieceType, m: Move, next: GameState, x: int)
        requires
            self.wf(),
            kind != PieceType::King,
            self.follows_rules(kind, m.piece_color, m),
            self.leads_to(m, next),
            self.pieces.pins(m.piece_color, x, m.from as int),
            m.to != x,
            !between(self.pieces.king_square(m.piece_color), x, m.to as int),
        ensures
            next.pieces.attacker(
                m.piece_color.other(),
                next.pieces.empty_squares(),
                x,
                next.pieces.king_square(m.piece_color),
            ),
    {
        let color = m.piece_color;
        let enemy = color.other();
        let k = self.pieces.king_square(color);
        let from = m.from as int;
        let after = next.pieces.empty_squares();
        self.lemma_rules_playable(kind, color, m);
        self.lemma_board_after(m, next);
        self.pieces.lemma_sliders(enemy);
        next.pieces.lemma_sliders(enemy);
        lemma_between_symmetric(k, x);
        assert(next.pieces.at(x) == self.piece_after(m, x));
        assert(next.pieces.at(from) == self.piece_after(m, from));
        assert forall|y: int| between(x, k, y) implies bit(after, y) by {
            assert(between(k, x, y));
            assert(next.pieces.at(y) == self.piece_after(m, y));
        }
    }

    /// A knight's leap from a square between two squares leads to neither
    /// of the two, and to no square between them.
    proof fn lemma_knight_leaves_line(k: int, x: int, from: int, to: int)
        requires
            between(k, x, from),
            knight_reach(from, to),
        ensures
            to != x,
            to != k,
            !between(k, x, to),
    {
        lemma_square_parts(k);
        lemma_square_parts(x);
        lemma_square_parts(from);
        lemma_square_parts(to);
    }

    /// No piece that gives check stands on the line of a pin, on the far
    /// side of a square between the king and the slider that pins, or on
    /// such a square.
    proof fn lemma_pin_line_clear_of_check(&self, color: Color, x: int, from: int, to: int, j: int)
        requires
            self.wf(),
            self.pieces.pins(color, x, from),
            bit(self.pieces.occupied(color), from),
            to == x || between(self.pieces.king_square(color), x, to),
            to != from,
            self.pieces.attacker(
                color.other(),
                self.pieces.empty_squares(),
                j,
                self.pieces.king_square(color),
            ),
        ensures
            to != j,
            !between(self.pieces.king_square(color), j, to),
    {
        let k = self.pieces.king_square(color);
        let empty = self.pieces.empty_squares();
        self.pieces.lemma_occupied();
        assert(bit(self.pieces.occupied(color), from) == (self.pieces.at(from) matches Some(p)
            && p.0 == color));
        assert(rook_reach(k, x) || bishop_reach(k, x)) by {
            lemma_square_parts(k);
            lemma_square_parts(x);
        }
        let d = direction_to(k, x);
        lemma_direction_to(k, x);
        lemma_between_symmetric(k, x);
        // The slider that pins gives no check itself: the pinned piece is in its way.
        if j == x {
            Self::lemma_distant_attacker(self.pieces, color.other(), empty, x, k, from);
            assert(bit(empty, from));
        }
        if to != x {
            lemma_between_directions(d, k, to, x);
        }
        self.pieces.lemma_sliders(color.other());
        assert(self.pieces.at(x) is Some);
        if between(k, j, to) {
            self.lemma_distant_check(color, j, to);
            if to == x {
                assert(self.pieces.at(x) is None);
            } else {
                lemma_one_direction(direction_to(k, j), d, k, to);
                lemma_same_direction(d, k, j, x);
                if between(k, j, x) {
                    self.lemma_distant_check(color, j, x);
                } else if between(k, x, j) {
                    assert(j != from);
                    assert(self.pieces.at(j) is None);
                }
            }
        }
    }

    /// No square of the line of a pin between the king and the slider that
    /// pins, nor the square of the slider, answers a check.
    pub proof fn lemma_pin_line_no_answer(&self, color: Color, x: int, from: int, to: int)
        requires
            self.wf(),
            self.pieces.pins(color, x, from),
            bit(self.pieces.occupied(color), from),
            to == x || between(self.pieces.king_square(color), x, to),
            to != from,
        ensures
            !covers_check(self.masks.checkers(color), self.pieces.king_square(color), to),
    {
        let k = self.pieces.king_square(color);
        let checkers = self.masks.checkers(color);
        if covers_check(checkers, k, to) {
            let j = choose|j: int| bit(checkers, j) && (to == j || between(k, j, to));
            self.lemma_masks_meaning(color, j);
            self.lemma_pin_line_clear_of_check(color, x, from, to, j);
        }
    }

    /// The squares between the king and the slider that pins a piece, and
    /// the square of the slider, are in the pin mask of the line that holds
    /// the piece.
    proof fn lemma_pin_line_in_mask(&self, color: Color, x: int, from: int, to: int)
        requires
            self.wf(),
            self.pieces.pins(color, x, from),
            bit(self.pieces.occupied(color), from),
            to == x || between(self.pieces.king_square(color), x, to),
            to != from,
        ensures
            bit(
                self.masks.pinmask(color).along(pin_line(self.pieces.king_square(color), from)),
                to,
            ),
    {
        self.lemma_pin_line_no_answer(color, x, from, to);
        let k = self.pieces.king_square(color);
        let king = self.pieces.board(color, PieceType::King);
        let empty = self.pieces.empty_squares();
        let pinned = self.masks.pinned(color);
        let through = empty | pinned;
        let line = pin_line(k, from);
        self.pieces.lemma_king(color);
        self.pieces.lemma_occupied();
        self.pieces.lemma_pin_meaning(color, from);
        lemma_bit_ops(empty, pinned);
        lemma_bit_consts();
        assert(self.masks.describes_side(self.pieces, color));
        assert(bit(pinned, from));
        self.lemma_pinned_line(color, from);
        let d0 = choose|d: Direction|
            self.pieces.shields(color, d, from) && d.line() == line && in_direction(d, k, from);
        let d = direction_to(k, x);
        assert(rook_reach(k, x) || bishop_reach(k, x)) by {
            lemma_square_parts(k);
            lemma_square_parts(x);
        }
        lemma_direction_to(k, x);
        lemma_between_directions(d, k, from, x);
        lemma_one_direction(d0, d, k, from);
        if to != x {
            lemma_between_directions(d, k, to, x);
            lemma_between_split(d, k, to, x);
        }
        assert forall|y: int| between(k, to, y) implies bit(through, y) by {
            assert(between(k, x, y));
            if y != from {
                assert(self.pieces.at(y) is None);
                assert(bit(empty, y));
            }
        }
        lemma_ray_clear(d, king, through, k, to);
        assert(ray_attacks(d, king, through, to));
        assert(self.pieces.on_pin_line(color, line, pinned, to));
    }

    /// Where no piece attacks the king after a move of another piece than
    /// the king, the piece was not pinned, or has stayed within its pin.
    proof fn lemma_safe_pin(&self, kind: PieceType, m: Move, next: GameState)
        requires
            self.wf(),
            kind != PieceType::King,
            self.follows_rules(kind, m.piece_color, m),
            self.leads_to(m, next),
            next.masks.checkers(m.piece_color) == 0,
        ensures
            self.pin_allows(kind, m.piece_color, m.from as int, m.to as int),
    {
        let color = m.piece_color;
        let k = self.pieces.king_square(color);
        let from = m.from as int;
        let to = m.to as int;
        self.lemma_rules_playable(kind, color, m);
        assert(self.masks.describes_side(self.pieces, color));
        lemma_bit_consts();
        if bit(self.masks.pinned(color), from) {
            self.pieces.lemma_pin_meaning(color, from);
            let x = choose|x: int| self.pieces.pins(color, x, from);
            if to != x && !between(k, x, to) {
                self.lemma_pinner_attacks(kind, m, next, x);
                next.lemma_masks_meaning(color, x);
            }
            if kind == PieceType::Knight {
                Self::lemma_knight_leaves_line(k, x, from, to);
            } else {
                self.lemma_pin_line_in_mask(color, x, from, to);
            }
        }
    }

    /// Where no piece attacks the king after a capture en passant, the
    /// capture has exposed the king to no slider on the rank.
    proof fn lemma_safe_passing(&self, m: Move, next: GameState)
        requires
            self.wf(),
            self.follows_rules(PieceType::Pawn, m.piece_color, m),
            self.passing(m.piece_color, m.from as int, m.to as int),
            self.leads_to(m, next),
            next.masks.checkers(m.piece_color) == 0,
        ensures
            !self.en_passant_exposes(m.piece_color, m.from as int, m.to as int),
    {
        let color = m.piece_color;
        let enemy = color.other();
        let k = self.pieces.king_square(color);
        let from = m.from as int;
        let to = m.to as int;
        let victim = to - forward(color);
        let king = self.pieces.board(color, PieceType::King);
        let one = 1u64 << (from as u64);
        let other = 1u64 << (victim as u64);
        let through = self.empty | one | other;
        let after = next.pieces.empty_squares();
        if self.en_passant_exposes(color, from, to) {
            let x = choose|x: int|
                bit(self.pieces.straight_sliders(enemy), x) && rank_of(x) == rank_of(from) && (
                ray_attacks(Direction::East, king, through, x) || ray_attacks(
                    Direction::West,
                    king,
                    through,
                    x,
                ));
            let d = if ray_attacks(Direction::East, king, through, x) {
                Direction::East
            } else {
                Direction::West
            };
            self.lemma_rules_playable(PieceType::Pawn, color, m);
            self.lemma_board_after(m, next);
            self.pieces.lemma_king(color);
            self.pieces.lemma_occupied();
            self.pieces.lemma_sliders(enemy);
            next.pieces.lemma_sliders(enemy);
            lemma_ray_clear(d, king, through, k, x);
            lemma_between_symmetric(k, x);
            lemma_square_parts(k);
            lemma_square_parts(x);
            lemma_square_parts(from);
            lemma_square_parts(to);
            lemma_square_parts(victim);
            lemma_bit_single(from as u64);
            lemma_bit_single(victim as u64);
            lemma_bit_ops(self.empty, one);
            lemma_bit_ops(self.empty | one, other);
            assert(next.pieces.at(x) == self.piece_after(m, x));
            assert(next.pieces.at(from) == self.piece_after(m, from));
            assert(next.pieces.at(victim) == self.piece_after(m, victim));
            assert forall|y: int| between(x, k, y) implies bit(after, y) by {
                assert(between(k, x, y));
                assert(bit(through, y));
                lemma_square_parts(y);
                assert(next.pieces.at(y) == self.piece_after(m, y));
            }
            assert(next.pieces.attacker(enemy, after, x, k));
            next.lemma_masks_meaning(color, x);
            lemma_bit_consts();
        }
    }

    /// A move of another piece than the king that follows the rules and
    /// leaves the king out of check is one that the generator yields.
    proof fn lemma_safe_other_generated(&self, kind: PieceType, m: Move, next: GameState)
        requires
            self.wf(),
            kind != PieceType::King,
            self.follows_rules(kind, m.piece_color, m),
            self.leads_to(m, next),
            next.masks.checkers(m.piece_color) == 0,
        ensures
            self.generated(kind, m.piece_color, m),
            !self.double_check(m.piece_color),
    {
        let color = m.piece_color;
        let from = m.from as int;
        let to = m.to as int;
        let empty = self.pieces.empty_squares();
        let one = 1u64 << (from as u64);
        self.lemma_rules_playable(kind, color, m);
        self.lemma_safe_not_double(kind, m, next);
        self.lemma_safe_answers(kind, m, next);
        self.lemma_safe_pin(kind, m, next);
        lemma_bit_single(from as u64);
        lemma_straight_meaning(one, empty, to);
        lemma_diagonal_meaning(one, empty, to);
        match kind {
            PieceType::Queen => {
                if rook_reach(from, to) {
                    assert(bit(one, from) && rook_reach(from, to) && clear_path(empty, from, to));
                } else {
                    assert(bit(one, from) && bishop_reach(from, to) && clear_path(
                        empty,
                        from,
                        to,
                    ));
                }
            },
            PieceType::Rook => {
                assert(bit(one, from) && rook_reach(from, to) && clear_path(empty, from, to));
            },
            PieceType::Bishop => {
                assert(bit(one, from) && bishop_reach(from, to) && clear_path(empty, from, to));
            },
            PieceType::Pawn => {
                if self.passing(color, from, to) {
                    self.lemma_safe_passing(m, next);
                }
                lemma_square_parts(from);
                lemma_square_parts(to);
            },
            _ => {},
        }
        assert(self.free_target(kind, color, from, to));
    }

    /// A step of the king that follows the rules and leaves it out of check
    /// is one that the generator yields.
    proof fn lemma_safe_king_generated(&self, m: Move, next: GameState)
        requires
            self.wf(),
            self.follows_rules(PieceType::King, m.piece_color, m),
            self.leads_to(m, next),
            next.masks.checkers(m.piece_color) == 0,
        ensures
            self.generated(PieceType::King, m.piece_color, m),
    {
        let color = m.piece_color;
        let enemy = color.other();
        let k = self.pieces.king_square(color);
        let to = m.to as int;
        let king = self.pieces.board(color, PieceType::King);
        let empty = self.pieces.empty_squares();
        let lifted = empty | king;
        let after = next.pieces.empty_squares();
        self.lemma_rules_playable(PieceType::King, color, m);
        self.lemma_board_after(m, next);
        self.pieces.lemma_king(color);
        self.pieces.lemma_occupied();
        self.lemma_masks_meaning(color, to);
        lemma_bit_ops(empty, king);
        lemma_bit_consts();
        assert(m.from as int == k);
        if bit(self.masks.king_danger(color), to) {
            let x = choose|x: int| self.pieces.attacker(enemy, lifted, x, to);
            lemma_square_parts(x);
            lemma_square_parts(to);
            assert(next.pieces.at(x) == self.piece_after(m, x));
            if clear_path(lifted, x, to) {
                assert forall|y: int| between(x, to, y) implies bit(after, y) by {
                    assert(bit(lifted, y));
                    assert(next.pieces.at(y) == self.piece_after(m, y));
                }
            }
            self.pieces.lemma_attack_carries(lifted, next.pieces, after, x, to);
            assert(next.pieces.attacker(enemy, after, x, to));
            next.lemma_masks_meaning(color, x);
        }
    }

    /// Every move that follows the rules of movement and leaves the king of
    /// the colour that makes it out of check is among the legal moves of
    /// that colour.
    pub proof fn lemma_safe_move_generated(
        &self,
        kind: PieceType,
        color: Color,
        m: Move,
        next: GameState,
    )
        requires
            self.wf(),
            self.follows_rules(kind, color, m),
            self.leads_to(m, next),
            next.masks.checkers(color) == 0,
        ensures
            holds_move(self.legal_moves(color), m),
    {
        self.lemma_rules_playable(kind, color, m);
        self.lemma_legal_holds(color, m);
        if kind == PieceType::King {
            self.lemma_safe_king_generated(m, next);
        } else {
            self.lemma_safe_other_generated(kind, m, next);
        }
    }

    /// Every move that the generator yields follows the rules of movement,
    /// unless it is a castle.
    pub proof fn lemma_generated_follows(&self, kind: PieceType, color: Color, m: Move)
        requires
            self.wf(),
            self.generated(kind, color, m),
            kind == PieceType::King ==> king_reach(
                self.pieces.king_square(color),
                m.to as int,
            ),
        ensures
            self.follows_rules(kind, color, m),
    {
        let from = m.from as int;
        let to = m.to as int;
        let empty = self.pieces.empty_squares();
        let one = 1u64 << (from as u64);
        self.lemma_generated_playable(kind, color, m);
        self.pieces.lemma_king(color);
        assert(bit(self.pieces.board(color, kind), from) == (self.pieces.at(from) == Some(
            (color, kind),
        )));
        lemma_bit_single(from as u64);
        lemma_straight_meaning(one, empty, to);
        lemma_diagonal_meaning(one, empty, to);
        if crate::rules::straight_slider_at(one, empty, to) {
            let s = choose|s: int| bit(one, s) && rook_reach(s, to) && clear_path(empty, s, to);
            assert(s == from);
        }
        if crate::rules::diagonal_slider_at(one, empty, to) {
            let s = choose|s: int| bit(one, s) && bishop_reach(s, to) && clear_path(empty, s, to);
            assert(s == from);
        }
        lemma_square_parts(from);
        lemma_square_parts(to);
    }

    /// The legal moves are exactly these: the moves that follow the rules
    /// of movement and leave the king of the colour that makes them out of
    /// check, and the castles whose conditions hold. This is stated of a
    /// move and the state that it leads to. The one exception is a capture
    /// en passant of a pawn that alone held off an enemy slider on a
    /// diagonal, which no game reaches.
    pub proof fn lemma_legal_moves_exact(&self, color: Color, m: Move, next: GameState)
        requires
            self.wf(),
            self.leads_to(m, next),
            !self.en_passant_uncovers(m),
        ensures
            holds_move(self.legal_moves(color), m) == (((exists|kind: PieceType|
                self.follows_rules(kind, color, m)) && next.masks.checkers(color) == 0) || (
            self.pieces.king_square(color) == king_home(color) && exists|kingside: bool|
                m == castle_move(color, kingside) && can_castle(
                    self.pieces,
                    color,
                    kingside,
                    self.castle_right(color, kingside),
                ))),
    {
        let k = self.pieces.king_square(color);
        self.lemma_legal_holds(color, m);
        if holds_move(self.legal_moves(color), m) {
            let kind = if self.generated(PieceType::King, color, m) {
                PieceType::King
            } else if self.generated(PieceType::Queen, color, m) {
                PieceType::Queen
            } else if self.generated(PieceType::Rook, color, m) {
                PieceType::Rook
            } else if self.generated(PieceType::Bishop, color, m) {
                PieceType::Bishop
            } else if self.generated(PieceType::Knight, color, m) {
                PieceType::Knight
            } else {
                PieceType::Pawn
            };
            assert(self.generated(kind, color, m));
            self.lemma_generated_playable(kind, color, m);
            self.pieces.lemma_king(color);
            if kind == PieceType::King && !king_reach(k, m.to as int) {
                let kingside = m.to == castle_target(color, true);
                assert(self.king_target(color, m.to as int));
                assert(self.castle_open(color, kingside));
                assert(can_castle(
                    self.pieces,
                    color,
                    kingside,
                    self.castle_right(color, kingside),
                ));
                assert(m == castle_move(color, kingside));
            } else {
                self.lemma_generated_follows(kind, color, m);
                self.lemma_king_safe_after(color, m, next);
            }
        }
        if (exists|kind: PieceType| self.follows_rules(kind, color, m)) && next.masks.checkers(
            color,
        ) == 0 {
            let kind = choose|kind: PieceType| self.follows_rules(kind, color, m);
            self.lemma_safe_move_generated(kind, color, m, next);
        }
        if k == king_home(color) && exists|kingside: bool|
            m == castle_move(color, kingside) && can_castle(
                self.pieces,
                color,
                kingside,
                self.castle_right(color, kingside),
            ) {
            let kingside = choose|kingside: bool|
                m == castle_move(color, kingside) && can_castle(
                    self.pieces,
                    color,
                    kingside,
                    self.castle_right(color, kingside),
                );
            self.lemma_castle_gating(color, kingside);
        }
    }
}

} // verus!
