//! What holds of every list of legal moves: castles are gated by their own
//! conditions, a single check is answered by every move that is not the
//! king's, in double check only the king moves, and a pinned piece stays on
//! the line that holds it.

use vstd::prelude::*;
use crate::bits::{bit, lemma_bit_consts, lemma_bit_ops, lemma_bit_single, lemma_only, only};
use crate::board::{
    between, in_direction, lemma_square_parts, on_board, rank_of, same_line, Color, Direction,
    LineType, PieceType,
};
use crate::game::{can_castle, castle_target, king_home, GameState};
use crate::legal::holds_move;
use crate::masks::covers_check;
use crate::movegen::{forward, last_rank, pin_line, plain_move, Move};
use crate::rays::{
    clear_path, lemma_along_pin, lemma_direction_aligned, lemma_ray_clear, lemma_ray_from_one,
};
use crate::sliding_pieces::ray_attacks;

verus! {

/// The move by which the king of a colour castles to one side.
pub open spec fn castle_move(color: Color, kingside: bool) -> Move {
    plain_move(king_home(color), castle_target(color, kingside), color)
}

impl GameState {
    /// A castle is among the moves of the king exactly when its own four
    /// conditions hold: the right is held, king and rook stand on their home
    /// squares, the squares between them are empty, and the squares the king
    /// passes and lands on are not attacked. The conditions of the other
    /// three castles do not matter to it. Whenever the king may castle, the
    /// castle is a legal move; and while the king stands on its home square
    /// and may not castle, no legal move looks like the castle.
    pub proof fn lemma_castle_gating(&self, color: Color, kingside: bool)
        requires
            self.wf(),
        ensures
            holds_move(self.moves_of(PieceType::King, color, 64), castle_move(color, kingside))
                == can_castle(
                self.pieces,
                color,
                kingside,
                self.castle_right(color, kingside),
            ),
            can_castle(self.pieces, color, kingside, self.castle_right(color, kingside))
                ==> holds_move(self.legal_moves(color), castle_move(color, kingside)),
            self.pieces.king_square(color) == king_home(color) && !can_castle(
                self.pieces,
                color,
                kingside,
                self.castle_right(color, kingside),
            ) ==> !holds_move(self.legal_moves(color), castle_move(color, kingside)),
    {
        let m = castle_move(color, kingside);
        let home = king_home(color);
        let to = castle_target(color, kingside);
        self.lemma_moves_of_holds(PieceType::King, color, 64, m);
        self.lemma_legal_holds(color, m);
        self.pieces.lemma_king(color);
        lemma_square_parts(home);
        lemma_square_parts(to);
        assert(self.castle_open(color, kingside) == can_castle(
            self.pieces,
            color,
            kingside,
            self.castle_right(color, kingside),
        ));
        assert(self.castle_open(color, !kingside) == can_castle(
            self.pieces,
            color,
            !kingside,
            self.castle_right(color, !kingside),
        ));
        if self.pieces.king_square(color) == home {
            assert forall|kind: PieceType| kind != PieceType::King implies !self.generated(
                kind,
                color,
                m,
            ) by {
                assert(bit(self.pieces.board(color, kind), home) == (self.pieces.at(home)
                    == Some((color, kind))));
            }
        }
    }

    /// In double check only the king moves.
    pub proof fn lemma_double_check(&self, color: Color, m: Move)
        requires
            self.wf(),
            self.double_check(color),
            holds_move(self.legal_moves(color), m),
        ensures
            self.legal_moves(color) == self.moves_of(PieceType::King, color, 64),
            self.mover(m) == PieceType::King,
            m.from == self.pieces.king_square(color),
    {
        self.lemma_legal_holds(color, m);
        self.lemma_generated_playable(PieceType::King, color, m);
        self.pieces.lemma_king(color);
    }

    /// While exactly one piece gives check, every legal move that is not
    /// the king's captures the checker, on its square or en passant, or
    /// lands between the checker and the king.
    pub proof fn lemma_single_check(&self, color: Color, checker: int, m: Move)
        requires
            self.wf(),
            only(self.masks.checkers(color), checker),
            holds_move(self.legal_moves(color), m),
            self.mover(m) != PieceType::King,
        ensures
            m.to == checker || between(self.pieces.king_square(color), checker, m.to as int) || (
            self.takes_en_passant(m) && m.to - forward(color) == checker),
    {
        let k = self.pieces.king_square(color);
        let checkers = self.masks.checkers(color);
        let to = m.to as int;
        self.lemma_legal_holds(color, m);
        lemma_only(checkers, checker);
        assert(self.masks.describes_side(self.pieces, color));
        assert(bit(self.masks.checkmask(color), to) == (on_board(to) && !bit(
            self.pieces.occupied(color),
            to,
        ) && (checkers != 0 ==> covers_check(checkers, k, to))));
        if self.generated(PieceType::King, color, m) {
            self.lemma_generated_playable(PieceType::King, color, m);
        } else if self.generated(PieceType::Queen, color, m) {
            self.lemma_generated_playable(PieceType::Queen, color, m);
        } else if self.generated(PieceType::Rook, color, m) {
            self.lemma_generated_playable(PieceType::Rook, color, m);
        } else if self.generated(PieceType::Bishop, color, m) {
            self.lemma_generated_playable(PieceType::Bishop, color, m);
        } else if self.generated(PieceType::Knight, color, m) {
            self.lemma_generated_playable(PieceType::Knight, color, m);
        } else {
            self.lemma_generated_playable(PieceType::Pawn, color, m);
            if !bit(self.masks.checkmask(color), to) {
                assert(self.en_passant_answers(color, to));
                lemma_square_parts(to);
                lemma_square_parts(m.from as int);
                assert(bit(self.pieces.occupied(color.other()), to) == (self.pieces.at(to)
                    matches Some(x) && x.0 == color.other()));
                assert(self.pawn_step(color, m.from as int, to));
                assert(self.en_passant_open(color, m.from as int, to));
                assert(self.takes_en_passant(m));
                assert(bit(checkers, to - forward(color)));
            }
        }
        if bit(self.masks.checkmask(color), to) {
            assert(covers_check(checkers, k, to));
            let from = choose|from: int|
                bit(checkers, from) && (to == from || between(k, from, to));
            assert(from == checker);
        }
    }

    /// A pinned piece stands on one line with its king, and every legal
    /// move takes it to a square of that line. A pinned knight has no legal
    /// move.
    pub proof fn lemma_pinned_stays(&self, color: Color, m: Move)
        requires
            self.wf(),
            holds_move(self.legal_moves(color), m),
            bit(self.masks.pinned(color), m.from as int),
        ensures
            self.mover(m) != PieceType::King,
            self.mover(m) != PieceType::Knight,
            same_line(
                pin_line(self.pieces.king_square(color), m.from as int),
                self.pieces.king_square(color),
                m.from as int,
            ),
            same_line(
                pin_line(self.pieces.king_square(color), m.from as int),
                self.pieces.king_square(color),
                m.to as int,
            ),
    {
        let k = self.pieces.king_square(color);
        let from = m.from as int;
        let to = m.to as int;
        let line = pin_line(k, from);
        self.lemma_legal_holds(color, m);
        self.lemma_pinned_line(color, from);
        self.pieces.lemma_king(color);
        assert(self.masks.describes_side(self.pieces, color));
        if self.generated(PieceType::King, color, m) {
            // The king is not among the pinned pieces.
            self.lemma_generated_playable(PieceType::King, color, m);
        } else if self.generated(PieceType::Queen, color, m) {
            self.lemma_generated_playable(PieceType::Queen, color, m);
        } else if self.generated(PieceType::Rook, color, m) {
            self.lemma_generated_playable(PieceType::Rook, color, m);
        } else if self.generated(PieceType::Bishop, color, m) {
            self.lemma_generated_playable(PieceType::Bishop, color, m);
        } else if self.generated(PieceType::Knight, color, m) {
            self.lemma_generated_playable(PieceType::Knight, color, m);
        } else {
            self.lemma_generated_playable(PieceType::Pawn, color, m);
        }
        assert(bit(self.masks.pinmask(color).along(line), to));
        self.lemma_pin_mask_line(color, line, to);
    }

    /// A pinned piece is not the king, and shares with the king the line
    /// that `pin_line` names, lying on it in the direction of its pinner.
    pub proof fn lemma_pinned_line(&self, color: Color, sq: int)
        requires
            self.wf(),
            bit(self.masks.pinned(color), sq),
        ensures
            sq != self.pieces.king_square(color),
            on_board(sq),
            same_line(
                pin_line(self.pieces.king_square(color), sq),
                self.pieces.king_square(color),
                sq,
            ),
            exists|d: Direction|
                self.pieces.shields(color, d, sq) && d.line() == pin_line(
                    self.pieces.king_square(color),
                    sq,
                ) && in_direction(d, self.pieces.king_square(color), sq),
    {
        let k = self.pieces.king_square(color);
        let king = self.pieces.board(color, PieceType::King);
        let empty = self.pieces.empty_squares();
        assert(self.masks.describes_side(self.pieces, color));
        assert(self.pieces.is_pinned(color, sq));
        self.pieces.lemma_king(color);
        let d = if self.pieces.shields(color, Direction::North, sq) {
            Direction::North
        } else if self.pieces.shields(color, Direction::NorthEast, sq) {
            Direction::NorthEast
        } else if self.pieces.shields(color, Direction::East, sq) {
            Direction::East
        } else if self.pieces.shields(color, Direction::SouthEast, sq) {
            Direction::SouthEast
        } else if self.pieces.shields(color, Direction::South, sq) {
            Direction::South
        } else if self.pieces.shields(color, Direction::SouthWest, sq) {
            Direction::SouthWest
        } else if self.pieces.shields(color, Direction::West, sq) {
            Direction::West
        } else {
            Direction::NorthWest
        };
        assert(self.pieces.shields(color, d, sq));
        lemma_ray_from_one(d, king, empty, k, sq);
        lemma_direction_aligned(d, k, sq);
        lemma_square_parts(k);
        lemma_square_parts(sq);
        assert(d.line() == pin_line(k, sq));
    }

    /// Every square of a pin mask stands on a line of the mask's kind with
    /// the king.
    pub proof fn lemma_pin_mask_line(&self, color: Color, line: LineType, sq: int)
        requires
            self.wf(),
            bit(self.masks.pinmask(color).along(line), sq),
        ensures
            same_line(line, self.pieces.king_square(color), sq),
            sq != self.pieces.king_square(color),
    {
        let k = self.pieces.king_square(color);
        let king = self.pieces.board(color, PieceType::King);
        let through = self.pieces.empty_squares() | self.masks.pinned(color);
        assert(self.masks.describes_side(self.pieces, color));
        assert(self.pieces.on_pin_line(color, line, self.masks.pinned(color), sq));
        self.pieces.lemma_king(color);
        let d = match line {
            LineType::Horizontal => if ray_attacks(Direction::East, king, through, sq) {
                Direction::East
            } else {
                Direction::West
            },
            LineType::Vertical => if ray_attacks(Direction::North, king, through, sq) {
                Direction::North
            } else {
                Direction::South
            },
            LineType::A1h8 => if ray_attacks(Direction::NorthEast, king, through, sq) {
                Direction::NorthEast
            } else {
                Direction::SouthWest
            },
            LineType::H1a8 => if ray_attacks(Direction::NorthWest, king, through, sq) {
                Direction::NorthWest
            } else {
                Direction::SouthEast
            },
        };
        lemma_ray_from_one(d, king, through, k, sq);
        lemma_direction_aligned(d, k, sq);
    }

    /// Nothing but empty squares lies between a piece and a square to which
    /// it might move if it were not pinned, and that square is another
    /// square of the board, not the square of its own king.
    pub proof fn lemma_free_target_path(&self, kind: PieceType, color: Color, from: int, to: int)
        requires
            self.wf(),
            kind != PieceType::King,
            kind != PieceType::Knight,
            bit(self.pieces.board(color, kind), from),
            self.free_target(kind, color, from, to),
        ensures
            on_board(to),
            to != from,
            to != self.pieces.king_square(color),
            clear_path(self.pieces.empty_squares(), from, to),
    {
        let empty = self.pieces.empty_squares();
        let one = 1u64 << (from as u64);
        self.pieces.lemma_king(color);
        self.pieces.lemma_occupied();
        assert(bit(self.pieces.board(color, kind), from) == (self.pieces.at(from) == Some(
            (color, kind),
        )));
        assert(bit(self.pieces.occupied(color), from) == (self.pieces.at(from) matches Some(x)
            && x.0 == color));
        lemma_square_parts(from);
        lemma_bit_single(from as u64);
        assert(only(one, from));
        if kind == PieceType::Pawn {
            lemma_square_parts(to);
            let mid = from + forward(color);
            assert forall|x: int| between(from, to, x) implies bit(empty, x) by {
                lemma_square_parts(x);
                assert(x == mid);
            }
        } else {
            let d = if ray_attacks(Direction::North, one, empty, to) {
                Direction::North
            } else if ray_attacks(Direction::East, one, empty, to) {
                Direction::East
            } else if ray_attacks(Direction::South, one, empty, to) {
                Direction::South
            } else if ray_attacks(Direction::West, one, empty, to) {
                Direction::West
            } else if ray_attacks(Direction::NorthEast, one, empty, to) {
                Direction::NorthEast
            } else if ray_attacks(Direction::SouthEast, one, empty, to) {
                Direction::SouthEast
            } else if ray_attacks(Direction::SouthWest, one, empty, to) {
                Direction::SouthWest
            } else {
                Direction::NorthWest
            };
            assert(ray_attacks(d, one, empty, to));
            lemma_ray_clear(d, one, empty, from, to);
        }
    }

    /// A pinned piece may go exactly to those squares to which it might go
    /// if it were not pinned and which stand on the line through the piece
    /// and its king. It has such a square only while its king is not in
    /// check.
    pub proof fn lemma_pinned_exact(&self, kind: PieceType, color: Color, from: int, to: int)
        requires
            self.wf(),
            bit(self.pieces.board(color, kind), from),
            bit(self.masks.pinned(color), from),
        ensures
            self.target(kind, color, from, to) == (self.free_target(kind, color, from, to)
                && same_line(
                pin_line(self.pieces.king_square(color), from),
                self.pieces.king_square(color),
                to,
            )),
            self.target(kind, color, from, to) ==> self.masks.checkers(color) == 0,
    {
        let k = self.pieces.king_square(color);
        let line = pin_line(k, from);
        let king = self.pieces.board(color, PieceType::King);
        let empty = self.pieces.empty_squares();
        let pinned = self.masks.pinned(color);
        let through = empty | pinned;
        self.lemma_pinned_line(color, from);
        self.pieces.lemma_king(color);
        self.pieces.lemma_occupied();
        lemma_bit_consts();
        lemma_bit_ops(empty, pinned);
        assert(self.masks.describes_side(self.pieces, color));
        assert(bit(self.pieces.board(color, kind), from) == (self.pieces.at(from) == Some(
            (color, kind),
        )));
        assert(bit(self.pieces.occupied(color), from) == (self.pieces.at(from) matches Some(p)
            && p.0 == color));
        assert(kind != PieceType::King);
        if self.target(kind, color, from, to) {
            assert(kind != PieceType::Knight);
            assert(bit(self.masks.pinmask(color).along(line), to));
            self.lemma_pin_mask_line(color, line, to);
        }
        if self.free_target(kind, color, from, to) && same_line(line, k, to) {
            lemma_square_parts(k);
            lemma_square_parts(from);
            lemma_square_parts(to);
            if kind != PieceType::Knight {
                let d = choose|d: Direction|
                    self.pieces.shields(color, d, from) && d.line() == line && in_direction(
                        d,
                        k,
                        from,
                    );
                lemma_ray_clear(d, king, empty, k, from);
                self.lemma_free_target_path(kind, color, from, to);
                lemma_along_pin(d, empty, through, k, from, to);
                lemma_ray_clear(d, king, through, k, to);
                assert(ray_attacks(d, king, through, to));
                assert(self.pieces.on_pin_line(color, line, pinned, to));
                self.lemma_pinned_no_answer(kind, color, d, from, to);
                assert(bit(self.masks.pinmask(color).along(line), to));
            }
        }
    }

    /// No square of its line to which a pinned piece might go answers a
    /// check, and no pinned pawn takes en passant a pawn that gives check.
    proof fn lemma_pinned_no_answer(
        &self,
        kind: PieceType,
        color: Color,
        d: Direction,
        from: int,
        to: int,
    )
        requires
            self.wf(),
            bit(self.pieces.board(color, kind), from),
            bit(self.masks.pinned(color), from),
            self.free_target(kind, color, from, to),
            in_direction(d, self.pieces.king_square(color), from),
            in_direction(d, self.pieces.king_square(color), to),
            clear_path(
                self.pieces.empty_squares() | self.masks.pinned(color),
                self.pieces.king_square(color),
                to,
            ),
            to != from,
        ensures
            !covers_check(self.masks.checkers(color), self.pieces.king_square(color), to),
            bit(self.masks.checkmask(color), to),
    {
        let k = self.pieces.king_square(color);
        let empty = self.pieces.empty_squares();
        let pinned = self.masks.pinned(color);
        let checkers = self.masks.checkers(color);
        assert(self.masks.describes_side(self.pieces, color));
        assert(bit(self.pieces.occupied(color), from) == (self.pieces.at(from) matches Some(p)
            && p.0 == color));
        assert(bit(self.pieces.board(color, kind), from) == (self.pieces.at(from) == Some(
            (color, kind),
        )));
        self.pieces.lemma_pin_meaning(color, from);
        self.pieces.lemma_occupied();
        self.pieces.lemma_sliders(color.other());
        lemma_bit_ops(empty, pinned);
        let x = choose|x: int| self.pieces.pins(color, x, from);
        let dx = crate::rays::direction_to(k, x);
        assert(crate::board::rook_reach(k, x) || crate::board::bishop_reach(k, x)) by {
            lemma_square_parts(k);
            lemma_square_parts(x);
        }
        crate::rays::lemma_direction_to(k, x);
        crate::rays::lemma_between_directions(dx, k, from, x);
        crate::rays::lemma_one_direction(d, dx, k, from);
        crate::rays::lemma_same_direction(d, k, to, x);
        if between(k, to, x) {
            assert(bit(empty | pinned, x));
            assert(bit(pinned, x) == self.pieces.is_pinned(color, x));
            assert(bit(self.pieces.occupied(color), x) == (self.pieces.at(x) matches Some(p)
                && p.0 == color));
        }
        self.lemma_pin_line_no_answer(color, x, from, to);
        if !bit(self.masks.checkmask(color), to) {
            // The one move that answers a check off the check mask takes en passant.
            assert(kind == PieceType::Pawn && self.en_passant_answers(color, to));
            let victim = to - forward(color);
            assert(bit(checkers, victim));
            self.lemma_masks_meaning(color, victim);
            lemma_square_parts(k);
            lemma_square_parts(from);
            lemma_square_parts(to);
            lemma_square_parts(victim);
            assert(bit(self.pieces.occupied(color.other()), to) == (self.pieces.at(to)
                matches Some(p) && p.0 == color.other()));
        }
    }

    /// A piece that stands alone between its king and an enemy slider that
    /// moves along the line of the two is held to that line: its legal
    /// moves are exactly the moves it might make if it were not pinned that
    /// end on the line through the slider, the piece and the king.
    pub proof fn lemma_pin_correct(&self, kind: PieceType, color: Color, pinner: int, m: Move)
        requires
            self.wf(),
            m.piece_color == color,
            m.from < 64,
            m.to < 64,
            (m.promoted_piece is Some) == (kind == PieceType::Pawn && rank_of(m.to as int)
                == last_rank(color)),
            self.pieces.at(m.from as int) == Some((color, kind)),
            self.pieces.pins(color, pinner, m.from as int),
        ensures
            same_line(
                pin_line(self.pieces.king_square(color), m.from as int),
                self.pieces.king_square(color),
                pinner,
            ),
            holds_move(self.legal_moves(color), m) == (self.free_target(
                kind,
                color,
                m.from as int,
                m.to as int,
            ) && same_line(
                pin_line(self.pieces.king_square(color), m.from as int),
                self.pieces.king_square(color),
                m.to as int,
            )),
    {
        let k = self.pieces.king_square(color);
        let from = m.from as int;
        assert(self.masks.describes_side(self.pieces, color));
        assert forall|p: PieceType| #[trigger]
            bit(self.pieces.board(color, p), from) == (p == kind) by {
            assert(bit(self.pieces.board(color, p), from) == (self.pieces.at(from) == Some(
                (color, p),
            )));
        }
        assert(bit(self.pieces.occupied(color), from) == (self.pieces.at(from) matches Some(p)
            && p.0 == color));
        self.pieces.lemma_pin_meaning(color, from);
        self.lemma_pinned_line(color, from);
        self.lemma_pinned_exact(kind, color, from, m.to as int);
        self.lemma_legal_holds(color, m);
        lemma_bit_consts();
        lemma_square_parts(k);
        lemma_square_parts(from);
        lemma_square_parts(pinner);
    }
}

} // verus!
