//! What the masks mean in the terms of the game: which piece attacks which
//! square, which piece gives check, and which piece is pinned.

use vstd::prelude::*;
use crate::bits::{bit, lemma_bit_ops};
use crate::board::{
    between, bishop_reach, in_direction, king_reach, knight_reach, lemma_square_parts, on_board,
    pawn_reach, reaches, rook_reach, Color, Direction, PieceType,
};
use crate::game::GameState;
use crate::masks::{diagonal_sees, leaper_hits, straight_sees};
use crate::position::Pieces;
use crate::rays::{
    clear_path, direction_to, lemma_between_directions, lemma_between_split,
    lemma_direction_aligned, lemma_direction_reach, lemma_direction_to, lemma_ray_clear,
    lemma_ray_sources, slider_behind,
};

verus! {

/// Whether one of `sliders` stands on a rank or file with `sq`, with nothing
/// but squares of `empty` between.
pub open spec fn straight_slider_at(sliders: u64, empty: u64, sq: int) -> bool {
    exists|from: int| bit(sliders, from) && rook_reach(from, sq) && clear_path(empty, from, sq)
}

/// Whether one of `sliders` stands on a diagonal with `sq`, with nothing but
/// squares of `empty` between.
pub open spec fn diagonal_slider_at(sliders: u64, empty: u64, sq: int) -> bool {
    exists|from: int| bit(sliders, from) && bishop_reach(from, sq) && clear_path(empty, from, sq)
}

/// Sliders see along ranks and files the squares that share a rank or file
/// with one of them and that nothing but empty squares separates from it.
pub proof fn lemma_straight_meaning(sliders: u64, empty: u64, sq: int)
    ensures
        straight_sees(sliders, empty, sq) == straight_slider_at(sliders, empty, sq),
{
    lemma_ray_sources(Direction::North, sliders, empty, sq);
    lemma_ray_sources(Direction::East, sliders, empty, sq);
    lemma_ray_sources(Direction::South, sliders, empty, sq);
    lemma_ray_sources(Direction::West, sliders, empty, sq);
    if straight_sees(sliders, empty, sq) {
        let d = if slider_behind(Direction::North, sliders, empty, sq) {
            Direction::North
        } else if slider_behind(Direction::East, sliders, empty, sq) {
            Direction::East
        } else if slider_behind(Direction::South, sliders, empty, sq) {
            Direction::South
        } else {
            Direction::West
        };
        let from = choose|from: int|
            bit(sliders, from) && in_direction(d, from, sq) && clear_path(empty, from, sq);
        lemma_square_parts(from);
        lemma_square_parts(sq);
        assert(bit(sliders, from) && rook_reach(from, sq) && clear_path(empty, from, sq));
    }
    if straight_slider_at(sliders, empty, sq) {
        let from = choose|from: int|
            bit(sliders, from) && rook_reach(from, sq) && clear_path(empty, from, sq);
        lemma_square_parts(from);
        lemma_square_parts(sq);
        let d = if in_direction(Direction::North, from, sq) {
            Direction::North
        } else if in_direction(Direction::East, from, sq) {
            Direction::East
        } else if in_direction(Direction::South, from, sq) {
            Direction::South
        } else {
            Direction::West
        };
        assert(bit(sliders, from) && in_direction(d, from, sq) && clear_path(empty, from, sq));
    }
}

/// Sliders see along diagonals the squares that share a diagonal with one
/// of them and that nothing but empty squares separates from it.
pub proof fn lemma_diagonal_meaning(sliders: u64, empty: u64, sq: int)
    ensures
        diagonal_sees(sliders, empty, sq) == diagonal_slider_at(sliders, empty, sq),
{
    lemma_ray_sources(Direction::NorthEast, sliders, empty, sq);
    lemma_ray_sources(Direction::SouthEast, sliders, empty, sq);
    lemma_ray_sources(Direction::SouthWest, sliders, empty, sq);
    lemma_ray_sources(Direction::NorthWest, sliders, empty, sq);
    if diagonal_sees(sliders, empty, sq) {
        let d = if slider_behind(Direction::NorthEast, sliders, empty, sq) {
            Direction::NorthEast
        } else if slider_behind(Direction::SouthEast, sliders, empty, sq) {
            Direction::SouthEast
        } else if slider_behind(Direction::SouthWest, sliders, empty, sq) {
            Direction::SouthWest
        } else {
            Direction::NorthWest
        };
        let from = choose|from: int|
            bit(sliders, from) && in_direction(d, from, sq) && clear_path(empty, from, sq);
        lemma_square_parts(from);
        lemma_square_parts(sq);
        assert(bit(sliders, from) && bishop_reach(from, sq) && clear_path(empty, from, sq));
    }
    if diagonal_slider_at(sliders, empty, sq) {
        let from = choose|from: int|
            bit(sliders, from) && bishop_reach(from, sq) && clear_path(empty, from, sq);
        lemma_square_parts(from);
        lemma_square_parts(sq);
        let d = if in_direction(Direction::NorthEast, from, sq) {
            Direction::NorthEast
        } else if in_direction(Direction::SouthEast, from, sq) {
            Direction::SouthEast
        } else if in_direction(Direction::SouthWest, from, sq) {
            Direction::SouthWest
        } else {
            Direction::NorthWest
        };
        assert(bit(sliders, from) && in_direction(d, from, sq) && clear_path(empty, from, sq));
    }
}

impl Pieces {
    /// Whether the piece on `from` attacks `to`, sliders passing over the
    /// squares of `empty`: a king the squares next to it, a knight the
    /// squares a leap away, a pawn the two squares diagonally ahead, a rook,
    /// bishop or queen the squares on its lines that nothing but empty
    /// squares separates from it.
    pub open spec fn piece_attacks(&self, empty: u64, from: int, to: int) -> bool {
        match self.at(from) {
            None => false,
            Some((_, PieceType::King)) => king_reach(from, to),
            Some((_, PieceType::Knight)) => knight_reach(from, to),
            Some((color, PieceType::Pawn)) => pawn_reach(color, from, to),
            Some((_, PieceType::Rook)) => rook_reach(from, to) && clear_path(empty, from, to),
            Some((_, PieceType::Bishop)) => bishop_reach(from, to) && clear_path(empty, from, to),
            Some((_, PieceType::Queen)) => (rook_reach(from, to) || bishop_reach(from, to))
                && clear_path(empty, from, to),
        }
    }

    /// Whether a piece of colour `color` stands on `from` and attacks `to`.
    pub open spec fn attacker(&self, color: Color, empty: u64, from: int, to: int) -> bool {
        (self.at(from) matches Some(p) && p.0 == color) && self.piece_attacks(empty, from, to)
    }

    /// Whether some piece of colour `color` attacks `to`.
    pub open spec fn attacked_by(&self, color: Color, empty: u64, to: int) -> bool {
        exists|from: int| self.attacker(color, empty, from, to)
    }

    /// The rooks and queens of a colour, and its bishops and queens, are the
    /// pieces of those types.
    pub proof fn lemma_sliders(&self, color: Color)
        requires
            self.consistent(),
        ensures
            forall|sq: int| #[trigger]
                bit(self.straight_sliders(color), sq) == (self.at(sq) == Some(
                    (color, PieceType::Rook),
                ) || self.at(sq) == Some((color, PieceType::Queen))),
            forall|sq: int| #[trigger]
                bit(self.diagonal_sliders(color), sq) == (self.at(sq) == Some(
                    (color, PieceType::Bishop),
                ) || self.at(sq) == Some((color, PieceType::Queen))),
    {
        lemma_bit_ops(self.board(color, PieceType::Rook), self.board(color, PieceType::Queen));
        lemma_bit_ops(self.board(color, PieceType::Bishop), self.board(color, PieceType::Queen));
        assert forall|sq: int| #[trigger]
            bit(self.straight_sliders(color), sq) == (self.at(sq) == Some(
                (color, PieceType::Rook),
            ) || self.at(sq) == Some((color, PieceType::Queen))) by {
            assert(bit(self.board(color, PieceType::Rook), sq) == (self.at(sq) == Some(
                (color, PieceType::Rook),
            )));
            assert(bit(self.board(color, PieceType::Queen), sq) == (self.at(sq) == Some(
                (color, PieceType::Queen),
            )));
        }
        assert forall|sq: int| #[trigger]
            bit(self.diagonal_sliders(color), sq) == (self.at(sq) == Some(
                (color, PieceType::Bishop),
            ) || self.at(sq) == Some((color, PieceType::Queen))) by {
            assert(bit(self.board(color, PieceType::Bishop), sq) == (self.at(sq) == Some(
                (color, PieceType::Bishop),
            )));
            assert(bit(self.board(color, PieceType::Queen), sq) == (self.at(sq) == Some(
                (color, PieceType::Queen),
            )));
        }
    }

    /// The squares that the attack masks hold are the squares that some
    /// piece of the colour attacks.
    pub proof fn lemma_attacks_meaning(&self, color: Color, empty: u64, to: int)
        requires
            self.consistent(),
        ensures
            self.attacks(color, empty, to) == self.attacked_by(color, empty, to),
    {
        let straight = self.straight_sliders(color);
        let diagonal = self.diagonal_sliders(color);
        let knights = self.board(color, PieceType::Knight);
        let pawns = self.board(color, PieceType::Pawn);
        let kings = self.board(color, PieceType::King);
        self.lemma_sliders(color);
        lemma_straight_meaning(straight, empty, to);
        lemma_diagonal_meaning(diagonal, empty, to);
        assert forall|sq: int, p: PieceType| #[trigger]
            bit(self.board(color, p), sq) == (self.at(sq) == Some((color, p))) by {}
        if self.attacks(color, empty, to) {
            if straight_slider_at(straight, empty, to) {
                let from = choose|from: int|
                    bit(straight, from) && rook_reach(from, to) && clear_path(empty, from, to);
                assert(self.attacker(color, empty, from, to));
            } else if diagonal_slider_at(diagonal, empty, to) {
                let from = choose|from: int|
                    bit(diagonal, from) && bishop_reach(from, to) && clear_path(empty, from, to);
                assert(self.attacker(color, empty, from, to));
            } else if leaper_hits(knights, PieceType::Knight, None, to) {
                let from = choose|from: int|
                    bit(knights, from) && reaches(PieceType::Knight, None, from, to);
                assert(self.at(from) == Some((color, PieceType::Knight)));
                assert(self.attacker(color, empty, from, to));
            } else if leaper_hits(pawns, PieceType::Pawn, Some(color), to) {
                let from = choose|from: int|
                    bit(pawns, from) && reaches(PieceType::Pawn, Some(color), from, to);
                assert(self.at(from) == Some((color, PieceType::Pawn)));
                assert(self.attacker(color, empty, from, to));
            } else {
                let from = choose|from: int|
                    bit(kings, from) && reaches(PieceType::King, None, from, to);
                assert(self.at(from) == Some((color, PieceType::King)));
                assert(self.attacker(color, empty, from, to));
            }
        }
        if self.attacked_by(color, empty, to) {
            let from = choose|from: int| self.attacker(color, empty, from, to);
            let kind = match self.at(from) {
                Some((_, kind)) => kind,
                None => PieceType::Pawn,
            };
            assert(self.at(from) == Some((color, kind)));
            assert(bit(self.board(color, kind), from));
            match kind {
                PieceType::King => {
                    assert(bit(kings, from) && reaches(PieceType::King, None, from, to));
                },
                PieceType::Knight => {
                    assert(bit(knights, from) && reaches(PieceType::Knight, None, from, to));
                },
                PieceType::Pawn => {
                    assert(bit(pawns, from) && reaches(PieceType::Pawn, Some(color), from, to));
                },
                PieceType::Rook => {
                    assert(bit(straight, from) && rook_reach(from, to) && clear_path(
                        empty,
                        from,
                        to,
                    ));
                },
                PieceType::Bishop => {
                    assert(bit(diagonal, from) && bishop_reach(from, to) && clear_path(
                        empty,
                        from,
                        to,
                    ));
                },
                PieceType::Queen => {
                    if rook_reach(from, to) {
                        assert(bit(straight, from) && rook_reach(from, to) && clear_path(
                            empty,
                            from,
                            to,
                        ));
                    } else {
                        assert(bit(diagonal, from) && bishop_reach(from, to) && clear_path(
                            empty,
                            from,
                            to,
                        ));
                    }
                },
            }
        }
    }
}

/// The squares between two squares do not depend on the order of the two.
pub proof fn lemma_between_symmetric(a: int, b: int)
    ensures
        forall|x: int| between(a, b, x) == between(b, a, x),
        forall|empty: u64| #[trigger] clear_path(empty, a, b) == clear_path(empty, b, a),
{
    assert forall|x: int| between(a, b, x) == between(b, a, x) by {
        if on_board(a) && on_board(b) && on_board(x) {
            lemma_square_parts(a);
            lemma_square_parts(b);
            lemma_square_parts(x);
        }
    }
    assert forall|empty: u64| #[trigger] clear_path(empty, a, b) == clear_path(empty, b, a) by {
        if clear_path(empty, a, b) {
            assert forall|x: int| between(b, a, x) implies bit(empty, x) by {
                assert(between(a, b, x));
            }
        }
        if clear_path(empty, b, a) {
            assert forall|x: int| between(a, b, x) implies bit(empty, x) by {
                assert(between(b, a, x));
            }
        }
    }
}

impl Pieces {
    /// Whether the enemy slider on `pinner` pins the piece on `sq` to the
    /// king of colour `color`: the slider stands on a line with the king
    /// along which it moves, `sq` lies between the two, and every other
    /// square between them is empty.
    pub open spec fn pins(&self, color: Color, pinner: int, sq: int) -> bool {
        let k = self.king_square(color);
        let enemy = color.other();
        &&& (bit(self.straight_sliders(enemy), pinner) && rook_reach(pinner, k)) || (bit(
            self.diagonal_sliders(enemy),
            pinner,
        ) && bishop_reach(pinner, k))
        &&& between(k, pinner, sq)
        &&& forall|x: int| between(k, pinner, x) && x != sq ==> self.at(x) is None
    }

    /// The pieces that give check are the enemy pieces that attack the
    /// king.
    pub proof fn lemma_check_meaning(&self, color: Color, from: int)
        requires
            self.wf(),
        ensures
            self.gives_check(color, from) == self.attacker(
                color.other(),
                self.empty_squares(),
                from,
                self.king_square(color),
            ),
    {
        let k = self.king_square(color);
        let king = self.board(color, PieceType::King);
        let enemy = color.other();
        let empty = self.empty_squares();
        self.lemma_king(color);
        self.lemma_sliders(enemy);
        lemma_between_symmetric(k, from);
        assert(clear_path(empty, k, from) == clear_path(empty, from, k));
        lemma_ray_clear(Direction::North, king, empty, k, from);
        lemma_ray_clear(Direction::East, king, empty, k, from);
        lemma_ray_clear(Direction::South, king, empty, k, from);
        lemma_ray_clear(Direction::West, king, empty, k, from);
        lemma_ray_clear(Direction::NorthEast, king, empty, k, from);
        lemma_ray_clear(Direction::SouthEast, king, empty, k, from);
        lemma_ray_clear(Direction::SouthWest, king, empty, k, from);
        lemma_ray_clear(Direction::NorthWest, king, empty, k, from);
        lemma_square_parts(k);
        if on_board(from) {
            lemma_square_parts(from);
        }
        assert forall|p: PieceType| #[trigger]
            bit(self.board(enemy, p), from) == (self.at(from) == Some((enemy, p))) by {}
    }

    /// A piece that shields the king in a direction is pinned by an enemy
    /// slider.
    proof fn lemma_shield_pinned(&self, color: Color, d: Direction, sq: int)
        requires
            self.wf(),
            self.shields(color, d, sq),
        ensures
            exists|pinner: int| self.pins(color, pinner, sq),
    {
        let k = self.king_square(color);
        let king = self.board(color, PieceType::King);
        let enemy = color.other();
        let empty = self.empty_squares();
        let sliders = self.sliders_along(enemy, d);
        self.lemma_king(color);
        self.lemma_occupied();
        lemma_ray_clear(d, king, empty, k, sq);
        lemma_ray_sources(d.opposite(), sliders, empty, sq);
        let pinner = choose|pinner: int|
            bit(sliders, pinner) && in_direction(d.opposite(), pinner, sq) && clear_path(
                empty,
                pinner,
                sq,
            );
        lemma_direction_aligned(d.opposite(), pinner, sq);
        assert(in_direction(d, sq, pinner)) by {
            lemma_square_parts(sq);
            lemma_square_parts(pinner);
        }
        lemma_between_split(d, k, sq, pinner);
        lemma_between_symmetric(pinner, sq);
        lemma_direction_reach(d, k, pinner);
        assert(clear_path(empty, pinner, sq) == clear_path(empty, sq, pinner));
        assert forall|x: int| between(k, pinner, x) && x != sq implies self.at(x) is None by {
            assert(bit(empty, x));
        }
        assert(self.pins(color, pinner, sq));
    }

    /// A piece that an enemy slider pins shields the king in the direction
    /// of the slider.
    proof fn lemma_pinned_shield(&self, color: Color, pinner: int, sq: int)
        requires
            self.wf(),
            self.pins(color, pinner, sq),
        ensures
            self.shields(color, direction_to(self.king_square(color), pinner), sq),
    {
        let k = self.king_square(color);
        let king = self.board(color, PieceType::King);
        let enemy = color.other();
        let empty = self.empty_squares();
        let d = direction_to(k, pinner);
        let sliders = self.sliders_along(enemy, d);
        self.lemma_king(color);
        self.lemma_occupied();
        assert(rook_reach(k, pinner) || bishop_reach(k, pinner)) by {
            lemma_square_parts(k);
            lemma_square_parts(pinner);
        }
        lemma_direction_to(k, pinner);
        lemma_direction_reach(d, k, pinner);
        lemma_between_directions(d, k, sq, pinner);
        lemma_between_split(d, k, sq, pinner);
        lemma_between_symmetric(pinner, sq);
        lemma_direction_aligned(d, sq, pinner);
        assert(clear_path(empty, pinner, sq) == clear_path(empty, sq, pinner));
        assert forall|x: int| between(k, sq, x) implies bit(empty, x) by {
            assert(between(k, pinner, x) && x != sq);
        }
        assert forall|x: int| between(sq, pinner, x) implies bit(empty, x) by {
            assert(between(k, pinner, x) && x != sq);
        }
        lemma_ray_clear(d, king, empty, k, sq);
        lemma_ray_sources(d.opposite(), sliders, empty, sq);
        assert(bit(sliders, pinner) && in_direction(d.opposite(), pinner, sq) && clear_path(
            empty,
            pinner,
            sq,
        ));
    }

    /// The pinned pieces are the pieces of the colour that stand alone
    /// between their king and an enemy slider that moves along the line of
    /// the two.
    pub proof fn lemma_pin_meaning(&self, color: Color, sq: int)
        requires
            self.wf(),
        ensures
            self.is_pinned(color, sq) == (bit(self.occupied(color), sq) && exists|pinner: int|
                self.pins(color, pinner, sq)),
    {
        if self.is_pinned(color, sq) {
            let d = if self.shields(color, Direction::North, sq) {
                Direction::North
            } else if self.shields(color, Direction::NorthEast, sq) {
                Direction::NorthEast
            } else if self.shields(color, Direction::East, sq) {
                Direction::East
            } else if self.shields(color, Direction::SouthEast, sq) {
                Direction::SouthEast
            } else if self.shields(color, Direction::South, sq) {
                Direction::South
            } else if self.shields(color, Direction::SouthWest, sq) {
                Direction::SouthWest
            } else if self.shields(color, Direction::West, sq) {
                Direction::West
            } else {
                Direction::NorthWest
            };
            self.lemma_shield_pinned(color, d, sq);
        }
        if bit(self.occupied(color), sq) && exists|pinner: int| self.pins(color, pinner, sq) {
            let pinner = choose|pinner: int| self.pins(color, pinner, sq);
            self.lemma_pinned_shield(color, pinner, sq);
        }
    }
}

impl GameState {
    /// What the masks of a state hold, in the terms of the game: the
    /// checkers of a colour are the enemy pieces that attack its king; its
    /// pinned pieces are its pieces that stand alone between the king and an
    /// enemy slider; its space holds the squares that its pieces attack; and
    /// its king danger holds the squares that enemy pieces attack once the
    /// king is lifted off the board.
    pub proof fn lemma_masks_meaning(&self, color: Color, sq: int)
        requires
            self.wf(),
        ensures
            bit(self.masks.checkers(color), sq) == self.pieces.attacker(
                color.other(),
                self.pieces.empty_squares(),
                sq,
                self.pieces.king_square(color),
            ),
            bit(self.masks.pinned(color), sq) == (bit(self.pieces.occupied(color), sq)
                && exists|pinner: int| self.pieces.pins(color, pinner, sq)),
            bit(self.masks.space(color), sq) == self.pieces.attacked_by(
                color,
                self.pieces.empty_squares(),
                sq,
            ),
            bit(self.masks.king_danger(color), sq) == self.pieces.attacked_by(
                color.other(),
                self.pieces.empty_squares() | self.pieces.board(color, PieceType::King),
                sq,
            ),
    {
        assert(self.masks.describes_side(self.pieces, color));
        self.pieces.lemma_check_meaning(color, sq);
        self.pieces.lemma_pin_meaning(color, sq);
        self.pieces.lemma_attacks_meaning(color, self.pieces.empty_squares(), sq);
        self.pieces.lemma_attacks_meaning(
            color.other(),
            self.pieces.empty_squares() | self.pieces.board(color, PieceType::King),
            sq,
        );
    }
}

} // verus!
