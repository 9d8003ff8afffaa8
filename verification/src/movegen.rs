//! The move generator: for each piece type, the legal moves of the pieces of
//! one colour, read off the masks of the state.
//!
//! Moves come out in a fixed order: by piece type (king, queen, rook,
//! bishop, knight, pawn), then by the square the piece stands on, then by
//! the square it goes to; the four promotions to one square follow each
//! other as queen, rook, bishop, knight.

use vstd::prelude::*;
use crate::bits::{
    bit, holds, is_single, lemma_bit_consts, lemma_bit_ops, lemma_lowest, lemma_only,
    lemma_zero_iff_empty, lowest_square, only, rank_mask, square, without_lowest,
};
use crate::board::{
    king_reach, knight_reach, lemma_square_parts, on_board, pawn_reach, rank_of, reaches, same_line,
    Color, Direction, LineType, PieceType, PromotionType,
};
use crate::game::{castle_target, GameState};
use crate::lookup::Tables;
use crate::masks::{diagonal_attacks, diagonal_sees, straight_attacks, straight_sees, PinMask};
use crate::sliding_pieces::{east_attacks, ray_attacks, west_attacks};

verus! {

/// A move: the square a piece leaves, the square it goes to, what a pawn
/// becomes if it promotes, and the colour that moves. A castle is the move
/// of the king by two squares; a capture en passant is the move of the pawn
/// onto the en-passant target.
#[derive(Clone, Copy, Debug, PartialEq, Eq, Structural)]
pub struct Move {
    pub from: usize,
    pub to: usize,
    pub promoted_piece: Option<PromotionType>,
    pub piece_color: Color,
}

/// The rank on which the pawns of a colour promote.
pub open spec fn last_rank(color: Color) -> int {
    match color {
        Color::White => 7,
        Color::Black => 0,
    }
}

/// The rank on which the pawns of a colour start.
pub open spec fn pawn_rank(color: Color) -> int {
    match color {
        Color::White => 1,
        Color::Black => 6,
    }
}

/// The rank on which a pawn of a colour lands when it captures en passant.
pub open spec fn en_passant_rank(color: Color) -> int {
    match color {
        Color::White => 5,
        Color::Black => 2,
    }
}

/// How much one step forward changes the square of a pawn.
pub open spec fn forward(color: Color) -> int {
    match color {
        Color::White => 8,
        Color::Black => -8,
    }
}

/// The kind of line on which a pinned piece on `sq` is held to the king on
/// `king`.
pub open spec fn pin_line(king: int, sq: int) -> LineType {
    if same_line(LineType::Horizontal, king, sq) {
        LineType::Horizontal
    } else if same_line(LineType::Vertical, king, sq) {
        LineType::Vertical
    } else if same_line(LineType::A1h8, king, sq) {
        LineType::A1h8
    } else {
        LineType::H1a8
    }
}

/// The move of a piece that does not promote.
pub open spec fn plain_move(from: int, to: int, color: Color) -> Move {
    Move { from: from as usize, to: to as usize, promoted_piece: None, piece_color: color }
}

/// The move of a pawn that promotes.
pub open spec fn promotion(from: int, to: int, color: Color, piece: PromotionType) -> Move {
    Move { from: from as usize, to: to as usize, promoted_piece: Some(piece), piece_color: color }
}

/// The moves that take a piece from `from` to `to`: one, or the four
/// promotions where a pawn reaches its last rank.
pub open spec fn moves_between(kind: PieceType, color: Color, from: int, to: int) -> Seq<Move> {
    if kind == PieceType::Pawn && rank_of(to) == last_rank(color) {
        seq![
            promotion(from, to, color, PromotionType::Queen),
            promotion(from, to, color, PromotionType::Rook),
            promotion(from, to, color, PromotionType::Bishop),
            promotion(from, to, color, PromotionType::Knight),
        ]
    } else {
        seq![plain_move(from, to, color)]
    }
}

impl GameState {
    /// Whether a piece of colour `color` may land on `to` at all: it is a
    /// square without a piece of that colour, and without a king.
    pub open spec fn open_to(&self, color: Color, to: int) -> bool {
        on_board(to) && !bit(self.pieces.occupied(color), to) && !(self.pieces.at(to)
            matches Some(x) && x.1 == PieceType::King)
    }

    /// Whether a move from `from` to `to` respects check and pin: `to` is
    /// in the check mask, and where the piece on `from` is pinned, `to` is in
    /// the pin mask of the line that holds the piece to its king.
    pub open spec fn unhindered(&self, color: Color, from: int, to: int) -> bool {
        bit(self.masks.checkmask(color), to) && (bit(self.masks.pinned(color), from) ==> bit(
            self.masks.pinmask(color).along(pin_line(self.pieces.king_square(color), from)),
            to,
        ))
    }

    /// Where the king of colour `color` may go: to a neighbouring square
    /// that is not in danger, or to the target of a castle that can be
    /// played.
    pub open spec fn king_target(&self, color: Color, to: int) -> bool {
        (king_reach(self.pieces.king_square(color), to) && !bit(
            self.masks.king_danger(color),
            to,
        ) && self.open_to(color, to)) || (to == castle_target(color, false) && self.castle_open(
            color,
            false,
        )) || (to == castle_target(color, true) && self.castle_open(color, true))
    }

    /// Whether the capture en passant from `from` to `to` would leave the
    /// king in check along the rank from which both pawns vanish.
    pub open spec fn en_passant_exposes(&self, color: Color, from: int, to: int) -> bool {
        let taken = to - forward(color);
        let through = self.empty | (1u64 << (from as u64)) | (1u64 << (taken as u64));
        let king = self.pieces.board(color, PieceType::King);
        exists|sq: int|
            bit(self.pieces.straight_sliders(color.other()), sq) && rank_of(sq) == rank_of(from)
                && (ray_attacks(Direction::East, king, through, sq) || ray_attacks(
                Direction::West,
                king,
                through,
                sq,
            ))
    }

    /// Whether a pawn on `from` moves to `to` as in a capture en passant:
    /// `to` is the en-passant target on the right rank, it is empty, the
    /// pawn attacks it, and an enemy pawn stands behind it.
    pub open spec fn passing(&self, color: Color, from: int, to: int) -> bool {
        &&& self.en_passant == Some(to as usize)
        &&& on_board(to)
        &&& rank_of(to) == en_passant_rank(color)
        &&& pawn_reach(color, from, to)
        &&& self.pieces.at(to) is None
        &&& self.pieces.at(to - forward(color)) == Some((color.other(), PieceType::Pawn))
    }

    /// Whether a pawn on `from` may capture en passant on `to`, check and
    /// pin aside: it moves as in a capture en passant, and the capture
    /// exposes the king to no slider on the rank.
    pub open spec fn en_passant_open(&self, color: Color, from: int, to: int) -> bool {
        self.passing(color, from, to) && !self.en_passant_exposes(color, from, to)
    }

    /// Whether capturing en passant on `to` takes the only piece that gives
    /// check: `to` is the en-passant target on the right rank, it is empty,
    /// and the enemy pawn behind it is the one checker.
    pub open spec fn en_passant_answers(&self, color: Color, to: int) -> bool {
        self.en_passant == Some(to as usize) && on_board(to) && rank_of(to) == en_passant_rank(
            color,
        ) && self.pieces.at(to) is None && only(
            self.masks.checkers(color),
            to - forward(color),
        ) && self.pieces.at(to - forward(color)) == Some((color.other(), PieceType::Pawn))
    }

    /// Where the pawn of colour `color` on `from` moves, check and pin
    /// aside: one step forward onto an empty square, two from its starting
    /// rank over empty squares, onto an enemy piece that it attacks, or en
    /// passant.
    pub open spec fn pawn_step(&self, color: Color, from: int, to: int) -> bool {
        let one = from + forward(color);
        let two = from + 2 * forward(color);
        ||| to == one && on_board(to) && self.pieces.at(to) is None
        ||| to == two && on_board(to) && rank_of(from) == pawn_rank(color) && self.pieces.at(one)
            is None && self.pieces.at(to) is None
        ||| pawn_reach(color, from, to) && bit(self.pieces.occupied(color.other()), to)
        ||| self.en_passant_open(color, from, to)
    }

    /// Whether the piece of type `kind` and colour `color` that stands on
    /// `from` might move to `to` if no piece were pinned: it moves there as
    /// its type moves, the square is open to it, and the move answers a
    /// check if there is one.
    pub open spec fn free_target(&self, kind: PieceType, color: Color, from: int, to: int) -> bool {
        let one = 1u64 << (from as u64);
        match kind {
            PieceType::King => self.king_target(color, to),
            PieceType::Queen => (straight_sees(one, self.empty, to) || diagonal_sees(
                one,
                self.empty,
                to,
            )) && self.open_to(color, to) && bit(self.masks.checkmask(color), to),
            PieceType::Rook => straight_sees(one, self.empty, to) && self.open_to(color, to)
                && bit(self.masks.checkmask(color), to),
            PieceType::Bishop => diagonal_sees(one, self.empty, to) && self.open_to(color, to)
                && bit(self.masks.checkmask(color), to),
            PieceType::Knight => knight_reach(from, to) && self.open_to(color, to) && bit(
                self.masks.checkmask(color),
                to,
            ),
            PieceType::Pawn => self.pawn_step(color, from, to) && self.open_to(color, to) && (
            bit(self.masks.checkmask(color), to) || self.en_passant_answers(color, to)),
        }
    }

    /// Whether a pin lets the piece on `from` move to `to`. Nothing pins a
    /// king; a pinned knight does not move; any other pinned piece stays in
    /// the pin mask of the line that holds it to its king.
    pub open spec fn pin_allows(&self, kind: PieceType, color: Color, from: int, to: int) -> bool {
        match kind {
            PieceType::King => true,
            PieceType::Knight => !bit(self.masks.pinned(color), from),
            _ => bit(self.masks.pinned(color), from) ==> bit(
                self.masks.pinmask(color).along(pin_line(self.pieces.king_square(color), from)),
                to,
            ),
        }
    }

    /// Whether the piece of type `kind` and colour `color` that stands on
    /// `from` may move to `to`.
    pub open spec fn target(&self, kind: PieceType, color: Color, from: int, to: int) -> bool {
        self.free_target(kind, color, from, to) && self.pin_allows(kind, color, from, to)
    }

    /// The moves of the piece on `from` to the squares below `n`, in
    /// increasing order of the square.
    pub open spec fn moves_from(&self, kind: PieceType, color: Color, from: int, n: int) -> Seq<
        Move,
    >
        decreases n,
    {
        if n <= 0 {
            Seq::empty()
        } else if self.target(kind, color, from, n - 1) {
            self.moves_from(kind, color, from, n - 1) + moves_between(kind, color, from, n - 1)
        } else {
            self.moves_from(kind, color, from, n - 1)
        }
    }

    /// The moves of the pieces of one type and colour that stand on the
    /// squares below `n`, in increasing order of the square they stand on.
    pub open spec fn moves_of(&self, kind: PieceType, color: Color, n: int) -> Seq<Move>
        decreases n,
    {
        if n <= 0 {
            Seq::empty()
        } else if bit(self.pieces.board(color, kind), n - 1) {
            self.moves_of(kind, color, n - 1) + self.moves_from(kind, color, n - 1, 64)
        } else {
            self.moves_of(kind, color, n - 1)
        }
    }

    /// Whether at least two pieces give check to the king of a colour.
    pub open spec fn double_check(&self, color: Color) -> bool {
        exists|a: int, b: int|
            a != b && bit(self.masks.checkers(color), a) && bit(self.masks.checkers(color), b)
    }

    /// The legal moves of a colour. In double check only the king moves.
    pub open spec fn legal_moves(&self, color: Color) -> Seq<Move> {
        if self.double_check(color) {
            self.moves_of(PieceType::King, color, 64)
        } else {
            self.moves_of(PieceType::King, color, 64) + self.moves_of(
                PieceType::Queen,
                color,
                64,
            ) + self.moves_of(PieceType::Rook, color, 64) + self.moves_of(
                PieceType::Bishop,
                color,
                64,
            ) + self.moves_of(PieceType::Knight, color, 64) + self.moves_of(
                PieceType::Pawn,
                color,
                64,
            )
        }
    }

    /// Squares that are no target add no move.
    pub proof fn lemma_moves_from_skip(
        &self,
        kind: PieceType,
        color: Color,
        from: int,
        m: int,
        n: int,
    )
        requires
            0 <= m <= n,
            forall|to: int| m <= to < n ==> !self.target(kind, color, from, to),
        ensures
            self.moves_from(kind, color, from, n) == self.moves_from(kind, color, from, m),
        decreases n - m,
    {
        if m < n {
            self.lemma_moves_from_skip(kind, color, from, m, n - 1);
        }
    }

    /// Squares without a piece of the type add no move.
    pub proof fn lemma_moves_of_skip(&self, kind: PieceType, color: Color, m: int, n: int)
        requires
            0 <= m <= n,
            forall|from: int| m <= from < n ==> !bit(self.pieces.board(color, kind), from),
        ensures
            self.moves_of(kind, color, n) == self.moves_of(kind, color, m),
        decreases n - m,
    {
        if m < n {
            self.lemma_moves_of_skip(kind, color, m, n - 1);
        }
    }

    /// Appends to `moves` the moves of the piece on `from` to the squares of
    /// `targets`.
    fn push_moves(
        &self,
        moves: &mut Vec<Move>,
        kind: PieceType,
        color: Color,
        from: usize,
        targets: u64,
    )
        requires
            from < 64,
            forall|to: int| #[trigger]
                bit(targets, to) == self.target(kind, color, from as int, to),
        ensures
            final(moves)@ == old(moves)@ + self.moves_from(kind, color, from as int, 64),
    {
        let mut rest: u64 = targets;
        let ghost mut done: int = 0;
        let promotes: bool = match kind {
            PieceType::Pawn => true,
            _ => false,
        };
        let last: usize = match color {
            Color::White => 7,
            Color::Black => 0,
        };
        proof {
            assert(old(moves)@ + Seq::<Move>::empty() =~= old(moves)@);
        }
        while rest != 0
            invariant
                from < 64,
                0 <= done <= 64,
                promotes == (kind == PieceType::Pawn),
                last == last_rank(color),
                forall|to: int| #[trigger]
                    bit(targets, to) == self.target(kind, color, from as int, to),
                forall|to: int| #[trigger] bit(rest, to) == (bit(targets, to) && to >= done),
                moves@ == old(moves)@ + self.moves_from(kind, color, from as int, done),
            decreases rest,
        {
            let to: usize = lowest_square(rest);
            proof {
                lemma_lowest(rest);
                assert forall|t: int| done <= t < to implies !self.target(
                    kind,
                    color,
                    from as int,
                    t,
                ) by {
                    assert(bit(rest, t) == (bit(targets, t) && t >= done));
                }
                self.lemma_moves_from_skip(kind, color, from as int, done, to as int);
                assert(bit(rest, to as int));
                assert(self.target(kind, color, from as int, to as int));
            }
            let ghost before = moves@;
            if promotes && to / 8 == last {
                moves.push(
                    Move {
                        from,
                        to,
                        piece_color: color,
                        promoted_piece: Some(PromotionType::Queen),
                    },
                );
                moves.push(
                    Move {
                        from,
                        to,
                        piece_color: color,
                        promoted_piece: Some(PromotionType::Rook),
                    },
                );
                moves.push(
                    Move {
                        from,
                        to,
                        piece_color: color,
                        promoted_piece: Some(PromotionType::Bishop),
                    },
                );
                moves.push(
                    Move {
                        from,
                        to,
                        piece_color: color,
                        promoted_piece: Some(PromotionType::Knight),
                    },
                );
            } else {
                moves.push(Move { from, to, piece_color: color, promoted_piece: None });
            }
            proof {
                assert(moves@ =~= before + moves_between(kind, color, from as int, to as int));
                assert(moves@ =~= old(moves)@ + self.moves_from(
                    kind,
                    color,
                    from as int,
                    to as int + 1,
                ));
            }
            rest = without_lowest(rest);
            proof {
                done = to as int + 1;
            }
        }
        proof {
            lemma_zero_iff_empty(rest);
            assert forall|t: int| done <= t < 64 implies !self.target(
                kind,
                color,
                from as int,
                t,
            ) by {
                assert(bit(rest, t) == (bit(targets, t) && t >= done));
            }
            self.lemma_moves_from_skip(kind, color, from as int, done, 64);
        }
    }

    /// The squares on which a piece of colour `color` may land at all.
    fn open_squares(&self, color: Color) -> (r: u64)
        requires
            self.wf(),
        ensures
            forall|to: int| #[trigger] bit(r, to) == self.open_to(color, to),
    {
        let own: u64 = self.pieces.side(color);
        let kings: u64 = self.pieces.w_king | self.pieces.b_king;
        proof {
            lemma_bit_ops(self.pieces.w_king, self.pieces.b_king);
            lemma_bit_ops(own, kings);
            lemma_bit_ops(own | kings, 0);
            assert forall|to: int| #[trigger]
                bit(!(own | kings), to) == self.open_to(color, to) by {
                assert(bit(self.pieces.board(Color::White, PieceType::King), to) == (
                self.pieces.at(to) == Some((Color::White, PieceType::King))));
                assert(bit(self.pieces.board(Color::Black, PieceType::King), to) == (
                self.pieces.at(to) == Some((Color::Black, PieceType::King))));
            }
        }
        !(own | kings)
    }

    /// The pin mask that holds a pinned piece on `from`.
    fn pin_mask_for(&self, color: Color, from: usize) -> (r: u64)
        requires
            self.wf(),
            from < 64,
        ensures
            r == self.masks.pinmask(color).along(
                pin_line(self.pieces.king_square(color), from as int),
            ),
    {
        let king: usize = self.pieces.king_index(color);
        let pinmask: PinMask = self.masks.pinmask_of(color);
        let king_rank: usize = king / 8;
        let king_file: usize = king % 8;
        let rank: usize = from / 8;
        let file: usize = from % 8;
        if king_rank == rank {
            pinmask.h
        } else if king_file == file {
            pinmask.v
        } else if king_rank + file == king_file + rank {
            pinmask.d1
        } else {
            pinmask.d2
        }
    }

    /// The squares to which check and pin let the piece on `from` go.
    fn move_mask(&self, color: Color, from: usize) -> (r: u64)
        requires
            self.wf(),
            from < 64,
        ensures
            forall|to: int| #[trigger] bit(r, to) == self.unhindered(color, from as int, to),
    {
        let checkmask: u64 = self.masks.checkmask_of(color);
        if holds(self.masks.pinned_of(color), from) {
            let line: u64 = self.pin_mask_for(color, from);
            proof {
                lemma_bit_ops(checkmask, line);
            }
            checkmask & line
        } else {
            checkmask
        }
    }

    /// Where the king of colour `color` may go.
    fn king_targets(&self, color: Color, tables: &Tables) -> (r: u64)
        requires
            self.wf(),
            tables.wf(),
        ensures
            forall|to: int| #[trigger] bit(r, to) == self.king_target(color, to),
    {
        let king: usize = self.pieces.king_index(color);
        let danger: u64 = self.masks.king_danger_of(color);
        let open: u64 = self.open_squares(color);
        let row: u64 = tables.king[king];
        let mut bb: u64 = row & !danger & open;
        proof {
            lemma_bit_consts();
            lemma_bit_ops(danger, danger);
            lemma_bit_ops(row, !danger);
            lemma_bit_ops(row & !danger, open);
            assert forall|to: int| bit(row, to) == king_reach(king as int, to) by {
                assert(bit(tables.king@[king as int], to) == reaches(
                    PieceType::King,
                    None,
                    king as int,
                    to,
                ));
            }
        }
        let (queenside, kingside, home): (bool, bool, usize) = match color {
            Color::White => (self.legal_castling.0, self.legal_castling.1, 4),
            Color::Black => (self.legal_castling.2, self.legal_castling.3, 60),
        };
        if queenside {
            let target: u64 = square(home - 2);
            proof {
                lemma_bit_ops(bb, target);
            }
            bb = bb | target;
        }
        if kingside {
            let target: u64 = square(home + 2);
            proof {
                lemma_bit_ops(bb, target);
            }
            bb = bb | target;
        }
        proof {
            assert(self.castle_open(color, false) == queenside);
            assert(self.castle_open(color, true) == kingside);
        }
        bb
    }

    /// Where the slider or knight of type `kind` on `from` may go.
    fn piece_targets(&self, kind: PieceType, color: Color, from: usize, tables: &Tables) -> (r:
        u64)
        requires
            self.wf(),
            tables.wf(),
            from < 64,
            kind != PieceType::King,
            kind != PieceType::Pawn,
        ensures
            forall|to: int| #[trigger] bit(r, to) == self.target(kind, color, from as int, to),
    {
        let open: u64 = self.open_squares(color);
        let one: u64 = square(from);
        proof {
            lemma_bit_consts();
        }
        match kind {
            PieceType::Knight => {
                if holds(self.masks.pinned_of(color), from) {
                    0
                } else {
                    let row: u64 = tables.knight[from];
                    let checkmask: u64 = self.masks.checkmask_of(color);
                    proof {
                        lemma_bit_ops(row, open);
                        lemma_bit_ops(row & open, checkmask);
                        assert forall|to: int| bit(row, to) == knight_reach(from as int, to) by {
                            assert(bit(tables.knight@[from as int], to) == reaches(
                                PieceType::Knight,
                                None,
                                from as int,
                                to,
                            ));
                        }
                    }
                    row & open & checkmask
                }
            },
            PieceType::Rook => {
                let seen: u64 = straight_attacks(one, self.empty);
                let mask: u64 = self.move_mask(color, from);
                proof {
                    lemma_bit_ops(seen, open);
                    lemma_bit_ops(seen & open, mask);
                }
                seen & open & mask
            },
            PieceType::Bishop => {
                let seen: u64 = diagonal_attacks(one, self.empty);
                let mask: u64 = self.move_mask(color, from);
                proof {
                    lemma_bit_ops(seen, open);
                    lemma_bit_ops(seen & open, mask);
                }
                seen & open & mask
            },
            _ => {
                let straight: u64 = straight_attacks(one, self.empty);
                let diagonal: u64 = diagonal_attacks(one, self.empty);
                let mask: u64 = self.move_mask(color, from);
                proof {
                    lemma_bit_ops(straight, diagonal);
                    lemma_bit_ops(straight | diagonal, open);
                    lemma_bit_ops((straight | diagonal) & open, mask);
                }
                (straight | diagonal) & open & mask
            },
        }
    }

    /// Whether the capture en passant from `from` that takes the pawn on
    /// `victim` leaves the king safe from the sliders on the rank of both
    /// pawns.
    fn en_passant_safe(&self, color: Color, from: usize, victim: usize) -> (r: bool)
        requires
            self.wf(),
            from < 64,
            victim < 64,
        ensures
            r == !self.en_passant_exposes(color, from as int, victim as int + forward(color)),
    {
        let enemy: Color = color.invert();
        let through: u64 = self.empty | square(from) | square(victim);
        let king: u64 = self.pieces.bitboard(color, PieceType::King);
        let sliders: u64 = self.pieces.bitboard(enemy, PieceType::Rook) | self.pieces.bitboard(
            enemy,
            PieceType::Queen,
        );
        let east: u64 = east_attacks(king, through);
        let west: u64 = west_attacks(king, through);
        let rank: u64 = rank_mask(from / 8);
        let exposed: u64 = (east | west) & rank & sliders;
        proof {
            lemma_bit_ops(east, west);
            lemma_bit_ops(east | west, rank);
            lemma_bit_ops((east | west) & rank, sliders);
            lemma_zero_iff_empty(exposed);
            if self.en_passant_exposes(color, from as int, victim as int + forward(color)) {
                let sq = choose|sq: int|
                    bit(self.pieces.straight_sliders(color.other()), sq) && rank_of(sq) == rank_of(
                        from as int,
                    ) && (ray_attacks(Direction::East, king, through, sq) || ray_attacks(
                        Direction::West,
                        king,
                        through,
                        sq,
                    ));
                assert(bit(exposed, sq));
            }
            if exposed != 0 {
                let sq = choose|sq: int| 0 <= sq < 64 && bit(exposed, sq);
                assert(bit(self.pieces.straight_sliders(color.other()), sq) && rank_of(sq)
                    == rank_of(from as int) && (ray_attacks(Direction::East, king, through, sq)
                    || ray_attacks(Direction::West, king, through, sq)));
            }
        }
        exposed == 0
    }

    /// Where the pawn of colour `color` on `from` may go.
    fn pawn_targets(&self, color: Color, from: usize, tables: &Tables) -> (r: u64)
        requires
            self.wf(),
            tables.wf(),
            from < 64,
        ensures
            forall|to: int| #[trigger]
                bit(r, to) == self.target(PieceType::Pawn, color, from as int, to),
    {
        let enemy: Color = color.invert();
        let row: u64 = match color {
            Color::White => tables.white_pawn[from],
            Color::Black => tables.black_pawn[from],
        };
        let theirs: u64 = self.pieces.side(enemy);
        let captures: u64 = row & theirs;
        let mut pushes: u64 = 0;
        proof {
            lemma_bit_consts();
            lemma_bit_ops(row, theirs);
            self.pieces.lemma_occupied();
            lemma_square_parts(from as int);
            assert forall|to: int| bit(row, to) == pawn_reach(color, from as int, to) by {
                assert(bit(tables.white_pawn@[from as int], to) == reaches(
                    PieceType::Pawn,
                    Some(Color::White),
                    from as int,
                    to,
                ));
                assert(bit(tables.black_pawn@[from as int], to) == reaches(
                    PieceType::Pawn,
                    Some(Color::Black),
                    from as int,
                    to,
                ));
            }
        }
        match color {
            Color::White => {
                if from < 56 && holds(self.empty, from + 8) {
                    pushes = square(from + 8);
                    if from / 8 == 1 && holds(self.empty, from + 16) {
                        let two: u64 = square(from + 16);
                        proof {
                            lemma_bit_ops(pushes, two);
                        }
                        pushes = pushes | two;
                    }
                }
            },
            Color::Black => {
                if from >= 8 && holds(self.empty, from - 8) {
                    pushes = square(from - 8);
                    if from / 8 == 6 && holds(self.empty, from - 16) {
                        let two: u64 = square(from - 16);
                        proof {
                            lemma_bit_ops(pushes, two);
                        }
                        pushes = pushes | two;
                    }
                }
            },
        }
        let mut passing: u64 = 0;
        let mut answer: u64 = 0;
        match self.en_passant {
            Some(sq) => {
                let on_rank: bool = match color {
                    Color::White => sq / 8 == 5,
                    Color::Black => sq / 8 == 2,
                };
                if on_rank {
                    let victim: usize = match color {
                        Color::White => sq - 8,
                        Color::Black => sq + 8,
                    };
                    let taken: bool = match self.pieces.piece_on(victim) {
                        Some((c, PieceType::Pawn)) => c == enemy,
                        _ => false,
                    };
                    if taken {
                        let vacant: bool = match self.pieces.piece_on(sq) {
                            None => true,
                            Some(_) => false,
                        };
                        if holds(row, sq) && vacant && self.en_passant_safe(color, from, victim) {
                            passing = square(sq);
                        }
                        let checkers: u64 = self.masks.checkers_of(color);
                        if is_single(checkers) {
                            proof {
                                lemma_only(checkers, crate::bits::lowest(checkers));
                            }
                            if lowest_square(checkers) == victim && vacant {
                                answer = square(sq);
                            }
                        }
                        proof {
                            if only(checkers, victim as int) {
                                lemma_only(checkers, victim as int);
                            }
                        }
                    }
                }
            },
            None => {},
        }
        let open: u64 = self.open_squares(color);
        let checkmask: u64 = self.masks.checkmask_of(color);
        let steps: u64 = captures | pushes | passing;
        let answers: u64 = checkmask | answer;
        let free: u64 = steps & open & answers;
        proof {
            lemma_bit_ops(captures, pushes);
            lemma_bit_ops(captures | pushes, passing);
            lemma_bit_ops(checkmask, answer);
            lemma_bit_ops(steps, open);
            lemma_bit_ops(steps & open, answers);
            assert forall|to: int| bit(steps, to) == self.pawn_step(color, from as int, to) by {
                if on_board(to) {
                    lemma_square_parts(to);
                }
            }
            assert forall|to: int|
                bit(answers, to) == (bit(self.masks.checkmask(color), to)
                    || self.en_passant_answers(color, to)) by {
                if on_board(to) {
                    lemma_square_parts(to);
                }
            }
        }
        if holds(self.masks.pinned_of(color), from) {
            let line: u64 = self.pin_mask_for(color, from);
            proof {
                lemma_bit_ops(free, line);
            }
            free & line
        } else {
            free
        }
    }

    /// The moves of the pieces of one type and colour.
    fn generate(&self, kind: PieceType, color: Color, tables: &Tables) -> (moves: Vec<Move>)
        requires
            self.wf(),
            tables.wf(),
        ensures
            moves@ == self.moves_of(kind, color, 64),
    {
        let mut moves: Vec<Move> = Vec::new();
        let board: u64 = self.pieces.bitboard(color, kind);
        let mut rest: u64 = board;
        let ghost mut done: int = 0;
        while rest != 0
            invariant
                self.wf(),
                tables.wf(),
                0 <= done <= 64,
                board == self.pieces.board(color, kind),
                forall|from: int| #[trigger] bit(rest, from) == (bit(board, from) && from >= done),
                moves@ == self.moves_of(kind, color, done),
            decreases rest,
        {
            let from: usize = lowest_square(rest);
            proof {
                lemma_lowest(rest);
                assert forall|f: int| done <= f < from implies !bit(board, f) by {
                    assert(bit(rest, f) == (bit(board, f) && f >= done));
                }
                self.lemma_moves_of_skip(kind, color, done, from as int);
                assert(bit(rest, from as int));
            }
            let targets: u64 = match kind {
                PieceType::King => self.king_targets(color, tables),
                PieceType::Pawn => self.pawn_targets(color, from, tables),
                _ => self.piece_targets(kind, color, from, tables),
            };
            self.push_moves(&mut moves, kind, color, from, targets);
            rest = without_lowest(rest);
            proof {
                done = from as int + 1;
            }
        }
        proof {
            lemma_zero_iff_empty(rest);
            assert forall|f: int| done <= f < 64 implies !bit(board, f) by {
                assert(bit(rest, f) == (bit(board, f) && f >= done));
            }
            self.lemma_moves_of_skip(kind, color, done, 64);
        }
        moves
    }

    /// The legal moves of the king of one colour.
    pub fn king_moves(&self, color: Color, tables: &Tables) -> (moves: Vec<Move>)
        requires
            self.wf(),
            tables.wf(),
        ensures
            moves@ == self.moves_of(PieceType::King, color, 64),
    {
        self.generate(PieceType::King, color, tables)
    }

    /// The legal moves of the knights of one colour.
    pub fn knight_moves(&self, color: Color, tables: &Tables) -> (moves: Vec<Move>)
        requires
            self.wf(),
            tables.wf(),
        ensures
            moves@ == self.moves_of(PieceType::Knight, color, 64),
    {
        self.generate(PieceType::Knight, color, tables)
    }

    /// The legal moves of the rooks of one colour.
    pub fn rook_moves(&self, color: Color, tables: &Tables) -> (moves: Vec<Move>)
        requires
            self.wf(),
            tables.wf(),
        ensures
            moves@ == self.moves_of(PieceType::Rook, color, 64),
    {
        self.generate(PieceType::Rook, color, tables)
    }

    /// The legal moves of the bishops of one colour.
    pub fn bishop_moves(&self, color: Color, tables: &Tables) -> (moves: Vec<Move>)
        requires
            self.wf(),
            tables.wf(),
        ensures
            moves@ == self.moves_of(PieceType::Bishop, color, 64),
    {
        self.generate(PieceType::Bishop, color, tables)
    }

    /// The legal moves of the queens of one colour.
    pub fn queen_moves(&self, color: Color, tables: &Tables) -> (moves: Vec<Move>)
        requires
            self.wf(),
            tables.wf(),
        ensures
            moves@ == self.moves_of(PieceType::Queen, color, 64),
    {
        self.generate(PieceType::Queen, color, tables)
    }

    /// The legal moves of the pawns of one colour.
    pub fn pawn_moves(&self, color: Color, tables: &Tables) -> (moves: Vec<Move>)
        requires
            self.wf(),
            tables.wf(),
        ensures
            moves@ == self.moves_of(PieceType::Pawn, color, 64),
    {
        self.generate(PieceType::Pawn, color, tables)
    }

    /// Whether at least two pieces give check to the king of a colour.
    pub fn in_double_check(&self, color: Color) -> (r: bool)
        ensures
            r == self.double_check(color),
    {
        let checkers: u64 = self.masks.checkers_of(color);
        if checkers == 0 {
            proof {
                lemma_bit_consts();
            }
            return false;
        }
        let rest: u64 = without_lowest(checkers);
        proof {
            lemma_lowest(checkers);
            lemma_zero_iff_empty(rest);
            if rest != 0 {
                let b = choose|b: int| 0 <= b < 64 && bit(rest, b);
                assert(b != crate::bits::lowest(checkers) && bit(checkers, b) && bit(
                    checkers,
                    crate::bits::lowest(checkers),
                ));
            } else {
                assert forall|a: int, b: int|
                    !(a != b && bit(checkers, a) && bit(checkers, b)) by {
                    assert(bit(rest, a) == (bit(checkers, a) && a != crate::bits::lowest(
                        checkers,
                    )));
                    assert(bit(rest, b) == (bit(checkers, b) && b != crate::bits::lowest(
                        checkers,
                    )));
                }
            }
        }
        rest != 0
    }

    /// The legal moves of one colour: those of the king, then of the queens,
    /// rooks, bishops, knights and pawns, each group by the square the piece
    /// stands on and then by the square it goes to. In double check only the
    /// king moves. An empty list means that the colour is mated or
    /// stalemated: mated if a piece gives check, stalemated if none does.
    ///
    /// `lemma_legal_holds` says which moves the list holds, by the masks;
    /// `lemma_legal_moves_exact` says it by the rules of the game: the
    /// moves that follow the rules of movement and leave the king out of
    /// check, and the castles whose conditions hold; `lemma_legal_in_order`
    /// states the order.
    pub fn moves(&self, color: Color, tables: &Tables) -> (move_list: Vec<Move>)
        requires
            self.wf(),
            tables.wf(),
        ensures
            move_list@ == self.legal_moves(color),
    {
        let mut move_list: Vec<Move> = self.king_moves(color, tables);
        if !self.in_double_check(color) {
            let mut queen_moves: Vec<Move> = self.queen_moves(color, tables);
            let mut rook_moves: Vec<Move> = self.rook_moves(color, tables);
            let mut bishop_moves: Vec<Move> = self.bishop_moves(color, tables);
            let mut knight_moves: Vec<Move> = self.knight_moves(color, tables);
            let mut pawn_moves: Vec<Move> = self.pawn_moves(color, tables);
            move_list.append(&mut queen_moves);
            move_list.append(&mut rook_moves);
            move_list.append(&mut bishop_moves);
            move_list.append(&mut knight_moves);
            move_list.append(&mut pawn_moves);
        }
        move_list
    }
}

} // verus!
