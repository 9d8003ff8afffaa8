//! Playing a move: the successor of a state.
//!
//! Nothing is patched: the pieces are moved, the rights and the en-passant
//! target are brought up to date, and everything derived is computed afresh
//! for the new position.

use vstd::prelude::*;
use vstd::pervasive::unreached;
use crate::bits::{bit, lemma_bit_ops, lemma_zero_iff_empty};
use crate::board::{lemma_square_parts, on_board, pawn_reach, rank_of, reaches, Color, PieceType};
use crate::game::{castle_passes, king_home, rook_home, GameState};
use crate::lookup::Tables;
use crate::masks::leaper_hits;
use crate::movegen::{forward, pawn_rank, Move};
use crate::position::Pieces;

verus! {

impl GameState {
    /// Whether a move can be played at all: it takes a piece of its colour
    /// from one square of the board to another, it takes no king, and it
    /// promotes pawns only.
    pub open spec fn playable(&self, m: Move) -> bool {
        &&& m.from < 64
        &&& m.to < 64
        &&& m.from != m.to
        &&& self.pieces.at(m.from as int) matches Some(p) && p.0 == m.piece_color && (
        m.promoted_piece is Some ==> p.1 == PieceType::Pawn)
        &&& !(self.pieces.at(m.to as int) matches Some(x) && x.1 == PieceType::King)
    }

    /// The type of the piece that a move moves.
    pub open spec fn mover(&self, m: Move) -> PieceType {
        match self.pieces.at(m.from as int) {
            Some((_, kind)) => kind,
            None => PieceType::Pawn,
        }
    }

    /// Whether a move is a capture en passant: a pawn goes to the empty
    /// en-passant target, which it attacks, and an enemy pawn stands behind
    /// the target.
    pub open spec fn takes_en_passant(&self, m: Move) -> bool {
        &&& self.mover(m) == PieceType::Pawn
        &&& self.en_passant == Some(m.to)
        &&& self.pieces.at(m.to as int) is None
        &&& pawn_reach(m.piece_color, m.from as int, m.to as int)
        &&& self.pieces.at(m.to - forward(m.piece_color)) == Some(
            (m.piece_color.other(), PieceType::Pawn),
        )
    }

    /// Whether a move is a castle to the given side: the king goes two
    /// squares from its home towards a rook of its colour in the corner,
    /// over an empty square.
    pub open spec fn castles(&self, m: Move, kingside: bool) -> bool {
        let color = m.piece_color;
        &&& self.mover(m) == PieceType::King
        &&& m.from == king_home(color)
        &&& m.to == (if kingside { m.from + 2 } else { m.from - 2 })
        &&& self.pieces.at(rook_home(color, kingside)) == Some((color, PieceType::Rook))
        &&& self.pieces.at(castle_passes(color, kingside)) is None
    }

    /// What stands on `sq` once the move is played. The piece leaves its
    /// square and lands on the target as what it was, or as what it
    /// promotes to; whatever stood on the target is gone. A capture en
    /// passant also removes the pawn behind the target, and a castle also
    /// brings the rook from its corner to the square the king passed.
    pub open spec fn piece_after(&self, m: Move, sq: int) -> Option<(Color, PieceType)> {
        let color = m.piece_color;
        let landed = match m.promoted_piece {
            Some(p) => p.piece(),
            None => self.mover(m),
        };
        if sq == m.to {
            Some((color, landed))
        } else if sq == m.from {
            None
        } else if self.takes_en_passant(m) && sq == m.to - forward(color) {
            None
        } else if self.castles(m, true) && sq == rook_home(color, true) {
            None
        } else if self.castles(m, true) && sq == castle_passes(color, true) {
            Some((color, PieceType::Rook))
        } else if self.castles(m, false) && sq == rook_home(color, false) {
            None
        } else if self.castles(m, false) && sq == castle_passes(color, false) {
            Some((color, PieceType::Rook))
        } else {
            self.pieces.at(sq)
        }
    }

    /// Whether a move takes the rook of a castle away from its corner: the
    /// rook of that colour leaves the corner, or is taken on it.
    pub open spec fn unseats_rook(&self, m: Move, color: Color, kingside: bool) -> bool {
        let corner = rook_home(color, kingside);
        (m.from == corner || m.to == corner) && self.pieces.at(corner) == Some(
            (color, PieceType::Rook),
        )
    }

    /// Whether a castling right is still held once the move is played. A
    /// right is lost for good when the king of its colour moves, when the
    /// rook of its colour leaves its corner, and when that rook is taken on
    /// its corner. No other move touches it: a right that is not held stays
    /// so, and a right that is held is kept.
    pub open spec fn right_after(&self, m: Move, color: Color, kingside: bool) -> bool {
        self.castle_right(color, kingside) && !(self.mover(m) == PieceType::King && m.piece_color
            == color) && !self.unseats_rook(m, color, kingside)
    }

    /// The en-passant target once the move is played: the square a pawn
    /// passed on a double step from its starting rank, if an enemy pawn
    /// attacks that square.
    pub open spec fn en_passant_after(&self, m: Move) -> Option<usize> {
        let color = m.piece_color;
        let passed = m.from + forward(color);
        if self.mover(m) == PieceType::Pawn && rank_of(m.from as int) == pawn_rank(color) && m.to
            == m.from + 2 * forward(color) && leaper_hits(
            self.pieces.board(color.other(), PieceType::Pawn),
            PieceType::Pawn,
            Some(color.other()),
            passed,
        ) {
            Some(passed as usize)
        } else {
            None
        }
    }

    /// Whether `next` is the state that the move leads to. The other colour
    /// is to move; the two counters are carried over as they are, since no
    /// rule of this library reads them.
    pub open spec fn leads_to(&self, m: Move, next: GameState) -> bool {
        &&& next.wf()
        &&& forall|sq: int| #[trigger] next.pieces.at(sq) == self.piece_after(m, sq)
        &&& next.active_color == m.piece_color.other()
        &&& forall|color: Color, kingside: bool| #[trigger]
            next.castle_right(color, kingside) == self.right_after(m, color, kingside)
        &&& next.en_passant == self.en_passant_after(m)
        &&& next.halfmoves == self.halfmoves
        &&& next.fullmoves == self.fullmoves
    }

    /// Whether a move can be played at all: whether `apply_move` takes it.
    pub fn is_playable(&self, m: Move) -> (r: bool)
        ensures
            r == self.playable(m),
    {
        if m.from >= 64 || m.to >= 64 || m.from == m.to {
            return false;
        }
        match self.pieces.piece_on(m.to) {
            Some((_, PieceType::King)) => {
                return false;
            },
            _ => {},
        }
        match self.pieces.piece_on(m.from) {
            Some((color, kind)) => {
                let promotes: bool = match m.promoted_piece {
                    Some(_) => true,
                    None => false,
                };
                let pawn: bool = match kind {
                    PieceType::Pawn => true,
                    _ => false,
                };
                color == m.piece_color && (!promotes || pawn)
            },
            None => false,
        }
    }

    /// The placement of the pieces once the move is played.
    fn pieces_after(&self, m: Move) -> (r: Pieces)
        requires
            self.wf(),
            self.playable(m),
        ensures
            r.wf(),
            forall|sq: int| #[trigger] r.at(sq) == self.piece_after(m, sq),
    {
        let color: Color = m.piece_color;
        let enemy: Color = color.invert();
        let kind: PieceType = match self.pieces.piece_on(m.from) {
            Some((_, kind)) => kind,
            None => unreached(),
        };
        let landed: PieceType = match m.promoted_piece {
            Some(p) => p.to_piece(),
            None => kind,
        };
        let mut pieces: Pieces = self.pieces.without(m.from).without(m.to).with_piece(
            m.to,
            color,
            landed,
        );
        let is_pawn: bool = match kind {
            PieceType::Pawn => true,
            _ => false,
        };
        let is_king: bool = match kind {
            PieceType::King => true,
            _ => false,
        };
        proof {
            lemma_square_parts(m.from as int);
            lemma_square_parts(m.to as int);
        }
        if is_pawn {
            let target: bool = match self.en_passant {
                Some(sq) => sq == m.to,
                None => false,
            };
            let vacant: bool = match self.pieces.piece_on(m.to) {
                None => true,
                Some(_) => false,
            };
            let from_rank: usize = m.from / 8;
            let to_rank: usize = m.to / 8;
            let from_file: usize = m.from % 8;
            let to_file: usize = m.to % 8;
            let forward_one: bool = match color {
                Color::White => to_rank == from_rank + 1,
                Color::Black => to_rank + 1 == from_rank,
            };
            let beside: bool = to_file == from_file + 1 || to_file + 1 == from_file;
            if target && vacant && forward_one && beside {
                let victim: usize = match color {
                    Color::White => m.to - 8,
                    Color::Black => m.to + 8,
                };
                let taken: bool = match self.pieces.piece_on(victim) {
                    Some((c, PieceType::Pawn)) => c == enemy,
                    _ => false,
                };
                if taken {
                    pieces = pieces.without(victim);
                }
            }
        }
        if is_king {
            let home: usize = match color {
                Color::White => 4,
                Color::Black => 60,
            };
            if m.from == home && m.to == home + 2 {
                let rook: bool = match self.pieces.piece_on(home + 3) {
                    Some((c, PieceType::Rook)) => c == color,
                    _ => false,
                };
                let vacant: bool = match self.pieces.piece_on(home + 1) {
                    None => true,
                    Some(_) => false,
                };
                if rook && vacant {
                    pieces = pieces.without(home + 3).with_piece(home + 1, color, PieceType::Rook);
                }
            } else if m.from == home && m.to + 2 == home {
                let rook: bool = match self.pieces.piece_on(home - 4) {
                    Some((c, PieceType::Rook)) => c == color,
                    _ => false,
                };
                let vacant: bool = match self.pieces.piece_on(home - 1) {
                    None => true,
                    Some(_) => false,
                };
                if rook && vacant {
                    pieces = pieces.without(home - 4).with_piece(home - 1, color, PieceType::Rook);
                }
            }
        }
        proof {
            assert forall|sq: int| #[trigger] pieces.at(sq) == self.piece_after(m, sq) by {}
            self.lemma_kings_after(m, pieces);
        }
        pieces
    }

    /// After a playable move each colour still has exactly one king.
    proof fn lemma_kings_after(&self, m: Move, next: Pieces)
        requires
            self.wf(),
            self.playable(m),
            next.consistent(),
            forall|sq: int| #[trigger] next.at(sq) == self.piece_after(m, sq),
        ensures
            next.wf(),
    {
        self.pieces.lemma_king(Color::White);
        self.pieces.lemma_king(Color::Black);
        let mover = m.piece_color;
        let kind = self.mover(m);
        assert forall|color: Color|
            crate::bits::only(
                next.board(color, PieceType::King),
                #[trigger] next.king_square(color),
            ) by {
            let old_k = self.pieces.king_square(color);
            let new_k = if color == mover && kind == PieceType::King {
                m.to as int
            } else {
                old_k
            };
            assert(self.pieces.at(m.from as int) is Some);
            assert forall|sq: int|
                bit(next.board(color, PieceType::King), sq) == (sq == new_k) by {
                assert(bit(next.board(color, PieceType::King), sq) == (next.at(sq) == Some(
                    (color, PieceType::King),
                )));
                assert(next.at(sq) == self.piece_after(m, sq));
                assert(bit(self.pieces.board(color, PieceType::King), sq) == (self.pieces.at(sq)
                    == Some((color, PieceType::King))));
                assert(bit(self.pieces.board(color, PieceType::King), m.from as int) == (
                self.pieces.at(m.from as int) == Some((color, PieceType::King))));
            }
            assert(crate::bits::only(next.board(color, PieceType::King), new_k));
            crate::bits::lemma_only(next.board(color, PieceType::King), new_k);
        }
        assert(next.board(Color::White, PieceType::King) == next.w_king);
        assert(next.board(Color::Black, PieceType::King) == next.b_king);
        assert(crate::bits::only(
            next.board(Color::White, PieceType::King),
            next.king_square(Color::White),
        ));
        assert(crate::bits::only(
            next.board(Color::Black, PieceType::King),
            next.king_square(Color::Black),
        ));
    }

    /// Whether a move from `from` to `to` takes the rook of colour `color`
    /// away from the corner `corner`: that rook stands on the corner, and
    /// the move starts or ends there.
    fn rook_unseated(&self, from: usize, to: usize, color: Color, corner: usize) -> (r: bool)
        requires
            corner < 64,
        ensures
            r == ((from == corner || to == corner) && self.pieces.at(corner as int) == Some(
                (color, PieceType::Rook),
            )),
    {
        if from != corner && to != corner {
            return false;
        }
        match self.pieces.piece_on(corner) {
            Some((c, PieceType::Rook)) => c == color,
            _ => false,
        }
    }

    /// The state that a move leads to. The move is not tested for
    /// legality: it only has to be playable, as every legal move is
    /// (`lemma_legal_playable`). Everything derived is computed afresh, so
    /// the state that comes out is well-formed and ready for the next move.
    pub fn apply_move(&self, piece_move: Move, tables: &Tables) -> (next: GameState)
        requires
            self.wf(),
            tables.wf(),
            self.playable(piece_move),
        ensures
            self.leads_to(piece_move, next),
    {
        let color: Color = piece_move.piece_color;
        let enemy: Color = color.invert();
        let from: usize = piece_move.from;
        let to: usize = piece_move.to;
        let kind: PieceType = match self.pieces.piece_on(from) {
            Some((_, kind)) => kind,
            None => unreached(),
        };
        let pieces: Pieces = self.pieces_after(piece_move);
        let king_moved: bool = match kind {
            PieceType::King => true,
            _ => false,
        };
        let white_king: bool = king_moved && color == Color::White;
        let black_king: bool = king_moved && color == Color::Black;
        let white_castling: (bool, bool) = (
            self.white_castling.0 && !white_king && !self.rook_unseated(from, to, Color::White, 0),
            self.white_castling.1 && !white_king && !self.rook_unseated(from, to, Color::White, 7),
        );
        let black_castling: (bool, bool) = (
            self.black_castling.0 && !black_king && !self.rook_unseated(from, to, Color::Black, 56),
            self.black_castling.1 && !black_king && !self.rook_unseated(from, to, Color::Black, 63),
        );
        let mut en_passant: Option<usize> = None;
        let is_pawn: bool = match kind {
            PieceType::Pawn => true,
            _ => false,
        };
        proof {
            lemma_square_parts(from as int);
        }
        if is_pawn {
            let double: Option<usize> = match color {
                Color::White => if from / 8 == 1 && to == from + 16 {
                    Some(from + 8)
                } else {
                    None
                },
                Color::Black => if from / 8 == 6 && to + 16 == from {
                    Some(from - 8)
                } else {
                    None
                },
            };
            match double {
                Some(passed) => {
                    let row: u64 = match color {
                        Color::White => tables.white_pawn[passed],
                        Color::Black => tables.black_pawn[passed],
                    };
                    let theirs: u64 = self.pieces.bitboard(enemy, PieceType::Pawn);
                    proof {
                        lemma_bit_ops(row, theirs);
                        lemma_zero_iff_empty(row & theirs);
                        lemma_square_parts(passed as int);
                        assert forall|sq: int|
                            bit(row, sq) == pawn_reach(enemy, sq, passed as int) by {
                            assert(bit(tables.white_pawn@[passed as int], sq) == reaches(
                                PieceType::Pawn,
                                Some(Color::White),
                                passed as int,
                                sq,
                            ));
                            assert(bit(tables.black_pawn@[passed as int], sq) == reaches(
                                PieceType::Pawn,
                                Some(Color::Black),
                                passed as int,
                                sq,
                            ));
                            if on_board(sq) {
                                lemma_square_parts(sq);
                            }
                        }
                        if row & theirs != 0 {
                            let sq = choose|sq: int| 0 <= sq < 64 && bit(row & theirs, sq);
                            assert(bit(theirs, sq) && reaches(
                                PieceType::Pawn,
                                Some(enemy),
                                sq,
                                passed as int,
                            ));
                        }
                        if leaper_hits(theirs, PieceType::Pawn, Some(enemy), passed as int) {
                            let sq = choose|sq: int|
                                bit(theirs, sq) && reaches(
                                    PieceType::Pawn,
                                    Some(enemy),
                                    sq,
                                    passed as int,
                                );
                            assert(bit(row & theirs, sq));
                        }
                    }
                    if row & theirs != 0 {
                        en_passant = Some(passed);
                    }
                },
                None => {},
            }
        }
        match GameState::new(
            pieces,
            enemy,
            white_castling,
            black_castling,
            en_passant,
            self.halfmoves,
            self.fullmoves,
            tables,
        ) {
            Ok(next) => next,
            Err(_) => unreached(),
        }
    }
}

impl GameState {
    /// Everything in a state follows from the pieces, the side to move, the
    /// castling rights, the en-passant target and the counters.
    pub proof fn lemma_determined(&self, other: GameState)
        requires
            self.wf(),
            other.wf(),
            forall|sq: int| #[trigger] self.pieces.at(sq) == other.pieces.at(sq),
            self.active_color == other.active_color,
            forall|color: Color, kingside: bool| #[trigger]
                self.castle_right(color, kingside) == other.castle_right(color, kingside),
            self.en_passant == other.en_passant,
            self.halfmoves == other.halfmoves,
            self.fullmoves == other.fullmoves,
        ensures
            *self == other,
    {
        self.pieces.lemma_determined(other.pieces);
        self.masks.lemma_determined(other.masks, self.pieces);
        assert(self.castle_right(Color::White, false) == other.castle_right(Color::White, false));
        assert(self.castle_right(Color::White, true) == other.castle_right(Color::White, true));
        assert(self.castle_right(Color::Black, false) == other.castle_right(Color::Black, false));
        assert(self.castle_right(Color::Black, true) == other.castle_right(Color::Black, true));
        assert(self.castle_open(Color::White, false) == other.castle_open(Color::White, false));
        assert(self.castle_open(Color::White, true) == other.castle_open(Color::White, true));
        assert(self.castle_open(Color::Black, false) == other.castle_open(Color::Black, false));
        assert(self.castle_open(Color::Black, true) == other.castle_open(Color::Black, true));
    }

    /// The state that a playable move leads to.
    pub open spec fn after(&self, m: Move) -> GameState {
        choose|next: GameState| self.leads_to(m, next)
    }

    /// A move leads to one state.
    pub proof fn lemma_after(&self, m: Move, next: GameState)
        requires
            self.leads_to(m, next),
        ensures
            next == self.after(m),
    {
        let chosen = self.after(m);
        assert(self.leads_to(m, chosen));
        assert forall|sq: int| #[trigger] next.pieces.at(sq) == chosen.pieces.at(sq) by {
            assert(next.pieces.at(sq) == self.piece_after(m, sq));
            assert(chosen.pieces.at(sq) == self.piece_after(m, sq));
        }
        assert forall|color: Color, kingside: bool| #[trigger]
            next.castle_right(color, kingside) == chosen.castle_right(color, kingside) by {
            assert(next.castle_right(color, kingside) == self.right_after(m, color, kingside));
            assert(chosen.castle_right(color, kingside) == self.right_after(m, color, kingside));
        }
        next.lemma_determined(chosen);
    }
}

impl GameState {
    /// What a move does to the castling rights. A move of the king takes
    /// both rights of its colour. A move of a rook from its corner, and the
    /// capture of a rook on its corner, take the right of that corner. A
    /// right that was not held is not held afterwards. Every other right is
    /// as it was.
    pub proof fn lemma_rights_after(&self, m: Move, next: GameState, color: Color, kingside: bool)
        requires
            self.leads_to(m, next),
        ensures
            self.mover(m) == PieceType::King && m.piece_color == color ==> !next.castle_right(
                color,
                kingside,
            ),
            m.from == rook_home(color, kingside) && self.pieces.at(m.from as int) == Some(
                (color, PieceType::Rook),
            ) ==> !next.castle_right(color, kingside),
            m.to == rook_home(color, kingside) && self.pieces.at(m.to as int) == Some(
                (color, PieceType::Rook),
            ) ==> !next.castle_right(color, kingside),
            !self.castle_right(color, kingside) ==> !next.castle_right(color, kingside),
            !(self.mover(m) == PieceType::King && m.piece_color == color) && self.pieces.at(
                rook_home(color, kingside),
            ) != Some((color, PieceType::Rook)) ==> next.castle_right(color, kingside)
                == self.castle_right(color, kingside),
            !(self.mover(m) == PieceType::King && m.piece_color == color) && m.from != rook_home(
                color,
                kingside,
            ) && m.to != rook_home(color, kingside) ==> next.castle_right(color, kingside)
                == self.castle_right(color, kingside),
    {
        assert(next.castle_right(color, kingside) == self.right_after(m, color, kingside));
    }
}

} // verus!
