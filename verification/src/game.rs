//! A game state: a position with the side to move, the castling rights, the
//! en-passant target and the move counters, together with everything that
//! is derived from them.

use vstd::prelude::*;
use vstd::pervasive::unreached;
use crate::bits::{bit, holds};
use crate::board::{between, lemma_square_parts, on_board, Color, PieceType};
use crate::lookup::Tables;
use crate::masks::Masks;
use crate::position::{described, king_only_on, one_king, Pieces};

verus! {

/// Why the parts handed to the constructor make no game state.
#[derive(Clone, Copy, Debug, PartialEq, Eq, Structural)]
pub enum StateError {
    /// The en-passant target is no square of the board.
    EnPassantOffBoard,
}

/// A game state. A value that has been built by this library is
/// well-formed in the sense of `GameState::wf`: everything derived in it
/// agrees with its position.
#[derive(Clone, Copy, Debug)]
pub struct GameState {
    pub pieces: Pieces,
    pub empty: u64,
    /// The rights White still holds: queenside, kingside.
    pub white_castling: (bool, bool),
    /// The rights Black still holds: queenside, kingside.
    pub black_castling: (bool, bool),
    /// Which castles can be played now: White's queenside and kingside, then
    /// Black's.
    pub legal_castling: (bool, bool, bool, bool),
    pub active_color: Color,
    pub halfmoves: usize,
    pub fullmoves: usize,
    pub en_passant: Option<usize>,
    pub masks: Masks,
    pub w_king_idx: usize,
    pub b_king_idx: usize,
}

/// The square on which the king of a colour starts.
pub open spec fn king_home(color: Color) -> int {
    match color {
        Color::White => 4,
        Color::Black => 60,
    }
}

/// The corner from which the rook of a castle starts.
pub open spec fn rook_home(color: Color, kingside: bool) -> int {
    if kingside {
        king_home(color) + 3
    } else {
        king_home(color) - 4
    }
}

/// The square next to the king's home that the king passes when it castles.
pub open spec fn castle_passes(color: Color, kingside: bool) -> int {
    if kingside {
        king_home(color) + 1
    } else {
        king_home(color) - 1
    }
}

/// The square on which the king lands when it castles.
pub open spec fn castle_target(color: Color, kingside: bool) -> int {
    if kingside {
        king_home(color) + 2
    } else {
        king_home(color) - 2
    }
}

/// Whether a castle can be played: the right is still held, king and rook
/// stand on their home squares, every square between them is empty, and the
/// other colour attacks neither the square the king passes nor the one it
/// lands on.
pub open spec fn can_castle(pieces: Pieces, color: Color, kingside: bool, right: bool) -> bool {
    &&& right
    &&& pieces.king_square(color) == king_home(color)
    &&& pieces.at(rook_home(color, kingside)) == Some((color, PieceType::Rook))
    &&& forall|sq: int|
        between(king_home(color), rook_home(color, kingside), sq) ==> pieces.at(sq) is None
    &&& !pieces.attacks(color.other(), pieces.empty_squares(), castle_passes(color, kingside))
    &&& !pieces.attacks(color.other(), pieces.empty_squares(), castle_target(color, kingside))
}

/// What stands on each square when a game begins.
pub open spec fn start_piece(sq: int) -> Option<(Color, PieceType)> {
    let back = if sq % 8 == 0 || sq % 8 == 7 {
        PieceType::Rook
    } else if sq % 8 == 1 || sq % 8 == 6 {
        PieceType::Knight
    } else if sq % 8 == 2 || sq % 8 == 5 {
        PieceType::Bishop
    } else if sq % 8 == 3 {
        PieceType::Queen
    } else {
        PieceType::King
    };
    if 0 <= sq < 8 {
        Some((Color::White, back))
    } else if 8 <= sq < 16 {
        Some((Color::White, PieceType::Pawn))
    } else if 48 <= sq < 56 {
        Some((Color::Black, PieceType::Pawn))
    } else if 56 <= sq < 64 {
        Some((Color::Black, back))
    } else {
        None
    }
}

/// Whether a castle can be played in a position whose masks are `masks`.
fn castle_flag(pieces: &Pieces, masks: &Masks, color: Color, kingside: bool, right: bool) -> (r:
    bool)
    requires
        pieces.wf(),
        masks.describes(*pieces),
    ensures
        r == can_castle(*pieces, color, kingside, right),
{
    let home: usize = match color {
        Color::White => 4,
        Color::Black => 60,
    };
    let ghost corner: int = rook_home(color, kingside);
    proof {
        pieces.lemma_occupied();
        assert forall|sq: int| between(home as int, corner, sq) == (if kingside {
            sq == home + 1 || sq == home + 2
        } else {
            sq == home - 1 || sq == home - 2 || sq == home - 3
        }) by {
            if on_board(sq) {
                lemma_square_parts(sq);
            }
        }
        assert(masks.describes_side(*pieces, color.other()));
    }
    if !right || pieces.king_index(color) != home {
        return false;
    }
    let empty: u64 = pieces.vacant();
    let attacked: u64 = masks.space_of(color.invert());
    if kingside {
        match pieces.piece_on(home + 3) {
            Some((c, PieceType::Rook)) => {
                if c != color {
                    return false;
                }
            },
            _ => {
                return false;
            },
        }
        proof {
            if bit(empty, home + 1) && bit(empty, home + 2) {
                assert forall|sq: int| between(home as int, corner, sq) implies pieces.at(sq)
                    is None by {}
            } else {
                assert(between(home as int, corner, home + 1));
                assert(between(home as int, corner, home + 2));
            }
        }
        holds(empty, home + 1) && holds(empty, home + 2) && !holds(attacked, home + 1) && !holds(
            attacked,
            home + 2,
        )
    } else {
        match pieces.piece_on(home - 4) {
            Some((c, PieceType::Rook)) => {
                if c != color {
                    return false;
                }
            },
            _ => {
                return false;
            },
        }
        proof {
            if bit(empty, home - 1) && bit(empty, home - 2) && bit(empty, home - 3) {
                assert forall|sq: int| between(home as int, corner, sq) implies pieces.at(sq)
                    is None by {}
            } else {
                assert(between(home as int, corner, home - 1));
                assert(between(home as int, corner, home - 2));
                assert(between(home as int, corner, home - 3));
            }
        }
        holds(empty, home - 1) && holds(empty, home - 2) && holds(empty, home - 3) && !holds(
            attacked,
            home - 1,
        ) && !holds(attacked, home - 2)
    }
}

impl GameState {
    /// Whether a castle can be played in this state.
    pub open spec fn castle_open(&self, color: Color, kingside: bool) -> bool {
        match (color, kingside) {
            (Color::White, false) => self.legal_castling.0,
            (Color::White, true) => self.legal_castling.1,
            (Color::Black, false) => self.legal_castling.2,
            (Color::Black, true) => self.legal_castling.3,
        }
    }

    /// Whether the right to a castle is still held.
    pub open spec fn castle_right(&self, color: Color, kingside: bool) -> bool {
        match (color, kingside) {
            (Color::White, false) => self.white_castling.0,
            (Color::White, true) => self.white_castling.1,
            (Color::Black, false) => self.black_castling.0,
            (Color::Black, true) => self.black_castling.1,
        }
    }

    /// Everything derived agrees with the position: the empty squares, the
    /// squares of the kings, every mask, and the four castles that can be
    /// played. The en-passant target, if there is one, is a square.
    pub open spec fn wf(&self) -> bool {
        &&& self.pieces.wf()
        &&& self.empty == self.pieces.empty_squares()
        &&& self.w_king_idx == self.pieces.king_square(Color::White)
        &&& self.b_king_idx == self.pieces.king_square(Color::Black)
        &&& self.masks.describes(self.pieces)
        &&& forall|color: Color, kingside: bool| #[trigger]
            self.castle_open(color, kingside) == can_castle(
                self.pieces,
                color,
                kingside,
                self.castle_right(color, kingside),
            )
        &&& self.en_passant matches Some(sq) ==> sq < 64
    }

    /// The state made of the given parts, with everything else derived from
    /// them. It fails only for an en-passant target off the board.
    pub fn new(
        pieces: Pieces,
        active_color: Color,
        white_castling: (bool, bool),
        black_castling: (bool, bool),
        en_passant: Option<usize>,
        halfmoves: usize,
        fullmoves: usize,
        tables: &Tables,
    ) -> (r: Result<GameState, StateError>)
        requires
            pieces.wf(),
            tables.wf(),
        ensures
            r is Ok == (en_passant matches Some(sq) ==> sq < 64),
            r matches Ok(s) ==> s.wf() && s.pieces == pieces && s.active_color == active_color
                && s.white_castling == white_castling && s.black_castling == black_castling
                && s.en_passant == en_passant && s.halfmoves == halfmoves && s.fullmoves
                == fullmoves,
    {
        match en_passant {
            Some(sq) => {
                if sq >= 64 {
                    return Err(StateError::EnPassantOffBoard);
                }
            },
            None => {},
        }
        let masks: Masks = Masks::compute(&pieces, tables);
        let legal_castling: (bool, bool, bool, bool) = (
            castle_flag(&pieces, &masks, Color::White, false, white_castling.0),
            castle_flag(&pieces, &masks, Color::White, true, white_castling.1),
            castle_flag(&pieces, &masks, Color::Black, false, black_castling.0),
            castle_flag(&pieces, &masks, Color::Black, true, black_castling.1),
        );
        Ok(
            GameState {
                pieces,
                empty: pieces.vacant(),
                white_castling,
                black_castling,
                legal_castling,
                active_color,
                halfmoves,
                fullmoves,
                en_passant,
                masks,
                w_king_idx: pieces.king_index(Color::White),
                b_king_idx: pieces.king_index(Color::Black),
            },
        )
    }

    /// The state in which a game begins: White to move, every castling
    /// right held, no en-passant target.
    pub fn default(tables: &Tables) -> (r: GameState)
        requires
            tables.wf(),
        ensures
            r.wf(),
            forall|sq: int| #[trigger] r.pieces.at(sq) == start_piece(sq),
            r.active_color == Color::White,
            r.white_castling == (true, true),
            r.black_castling == (true, true),
            r.en_passant is None,
            r.halfmoves == 0,
            r.fullmoves == 1,
    {
        let back: [PieceType; 8] = [
            PieceType::Rook,
            PieceType::Knight,
            PieceType::Bishop,
            PieceType::Queen,
            PieceType::King,
            PieceType::Bishop,
            PieceType::Knight,
            PieceType::Rook,
        ];
        let mut board: [Option<(Color, PieceType)>; 64] = [None;64];
        let mut file: usize = 0;
        while file < 8
            invariant
                file <= 8,
                back[0] == PieceType::Rook,
                back[1] == PieceType::Knight,
                back[2] == PieceType::Bishop,
                back[3] == PieceType::Queen,
                back[4] == PieceType::King,
                back[5] == PieceType::Bishop,
                back[6] == PieceType::Knight,
                back[7] == PieceType::Rook,
                forall|sq: int|
                    0 <= sq < 64 ==> #[trigger] board[sq] == (if sq % 8 < file {
                        start_piece(sq)
                    } else {
                        None
                    }),
            decreases 8 - file,
        {
            board[file] = Some((Color::White, back[file]));
            board[8 + file] = Some((Color::White, PieceType::Pawn));
            board[48 + file] = Some((Color::Black, PieceType::Pawn));
            board[56 + file] = Some((Color::Black, back[file]));
            file += 1;
        }
        proof {
            assert forall|sq: int| on_board(sq) implies ((#[trigger] board[sq] == Some(
                (Color::White, PieceType::King),
            )) == (sq == 4)) by {}
            assert(king_only_on(board, Color::White, 4));
            assert(one_king(board, Color::White));
            assert forall|sq: int| on_board(sq) implies ((#[trigger] board[sq] == Some(
                (Color::Black, PieceType::King),
            )) == (sq == 60)) by {}
            assert(king_only_on(board, Color::Black, 60));
            assert(one_king(board, Color::Black));
        }
        match Pieces::new(&board) {
            Ok(pieces) => {
                proof {
                    assert forall|sq: int| #[trigger] pieces.at(sq) == start_piece(sq) by {
                        assert(pieces.at(sq) == described(board, sq));
                    }
                }
                match GameState::new(
                    pieces,
                    Color::White,
                    (true, true),
                    (true, true),
                    None,
                    0,
                    1,
                    tables,
                ) {
                    Ok(state) => state,
                    Err(_) => unreached(),
                }
            },
            Err(_) => unreached(),
        }
    }
}

} // verus!
