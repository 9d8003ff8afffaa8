//! The placement of the pieces: one bitboard for each colour and piece type,
//! the two unions, and two per-square arrays that answer what stands on a
//! square without a search.

use vstd::prelude::*;
use crate::bits::{
    bit, is_single, lemma_bit_consts, lemma_bit_ops, lemma_bits_equal, lemma_zero_iff_empty, lowest,
    only, square,
};
use crate::board::{on_board, Color, PieceType};

verus! {

/// Why a board description is not a position.
#[derive(Clone, Copy, Debug, PartialEq, Eq, Structural)]
pub enum PositionError {
    /// White does not have exactly one king.
    WhiteKing,
    /// Black does not have exactly one king.
    BlackKing,
}

/// The placement of the pieces. A value that has been built by this library
/// is consistent in the sense of `Pieces::consistent`.
#[derive(Clone, Copy, Debug)]
pub struct Pieces {
    pub w_king: u64,
    pub w_queen: u64,
    pub w_rook: u64,
    pub w_bishop: u64,
    pub w_knight: u64,
    pub w_pawn: u64,
    pub b_king: u64,
    pub b_queen: u64,
    pub b_rook: u64,
    pub b_bishop: u64,
    pub b_knight: u64,
    pub b_pawn: u64,
    pub white_pieces: u64,
    pub black_pieces: u64,
    pub color_lookup: [Option<Color>; 64],
    pub piece_type_lookup: [Option<PieceType>; 64],
}

/// What a board description holds on square `sq`.
pub open spec fn described(board: [Option<(Color, PieceType)>; 64], sq: int) -> Option<
    (Color, PieceType),
> {
    if on_board(sq) {
        board[sq]
    } else {
        None
    }
}

/// Whether the description has exactly one king of the given colour.
pub open spec fn one_king(board: [Option<(Color, PieceType)>; 64], color: Color) -> bool {
    exists|k: int| king_only_on(board, color, k)
}

/// Whether the description has the king of the given colour on `k` and
/// nowhere else.
pub open spec fn king_only_on(
    board: [Option<(Color, PieceType)>; 64],
    color: Color,
    k: int,
) -> bool {
    on_board(k) && forall|sq: int|
        on_board(sq) ==> ((#[trigger] board[sq] == Some((color, PieceType::King))) == (sq == k))
}

impl Pieces {
    /// What stands on square `sq`.
    pub open spec fn at(&self, sq: int) -> Option<(Color, PieceType)> {
        if on_board(sq) {
            match (self.color_lookup[sq], self.piece_type_lookup[sq]) {
                (Some(c), Some(p)) => Some((c, p)),
                _ => None,
            }
        } else {
            None
        }
    }

    /// The bitboard of the pieces of one colour and type.
    pub open spec fn board(&self, color: Color, piece: PieceType) -> u64 {
        match (color, piece) {
            (Color::White, PieceType::King) => self.w_king,
            (Color::White, PieceType::Queen) => self.w_queen,
            (Color::White, PieceType::Rook) => self.w_rook,
            (Color::White, PieceType::Bishop) => self.w_bishop,
            (Color::White, PieceType::Knight) => self.w_knight,
            (Color::White, PieceType::Pawn) => self.w_pawn,
            (Color::Black, PieceType::King) => self.b_king,
            (Color::Black, PieceType::Queen) => self.b_queen,
            (Color::Black, PieceType::Rook) => self.b_rook,
            (Color::Black, PieceType::Bishop) => self.b_bishop,
            (Color::Black, PieceType::Knight) => self.b_knight,
            (Color::Black, PieceType::Pawn) => self.b_pawn,
        }
    }

    /// The bitboard of all pieces of one colour.
    pub open spec fn occupied(&self, color: Color) -> u64 {
        match color {
            Color::White => self.white_pieces,
            Color::Black => self.black_pieces,
        }
    }

    /// The square of the king of one colour.
    pub open spec fn king_square(&self, color: Color) -> int {
        lowest(self.board(color, PieceType::King))
    }

    /// The bitboards and the per-square arrays tell the same story: a square
    /// is in the bitboard of a colour and type exactly when the arrays hold
    /// that colour and type for it, and in the union of a colour exactly when
    /// the arrays hold that colour. So no square is in two of the twelve
    /// bitboards, and each union is the union of its six.
    pub open spec fn consistent(&self) -> bool {
        &&& forall|sq: int, c: Color, p: PieceType| #[trigger]
            bit(self.board(c, p), sq) == (self.at(sq) == Some((c, p)))
        &&& forall|sq: int, c: Color| #[trigger]
            bit(self.occupied(c), sq) == (self.at(sq) matches Some(x) && x.0 == c)
        &&& forall|sq: int|
            on_board(sq) ==> ((#[trigger] self.color_lookup[sq] is Some)
                == (self.piece_type_lookup[sq] is Some))
    }

    /// A position: consistent, with exactly one king of each colour.
    pub open spec fn wf(&self) -> bool {
        &&& self.consistent()
        &&& only(self.w_king, self.king_square(Color::White))
        &&& only(self.b_king, self.king_square(Color::Black))
    }

    /// The position that a board description describes, if it has exactly
    /// one king of each colour.
    pub fn new(board: &[Option<(Color, PieceType)>; 64]) -> (r: Result<Pieces, PositionError>)
        ensures
            match r {
                Ok(p) => p.wf() && one_king(*board, Color::White) && one_king(
                    *board,
                    Color::Black,
                ) && forall|sq: int| #[trigger] p.at(sq) == described(*board, sq),
                Err(PositionError::WhiteKing) => !one_king(*board, Color::White),
                Err(PositionError::BlackKing) => one_king(*board, Color::White) && !one_king(
                    *board,
                    Color::Black,
                ),
            },
    {
        let mut pieces: Pieces = Pieces::empty();
        let mut idx: usize = 0;
        while idx < 64
            invariant
                idx <= 64,
                pieces.consistent(),
                forall|sq: int| #[trigger]
                    pieces.at(sq) == (if sq < idx {
                        described(*board, sq)
                    } else {
                        None
                    }),
            decreases 64 - idx,
        {
            match board[idx] {
                Some((color, piece)) => {
                    pieces = pieces.with_piece(idx, color, piece);
                },
                None => {},
            }
            idx += 1;
        }
        proof {
            pieces.lemma_kings_described(*board, Color::White);
            pieces.lemma_kings_described(*board, Color::Black);
            assert(pieces.board(Color::White, PieceType::King) == pieces.w_king);
            assert(pieces.board(Color::Black, PieceType::King) == pieces.b_king);
        }
        if !is_single(pieces.w_king) {
            return Err(PositionError::WhiteKing);
        }
        if !is_single(pieces.b_king) {
            return Err(PositionError::BlackKing);
        }
        Ok(pieces)
    }

    /// A placement that holds what a description holds has one king of a
    /// colour exactly when the description has.
    proof fn lemma_kings_described(&self, board: [Option<(Color, PieceType)>; 64], color: Color)
        requires
            self.consistent(),
            forall|sq: int| #[trigger] self.at(sq) == described(board, sq),
        ensures
            one_king(board, color) == exists|k: int| only(self.board(color, PieceType::King), k),
    {
        let kings = self.board(color, PieceType::King);
        assert forall|sq: int| on_board(sq) implies (#[trigger] board[sq] == Some(
            (color, PieceType::King),
        )) == bit(kings, sq) by {
            assert(self.at(sq) == described(board, sq));
            assert(bit(self.board(color, PieceType::King), sq) == (self.at(sq) == Some(
                (color, PieceType::King),
            )));
        }
        if one_king(board, color) {
            let k = choose|k: int| king_only_on(board, color, k);
            assert forall|i: int| bit(kings, i) == (i == k) by {
                if on_board(i) {
                    assert((board[i] == Some((color, PieceType::King))) == (i == k));
                }
            }
            assert(only(kings, k));
        }
        if exists|k: int| only(kings, k) {
            let k = choose|k: int| only(kings, k);
            assert forall|sq: int| on_board(sq) implies ((#[trigger] board[sq] == Some(
                (color, PieceType::King),
            )) == (sq == k)) by {
                assert(bit(kings, sq) == (sq == k));
            }
            assert(king_only_on(board, color, k));
            assert(one_king(board, color));
        }
    }

    /// The board with nothing on it.
    pub fn empty() -> (r: Pieces)
        ensures
            r.consistent(),
            forall|sq: int| r.at(sq) is None,
    {
        proof {
            lemma_bit_consts();
        }
        Pieces {
            w_king: 0,
            w_queen: 0,
            w_rook: 0,
            w_bishop: 0,
            w_knight: 0,
            w_pawn: 0,
            b_king: 0,
            b_queen: 0,
            b_rook: 0,
            b_bishop: 0,
            b_knight: 0,
            b_pawn: 0,
            white_pieces: 0,
            black_pieces: 0,
            color_lookup: [None;64],
            piece_type_lookup: [None;64],
        }
    }

    /// The bitboard of the pieces of one colour and type.
    pub fn bitboard(&self, color: Color, piece: PieceType) -> (r: u64)
        ensures
            r == self.board(color, piece),
    {
        match (color, piece) {
            (Color::White, PieceType::King) => self.w_king,
            (Color::White, PieceType::Queen) => self.w_queen,
            (Color::White, PieceType::Rook) => self.w_rook,
            (Color::White, PieceType::Bishop) => self.w_bishop,
            (Color::White, PieceType::Knight) => self.w_knight,
            (Color::White, PieceType::Pawn) => self.w_pawn,
            (Color::Black, PieceType::King) => self.b_king,
            (Color::Black, PieceType::Queen) => self.b_queen,
            (Color::Black, PieceType::Rook) => self.b_rook,
            (Color::Black, PieceType::Bishop) => self.b_bishop,
            (Color::Black, PieceType::Knight) => self.b_knight,
            (Color::Black, PieceType::Pawn) => self.b_pawn,
        }
    }

    /// The bitboard of all pieces of one colour.
    pub fn side(&self, color: Color) -> (r: u64)
        ensures
            r == self.occupied(color),
    {
        match color {
            Color::White => self.white_pieces,
            Color::Black => self.black_pieces,
        }
    }

    /// What stands on square `sq`.
    pub fn piece_on(&self, sq: usize) -> (r: Option<(Color, PieceType)>)
        requires
            sq < 64,
        ensures
            r == self.at(sq as int),
    {
        match (self.color_lookup[sq], self.piece_type_lookup[sq]) {
            (Some(c), Some(p)) => Some((c, p)),
            _ => None,
        }
    }

    /// The same placement with the bitboard of one colour and type replaced.
    fn with_bitboard(&self, color: Color, piece: PieceType, bitboard: u64) -> (r: Pieces)
        ensures
            r.board(color, piece) == bitboard,
            forall|c: Color, p: PieceType|
                c != color || p != piece ==> #[trigger] r.board(c, p) == self.board(c, p),
            r.white_pieces == self.white_pieces,
            r.black_pieces == self.black_pieces,
            r.color_lookup == self.color_lookup,
            r.piece_type_lookup == self.piece_type_lookup,
    {
        let mut r: Pieces = *self;
        match (color, piece) {
            (Color::White, PieceType::King) => r.w_king = bitboard,
            (Color::White, PieceType::Queen) => r.w_queen = bitboard,
            (Color::White, PieceType::Rook) => r.w_rook = bitboard,
            (Color::White, PieceType::Bishop) => r.w_bishop = bitboard,
            (Color::White, PieceType::Knight) => r.w_knight = bitboard,
            (Color::White, PieceType::Pawn) => r.w_pawn = bitboard,
            (Color::Black, PieceType::King) => r.b_king = bitboard,
            (Color::Black, PieceType::Queen) => r.b_queen = bitboard,
            (Color::Black, PieceType::Rook) => r.b_rook = bitboard,
            (Color::Black, PieceType::Bishop) => r.b_bishop = bitboard,
            (Color::Black, PieceType::Knight) => r.b_knight = bitboard,
            (Color::Black, PieceType::Pawn) => r.b_pawn = bitboard,
        }
        r
    }

    /// The same placement with square `sq` emptied.
    pub fn without(&self, sq: usize) -> (r: Pieces)
        requires
            self.consistent(),
            sq < 64,
        ensures
            r.consistent(),
            forall|s: int| #[trigger] r.at(s) == (if s == sq { None } else { self.at(s) }),
    {
        match self.piece_on(sq) {
            None => *self,
            Some((color, piece)) => {
                let only: u64 = square(sq);
                let keep: u64 = !only;
                let old_board: u64 = self.bitboard(color, piece);
                proof {
                    lemma_bit_ops(only, only);
                    lemma_bit_ops(old_board, keep);
                    lemma_bit_ops(self.white_pieces, keep);
                    lemma_bit_ops(self.black_pieces, keep);
                }
                let base: Pieces = self.with_bitboard(color, piece, old_board & keep);
                let mut r: Pieces = base;
                match color {
                    Color::White => r.white_pieces = r.white_pieces & keep,
                    Color::Black => r.black_pieces = r.black_pieces & keep,
                }
                r.color_lookup[sq] = None;
                r.piece_type_lookup[sq] = None;
                proof {
                    assert forall|s: int| #[trigger] r.at(s) == (if s == sq {
                        None
                    } else {
                        self.at(s)
                    }) by {}
                    assert forall|s: int, c: Color, p: PieceType| #[trigger]
                        bit(r.board(c, p), s) == (r.at(s) == Some((c, p))) by {
                        assert(r.board(c, p) == base.board(c, p));
                        assert(bit(self.board(c, p), s) == (self.at(s) == Some((c, p))));
                    }
                    assert forall|s: int, c: Color| #[trigger]
                        bit(r.occupied(c), s) == (r.at(s) matches Some(x) && x.0 == c) by {
                        assert(bit(self.occupied(c), s) == (self.at(s) matches Some(x) && x.0
                            == c));
                    }
                }
                r
            },
        }
    }

    /// The same placement with a piece put on the empty square `sq`.
    pub fn with_piece(&self, sq: usize, color: Color, piece: PieceType) -> (r: Pieces)
        requires
            self.consistent(),
            sq < 64,
            self.at(sq as int) is None,
        ensures
            r.consistent(),
            forall|s: int| #[trigger]
                r.at(s) == (if s == sq {
                    Some((color, piece))
                } else {
                    self.at(s)
                }),
    {
        let add: u64 = square(sq);
        let old_board: u64 = self.bitboard(color, piece);
        proof {
            lemma_bit_ops(old_board, add);
            lemma_bit_ops(self.white_pieces, add);
            lemma_bit_ops(self.black_pieces, add);
        }
        let base: Pieces = self.with_bitboard(color, piece, old_board | add);
        let mut r: Pieces = base;
        match color {
            Color::White => r.white_pieces = r.white_pieces | add,
            Color::Black => r.black_pieces = r.black_pieces | add,
        }
        r.color_lookup[sq] = Some(color);
        r.piece_type_lookup[sq] = Some(piece);
        proof {
            assert forall|s: int| #[trigger]
                r.at(s) == (if s == sq {
                    Some((color, piece))
                } else {
                    self.at(s)
                }) by {}
            assert forall|s: int, c: Color, p: PieceType| #[trigger]
                bit(r.board(c, p), s) == (r.at(s) == Some((c, p))) by {
                assert(r.board(c, p) == base.board(c, p));
                assert(bit(self.board(c, p), s) == (self.at(s) == Some((c, p))));
            }
            assert forall|s: int, c: Color| #[trigger]
                bit(r.occupied(c), s) == (r.at(s) matches Some(x) && x.0 == c) by {
                assert(bit(self.occupied(c), s) == (self.at(s) matches Some(x) && x.0 == c));
            }
        }
        r
    }

    /// The union of the two colours holds the squares on which something
    /// stands.
    pub proof fn lemma_occupied(&self)
        requires
            self.consistent(),
        ensures
            forall|sq: int| #[trigger]
                bit(self.white_pieces | self.black_pieces, sq) == (self.at(sq) is Some),
            forall|sq: int| #[trigger]
                bit(!(self.white_pieces | self.black_pieces), sq) == (on_board(sq) && self.at(sq)
                    is None),
    {
        lemma_bit_ops(self.white_pieces, self.black_pieces);
        lemma_bit_ops(self.white_pieces | self.black_pieces, 0);
        assert forall|sq: int| #[trigger]
            bit(self.white_pieces | self.black_pieces, sq) == (self.at(sq) is Some) by {
            assert(bit(self.occupied(Color::White), sq) == (self.at(sq) matches Some(x) && x.0
                == Color::White));
            assert(bit(self.occupied(Color::Black), sq) == (self.at(sq) matches Some(x) && x.0
                == Color::Black));
        }
    }

    /// In a consistent placement no square is in two of the twelve
    /// bitboards, and each union is the bitwise union of its six.
    pub proof fn lemma_disjoint_unions(&self)
        requires
            self.consistent(),
        ensures
            forall|c: Color, p: PieceType, d: Color, q: PieceType|
                c != d || p != q ==> #[trigger] self.board(c, p) & #[trigger] self.board(d, q)
                    == 0,
            self.white_pieces == self.w_king | self.w_queen | self.w_rook | self.w_bishop
                | self.w_knight | self.w_pawn,
            self.black_pieces == self.b_king | self.b_queen | self.b_rook | self.b_bishop
                | self.b_knight | self.b_pawn,
    {
        assert forall|c: Color, p: PieceType, d: Color, q: PieceType| c != d || p != q implies
            #[trigger] self.board(c, p) & #[trigger] self.board(d, q) == 0 by {
            let both = self.board(c, p) & self.board(d, q);
            lemma_bit_ops(self.board(c, p), self.board(d, q));
            lemma_zero_iff_empty(both);
            assert forall|i: int| 0 <= i < 64 implies !bit(both, i) by {
                assert(bit(self.board(c, p), i) == (self.at(i) == Some((c, p))));
                assert(bit(self.board(d, q), i) == (self.at(i) == Some((d, q))));
            }
        }
        self.lemma_union(Color::White);
        self.lemma_union(Color::Black);
    }

    /// The union of a colour is the bitwise union of its six bitboards.
    proof fn lemma_union(&self, c: Color)
        requires
            self.consistent(),
        ensures
            self.occupied(c) == self.board(c, PieceType::King) | self.board(c, PieceType::Queen)
                | self.board(c, PieceType::Rook) | self.board(c, PieceType::Bishop) | self.board(
                c,
                PieceType::Knight,
            ) | self.board(c, PieceType::Pawn),
    {
        let k = self.board(c, PieceType::King);
        let q = self.board(c, PieceType::Queen);
        let r = self.board(c, PieceType::Rook);
        let b = self.board(c, PieceType::Bishop);
        let n = self.board(c, PieceType::Knight);
        let p = self.board(c, PieceType::Pawn);
        lemma_bit_ops(k, q);
        lemma_bit_ops(k | q, r);
        lemma_bit_ops(k | q | r, b);
        lemma_bit_ops(k | q | r | b, n);
        lemma_bit_ops(k | q | r | b | n, p);
        assert forall|i: int| 0 <= i < 64 implies bit(self.occupied(c), i) == bit(
            k | q | r | b | n | p,
            i,
        ) by {
            assert(bit(self.occupied(c), i) == (self.at(i) matches Some(x) && x.0 == c));
            assert forall|t: PieceType| #[trigger]
                bit(self.board(c, t), i) == (self.at(i) == Some((c, t))) by {}
            match self.at(i) {
                Some((_, t)) => {
                    assert(bit(self.board(c, t), i) == (self.at(i) == Some((c, t))));
                },
                None => {},
            }
        }
        lemma_bits_equal(self.occupied(c), k | q | r | b | n | p);
    }
}

impl Pieces {
    /// Two consistent placements with the same pieces on the same squares
    /// are the same placement.
    pub proof fn lemma_determined(&self, other: Pieces)
        requires
            self.consistent(),
            other.consistent(),
            forall|sq: int| #[trigger] self.at(sq) == other.at(sq),
        ensures
            *self == other,
    {
        assert forall|c: Color, p: PieceType| #[trigger] self.board(c, p) == other.board(c, p) by {
            assert forall|i: int| 0 <= i < 64 implies bit(self.board(c, p), i) == bit(
                other.board(c, p),
                i,
            ) by {
                assert(bit(self.board(c, p), i) == (self.at(i) == Some((c, p))));
                assert(bit(other.board(c, p), i) == (other.at(i) == Some((c, p))));
            }
            lemma_bits_equal(self.board(c, p), other.board(c, p));
        }
        assert forall|c: Color| #[trigger] self.occupied(c) == other.occupied(c) by {
            assert forall|i: int| 0 <= i < 64 implies bit(self.occupied(c), i) == bit(
                other.occupied(c),
                i,
            ) by {
                assert(bit(self.occupied(c), i) == (self.at(i) matches Some(x) && x.0 == c));
                assert(bit(other.occupied(c), i) == (other.at(i) matches Some(x) && x.0 == c));
            }
            lemma_bits_equal(self.occupied(c), other.occupied(c));
        }
        assert(self.board(Color::White, PieceType::King) == other.board(
            Color::White,
            PieceType::King,
        ));
        assert(self.board(Color::White, PieceType::Queen) == other.board(
            Color::White,
            PieceType::Queen,
        ));
        assert(self.board(Color::White, PieceType::Rook) == other.board(
            Color::White,
            PieceType::Rook,
        ));
        assert(self.board(Color::White, PieceType::Bishop) == other.board(
            Color::White,
            PieceType::Bishop,
        ));
        assert(self.board(Color::White, PieceType::Knight) == other.board(
            Color::White,
            PieceType::Knight,
        ));
        assert(self.board(Color::White, PieceType::Pawn) == other.board(
            Color::White,
            PieceType::Pawn,
        ));
        assert(self.board(Color::Black, PieceType::King) == other.board(
            Color::Black,
            PieceType::King,
        ));
        assert(self.board(Color::Black, PieceType::Queen) == other.board(
            Color::Black,
            PieceType::Queen,
        ));
        assert(self.board(Color::Black, PieceType::Rook) == other.board(
            Color::Black,
            PieceType::Rook,
        ));
        assert(self.board(Color::Black, PieceType::Bishop) == other.board(
            Color::Black,
            PieceType::Bishop,
        ));
        assert(self.board(Color::Black, PieceType::Knight) == other.board(
            Color::Black,
            PieceType::Knight,
        ));
        assert(self.board(Color::Black, PieceType::Pawn) == other.board(
            Color::Black,
            PieceType::Pawn,
        ));
        assert(self.occupied(Color::White) == other.occupied(Color::White));
        assert(self.occupied(Color::Black) == other.occupied(Color::Black));
        assert forall|i: int| 0 <= i < 64 implies self.color_lookup[i] == other.color_lookup[i]
            && self.piece_type_lookup[i] == other.piece_type_lookup[i] by {
            assert(self.at(i) == other.at(i));
            assert((self.color_lookup[i] is Some) == (self.piece_type_lookup[i] is Some));
            assert((other.color_lookup[i] is Some) == (other.piece_type_lookup[i] is Some));
        }
        assert(self.color_lookup =~= other.color_lookup);
        assert(self.piece_type_lookup =~= other.piece_type_lookup);
    }
}

} // verus!
