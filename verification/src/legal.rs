//! Which moves the generator yields: a move is in the list exactly when the
//! piece it names may go where it says.

use vstd::prelude::*;
use crate::bits::bit;
use crate::board::{between, lemma_square_parts, rank_of, Color, PieceType, PromotionType};
use crate::game::{castle_target, king_home, rook_home, GameState};
use crate::movegen::{last_rank, moves_between, plain_move, promotion, Move};

verus! {

/// Whether a sequence of moves holds a move.
pub open spec fn holds_move(moves: Seq<Move>, m: Move) -> bool {
    exists|i: int| 0 <= i < moves.len() && moves[i] == m
}

/// A concatenation holds what one of its parts holds.
pub proof fn lemma_holds_concat(a: Seq<Move>, b: Seq<Move>, m: Move)
    ensures
        holds_move(a + b, m) == (holds_move(a, m) || holds_move(b, m)),
{
    if holds_move(a, m) {
        let i = choose|i: int| 0 <= i < a.len() && a[i] == m;
        assert((a + b)[i] == m);
    }
    if holds_move(b, m) {
        let i = choose|i: int| 0 <= i < b.len() && b[i] == m;
        assert((a + b)[a.len() + i] == m);
    }
    if holds_move(a + b, m) {
        let i = choose|i: int| 0 <= i < (a + b).len() && (a + b)[i] == m;
        if i < a.len() {
            assert(a[i] == m);
        } else {
            assert(b[i - a.len()] == m);
        }
    }
}

impl GameState {
    /// Whether a move is one that the piece of type `kind` and colour
    /// `color` on its square may make: the move names that colour, such a
    /// piece stands on the square it leaves, the square it goes to is a
    /// target of the piece, and it promotes exactly when a pawn reaches its
    /// last rank.
    pub open spec fn generated(&self, kind: PieceType, color: Color, m: Move) -> bool {
        &&& m.piece_color == color
        &&& m.from < 64
        &&& m.to < 64
        &&& bit(self.pieces.board(color, kind), m.from as int)
        &&& self.target(kind, color, m.from as int, m.to as int)
        &&& (m.promoted_piece is Some) == (kind == PieceType::Pawn && rank_of(m.to as int)
            == last_rank(color))
    }

    /// The moves between two squares: the plain move, or the four
    /// promotions.
    pub proof fn lemma_between_holds(kind: PieceType, color: Color, from: int, to: int, m: Move)
        requires
            0 <= from < 64,
            0 <= to < 64,
        ensures
            holds_move(moves_between(kind, color, from, to), m) == (m.piece_color == color
                && m.from == from && m.to == to && (m.promoted_piece is Some) == (kind
                == PieceType::Pawn && rank_of(to) == last_rank(color))),
    {
        let s = moves_between(kind, color, from, to);
        if kind == PieceType::Pawn && rank_of(to) == last_rank(color) {
            assert(s[0] == promotion(from, to, color, PromotionType::Queen));
            assert(s[1] == promotion(from, to, color, PromotionType::Rook));
            assert(s[2] == promotion(from, to, color, PromotionType::Bishop));
            assert(s[3] == promotion(from, to, color, PromotionType::Knight));
            if m.piece_color == color && m.from == from && m.to == to && m.promoted_piece
                is Some {
                match m.promoted_piece->0 {
                    PromotionType::Queen => assert(s[0] == m),
                    PromotionType::Rook => assert(s[1] == m),
                    PromotionType::Bishop => assert(s[2] == m),
                    PromotionType::Knight => assert(s[3] == m),
                }
            }
        } else {
            assert(s[0] == plain_move(from, to, color));
            if m.piece_color == color && m.from == from && m.to == to && m.promoted_piece
                is None {
                assert(s[0] == m);
            }
        }
    }

    /// The moves of one piece to the squares below `n`.
    pub proof fn lemma_moves_from_holds(
        &self,
        kind: PieceType,
        color: Color,
        from: int,
        n: int,
        m: Move,
    )
        requires
            0 <= from < 64,
            0 <= n <= 64,
        ensures
            holds_move(self.moves_from(kind, color, from, n), m) == (m.piece_color == color
                && m.from == from && m.to < n && self.target(kind, color, from, m.to as int) && (
            m.promoted_piece is Some) == (kind == PieceType::Pawn && rank_of(m.to as int)
                == last_rank(color))),
        decreases n,
    {
        if n > 0 {
            self.lemma_moves_from_holds(kind, color, from, n - 1, m);
            if self.target(kind, color, from, n - 1) {
                lemma_holds_concat(
                    self.moves_from(kind, color, from, n - 1),
                    moves_between(kind, color, from, n - 1),
                    m,
                );
                Self::lemma_between_holds(kind, color, from, n - 1, m);
            }
        }
    }

    /// The moves of the pieces of one type and colour on the squares below
    /// `n`.
    pub proof fn lemma_moves_of_holds(&self, kind: PieceType, color: Color, n: int, m: Move)
        requires
            0 <= n <= 64,
        ensures
            holds_move(self.moves_of(kind, color, n), m) == (self.generated(kind, color, m)
                && m.from < n),
        decreases n,
    {
        if n > 0 {
            self.lemma_moves_of_holds(kind, color, n - 1, m);
            if bit(self.pieces.board(color, kind), n - 1) {
                lemma_holds_concat(
                    self.moves_of(kind, color, n - 1),
                    self.moves_from(kind, color, n - 1, 64),
                    m,
                );
                self.lemma_moves_from_holds(kind, color, n - 1, 64, m);
            }
        }
    }

    /// A move is in the list of legal moves exactly when it is a move of a
    /// piece of the colour; in double check, of its king.
    pub proof fn lemma_legal_holds(&self, color: Color, m: Move)
        ensures
            holds_move(self.legal_moves(color), m) == (self.generated(PieceType::King, color, m)
                || (!self.double_check(color) && (self.generated(PieceType::Queen, color, m)
                || self.generated(PieceType::Rook, color, m) || self.generated(
                PieceType::Bishop,
                color,
                m,
            ) || self.generated(PieceType::Knight, color, m) || self.generated(
                PieceType::Pawn,
                color,
                m,
            )))),
    {
        let k = self.moves_of(PieceType::King, color, 64);
        let q = self.moves_of(PieceType::Queen, color, 64);
        let r = self.moves_of(PieceType::Rook, color, 64);
        let b = self.moves_of(PieceType::Bishop, color, 64);
        let n = self.moves_of(PieceType::Knight, color, 64);
        let p = self.moves_of(PieceType::Pawn, color, 64);
        self.lemma_moves_of_holds(PieceType::King, color, 64, m);
        self.lemma_moves_of_holds(PieceType::Queen, color, 64, m);
        self.lemma_moves_of_holds(PieceType::Rook, color, 64, m);
        self.lemma_moves_of_holds(PieceType::Bishop, color, 64, m);
        self.lemma_moves_of_holds(PieceType::Knight, color, 64, m);
        self.lemma_moves_of_holds(PieceType::Pawn, color, 64, m);
        lemma_holds_concat(k, q, m);
        lemma_holds_concat(k + q, r, m);
        lemma_holds_concat(k + q + r, b, m);
        lemma_holds_concat(k + q + r + b, n, m);
        lemma_holds_concat(k + q + r + b + n, p, m);
    }

    /// Every target of a piece is a square of the board other than its own
    /// on which no king stands and no piece of its colour.
    pub proof fn lemma_target_open(&self, kind: PieceType, color: Color, from: int, to: int)
        requires
            self.wf(),
            bit(self.pieces.board(color, kind), from),
            self.target(kind, color, from, to),
        ensures
            self.open_to(color, to),
            to != from,
            self.pieces.at(from) == Some((color, kind)),
    {
        assert(bit(self.pieces.board(color, kind), from) == (self.pieces.at(from) == Some(
            (color, kind),
        )));
        assert(bit(self.pieces.occupied(color), from) == (self.pieces.at(from) matches Some(x)
            && x.0 == color));
        assert(bit(self.pieces.occupied(color), to) == (self.pieces.at(to) matches Some(x) && x.0
            == color));
        if kind == PieceType::King && !self.open_to(color, to) {
            let kingside = to == castle_target(color, true) && self.castle_open(color, true);
            assert(self.castle_open(color, kingside));
            assert(to == castle_target(color, kingside));
            lemma_square_parts(to);
            lemma_square_parts(king_home(color));
            lemma_square_parts(rook_home(color, kingside));
            assert(between(king_home(color), rook_home(color, kingside), to));
        }
    }

    /// Every generated move can be played.
    pub proof fn lemma_generated_playable(&self, kind: PieceType, color: Color, m: Move)
        requires
            self.wf(),
            self.generated(kind, color, m),
        ensures
            self.playable(m),
            m.piece_color == color,
            self.mover(m) == kind,
    {
        self.lemma_target_open(kind, color, m.from as int, m.to as int);
    }

    /// Every legal move can be played.
    pub proof fn lemma_legal_playable(&self, color: Color, i: int)
        requires
            self.wf(),
            0 <= i < self.legal_moves(color).len(),
        ensures
            self.playable(self.legal_moves(color)[i]),
            self.legal_moves(color)[i].piece_color == color,
    {
        let m = self.legal_moves(color)[i];
        assert(holds_move(self.legal_moves(color), m));
        self.lemma_legal_holds(color, m);
        if self.generated(PieceType::King, color, m) {
            self.lemma_generated_playable(PieceType::King, color, m);
        } else if self.generated(PieceType::Queen, color, m) {
            self.lemma_generated_playable(PieceType::Queen, color, m);
        } else if self.generated(PieceType::Rook, color, m) {
            self.lemma_generated_playable(PieceType::Rook, color, m);
        } else if self.generated(PieceType::Bishop, color, m) {
            self.lemma_generated_playable(PieceType::Bishop, color, m);
        } else if self.generated(PieceType::Knight, color, m) {
            self.lemma_generated_playable(PieceType::Knight, color, m);
        } else {
            self.lemma_generated_playable(PieceType::Pawn, color, m);
        }
    }
}

/// The place of a piece type in the order of the moves.
pub open spec fn type_rank(kind: PieceType) -> int {
    match kind {
        PieceType::King => 0,
        PieceType::Queen => 1,
        PieceType::Rook => 2,
        PieceType::Bishop => 3,
        PieceType::Knight => 4,
        PieceType::Pawn => 5,
    }
}

impl GameState {
    /// The number by which moves are ordered: first by the type of the
    /// piece that moves, then by the square it leaves, then by the square
    /// it goes to.
    pub open spec fn order_key(&self, m: Move) -> int {
        type_rank(self.mover(m)) * 4096 + m.from * 64 + m.to
    }

    /// Whether a sequence of moves is in order.
    pub open spec fn in_order(&self, moves: Seq<Move>) -> bool {
        forall|i: int, j: int|
            0 <= i < j < moves.len() ==> self.order_key(#[trigger] moves[i]) <= self.order_key(
                #[trigger] moves[j],
            )
    }

    /// Two sequences in order, the first of which holds no move that comes
    /// after one of the second, are in order one after the other.
    proof fn lemma_in_order_concat(&self, a: Seq<Move>, b: Seq<Move>, bound: int)
        requires
            self.in_order(a),
            self.in_order(b),
            forall|i: int| 0 <= i < a.len() ==> self.order_key(#[trigger] a[i]) <= bound,
            forall|i: int| 0 <= i < b.len() ==> bound <= self.order_key(#[trigger] b[i]),
        ensures
            self.in_order(a + b),
    {
        assert forall|i: int, j: int| 0 <= i < j < (a + b).len() implies self.order_key(
            #[trigger] (a + b)[i],
        ) <= self.order_key(#[trigger] (a + b)[j]) by {
            if j < a.len() {
                assert((a + b)[i] == a[i] && (a + b)[j] == a[j]);
            } else if i < a.len() {
                assert((a + b)[i] == a[i] && (a + b)[j] == b[j - a.len()]);
            } else {
                assert((a + b)[i] == b[i - a.len()] && (a + b)[j] == b[j - a.len()]);
            }
        }
    }

    /// The key of a move that the generator yields.
    proof fn lemma_key(&self, kind: PieceType, color: Color, moves: Seq<Move>, i: int)
        requires
            self.wf(),
            0 <= i < moves.len(),
            forall|m: Move| holds_move(moves, m) ==> self.generated(kind, color, m),
        ensures
            self.order_key(moves[i]) == type_rank(kind) * 4096 + moves[i].from * 64 + moves[i].to,
            moves[i].from < 64,
            moves[i].to < 64,
    {
        assert(holds_move(moves, moves[i]));
        self.lemma_generated_playable(kind, color, moves[i]);
    }

    /// The moves of one piece come in the order of the squares they go to.
    proof fn lemma_moves_from_in_order(&self, kind: PieceType, color: Color, from: int, n: int)
        requires
            self.wf(),
            0 <= from < 64,
            0 <= n <= 64,
            bit(self.pieces.board(color, kind), from),
        ensures
            self.in_order(self.moves_from(kind, color, from, n)),
        decreases n,
    {
        if n > 0 {
            self.lemma_moves_from_in_order(kind, color, from, n - 1);
            if self.target(kind, color, from, n - 1) {
                let a = self.moves_from(kind, color, from, n - 1);
                let b = moves_between(kind, color, from, n - 1);
                let bound = type_rank(kind) * 4096 + from * 64 + (n - 1);
                assert forall|m: Move| holds_move(a, m) implies self.generated(kind, color, m)
                    && m.from == from && m.to < n - 1 by {
                    self.lemma_moves_from_holds(kind, color, from, n - 1, m);
                }
                assert forall|m: Move| holds_move(b, m) implies self.generated(kind, color, m)
                    && m.from == from && m.to == n - 1 by {
                    Self::lemma_between_holds(kind, color, from, n - 1, m);
                }
                assert forall|i: int| 0 <= i < a.len() implies self.order_key(#[trigger] a[i])
                    <= bound by {
                    assert(holds_move(a, a[i]));
                    self.lemma_key(kind, color, a, i);
                }
                assert forall|i: int| 0 <= i < b.len() implies bound == self.order_key(
                    #[trigger] b[i],
                ) by {
                    assert(holds_move(b, b[i]));
                    self.lemma_key(kind, color, b, i);
                }
                self.lemma_in_order_concat(a, b, bound);
            }
        }
    }

    /// The moves of the pieces of one type come in the order of the squares
    /// they leave, then of the squares they go to.
    proof fn lemma_moves_of_in_order(&self, kind: PieceType, color: Color, n: int)
        requires
            self.wf(),
            0 <= n <= 64,
        ensures
            self.in_order(self.moves_of(kind, color, n)),
        decreases n,
    {
        if n > 0 {
            self.lemma_moves_of_in_order(kind, color, n - 1);
            if bit(self.pieces.board(color, kind), n - 1) {
                let a = self.moves_of(kind, color, n - 1);
                let b = self.moves_from(kind, color, n - 1, 64);
                let bound = type_rank(kind) * 4096 + (n - 1) * 64;
                self.lemma_moves_from_in_order(kind, color, n - 1, 64);
                assert forall|m: Move| holds_move(a, m) implies self.generated(kind, color, m)
                    && m.from < n - 1 by {
                    self.lemma_moves_of_holds(kind, color, n - 1, m);
                }
                assert forall|m: Move| holds_move(b, m) implies self.generated(kind, color, m)
                    && m.from == n - 1 by {
                    self.lemma_moves_from_holds(kind, color, n - 1, 64, m);
                }
                assert forall|i: int| 0 <= i < a.len() implies self.order_key(#[trigger] a[i])
                    <= bound by {
                    assert(holds_move(a, a[i]));
                    self.lemma_key(kind, color, a, i);
                }
                assert forall|i: int| 0 <= i < b.len() implies bound <= self.order_key(
                    #[trigger] b[i],
                ) by {
                    assert(holds_move(b, b[i]));
                    self.lemma_key(kind, color, b, i);
                }
                self.lemma_in_order_concat(a, b, bound);
            }
        }
    }

    /// The keys of the moves of one type lie in the range of that type.
    proof fn lemma_key_range(&self, kind: PieceType, color: Color, i: int)
        requires
            self.wf(),
            0 <= i < self.moves_of(kind, color, 64).len(),
        ensures
            type_rank(kind) * 4096 <= self.order_key(self.moves_of(kind, color, 64)[i]) < (
            type_rank(kind) + 1) * 4096,
    {
        let moves = self.moves_of(kind, color, 64);
        assert forall|m: Move| holds_move(moves, m) implies self.generated(kind, color, m) by {
            self.lemma_moves_of_holds(kind, color, 64, m);
        }
        self.lemma_key(kind, color, moves, i);
    }

    /// The legal moves come in a fixed order: by the type of the piece that
    /// moves (king, queen, rook, bishop, knight, pawn), then by the square
    /// it leaves, then by the square it goes to.
    pub proof fn lemma_legal_in_order(&self, color: Color)
        requires
            self.wf(),
        ensures
            self.in_order(self.legal_moves(color)),
    {
        let k = self.moves_of(PieceType::King, color, 64);
        let q = self.moves_of(PieceType::Queen, color, 64);
        let r = self.moves_of(PieceType::Rook, color, 64);
        let b = self.moves_of(PieceType::Bishop, color, 64);
        let n = self.moves_of(PieceType::Knight, color, 64);
        let p = self.moves_of(PieceType::Pawn, color, 64);
        self.lemma_moves_of_in_order(PieceType::King, color, 64);
        self.lemma_moves_of_in_order(PieceType::Queen, color, 64);
        self.lemma_moves_of_in_order(PieceType::Rook, color, 64);
        self.lemma_moves_of_in_order(PieceType::Bishop, color, 64);
        self.lemma_moves_of_in_order(PieceType::Knight, color, 64);
        self.lemma_moves_of_in_order(PieceType::Pawn, color, 64);
        assert forall|i: int| 0 <= i < k.len() implies 0 <= self.order_key(#[trigger] k[i])
            < 4096 by {
            self.lemma_key_range(PieceType::King, color, i);
        }
        assert forall|i: int| 0 <= i < q.len() implies 4096 <= self.order_key(#[trigger] q[i])
            < 2 * 4096 by {
            self.lemma_key_range(PieceType::Queen, color, i);
        }
        assert forall|i: int| 0 <= i < r.len() implies 2 * 4096 <= self.order_key(
            #[trigger] r[i],
        ) < 3 * 4096 by {
            self.lemma_key_range(PieceType::Rook, color, i);
        }
        assert forall|i: int| 0 <= i < b.len() implies 3 * 4096 <= self.order_key(
            #[trigger] b[i],
        ) < 4 * 4096 by {
            self.lemma_key_range(PieceType::Bishop, color, i);
        }
        assert forall|i: int| 0 <= i < n.len() implies 4 * 4096 <= self.order_key(
            #[trigger] n[i],
        ) < 5 * 4096 by {
            self.lemma_key_range(PieceType::Knight, color, i);
        }
        assert forall|i: int| 0 <= i < p.len() implies 5 * 4096 <= self.order_key(
            #[trigger] p[i],
        ) < 6 * 4096 by {
            self.lemma_key_range(PieceType::Pawn, color, i);
        }
        self.lemma_in_order_concat(k, q, 4096int);
        assert forall|i: int| 0 <= i < (k + q).len() implies self.order_key(
            #[trigger] (k + q)[i],
        ) <= 2 * 4096 by {
            if i < k.len() {
                assert((k + q)[i] == k[i]);
            } else {
                assert((k + q)[i] == q[i - k.len()]);
            }
        }
        self.lemma_in_order_concat(k + q, r, 8192int);
        assert forall|i: int| 0 <= i < (k + q + r).len() implies self.order_key(
            #[trigger] (k + q + r)[i],
        ) <= 3 * 4096 by {
            if i < (k + q).len() {
                assert((k + q + r)[i] == (k + q)[i]);
            } else {
                assert((k + q + r)[i] == r[i - (k + q).len()]);
            }
        }
        self.lemma_in_order_concat(k + q + r, b, 12288int);
        assert forall|i: int| 0 <= i < (k + q + r + b).len() implies self.order_key(
            #[trigger] (k + q + r + b)[i],
        ) <= 4 * 4096 by {
            if i < (k + q + r).len() {
                assert((k + q + r + b)[i] == (k + q + r)[i]);
            } else {
                assert((k + q + r + b)[i] == b[i - (k + q + r).len()]);
            }
        }
        self.lemma_in_order_concat(k + q + r + b, n, 16384int);
        assert forall|i: int| 0 <= i < (k + q + r + b + n).len() implies self.order_key(
            #[trigger] (k + q + r + b + n)[i],
        ) <= 5 * 4096 by {
            if i < (k + q + r + b).len() {
                assert((k + q + r + b + n)[i] == (k + q + r + b)[i]);
            } else {
                assert((k + q + r + b + n)[i] == n[i - (k + q + r + b).len()]);
            }
        }
        self.lemma_in_order_concat(k + q + r + b + n, p, 20480int);
    }
}

} // verus!
