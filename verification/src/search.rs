//! Consumers of the move generator: a counter of the leaves of the game
//! tree, a material count, and a fixed-depth search.

use vstd::prelude::*;
use crate::bits::{bit, lemma_lowest, lemma_zero_iff_empty, without_lowest};
use crate::board::{Color, PieceType};
use crate::game::GameState;
use crate::lookup::Tables;
use crate::movegen::Move;
use crate::position::Pieces;

verus! {

/// How many of the squares below `n` belong to `b`.
pub open spec fn population(b: u64, n: int) -> nat
    decreases n,
{
    if n <= 0 {
        0
    } else if bit(b, n - 1) {
        population(b, n - 1) + 1
    } else {
        population(b, n - 1)
    }
}

/// Squares outside a set add nothing to its population.
proof fn lemma_population_skip(b: u64, m: int, n: int)
    requires
        0 <= m <= n,
        forall|i: int| m <= i < n ==> !bit(b, i),
    ensures
        population(b, n) == population(b, m),
    decreases n - m,
{
    if m < n {
        lemma_population_skip(b, m, n - 1);
    }
}

/// No set has more squares than there are below `n`.
proof fn lemma_population_bound(b: u64, n: int)
    requires
        0 <= n,
    ensures
        population(b, n) <= n,
    decreases n,
{
    if n > 0 {
        lemma_population_bound(b, n - 1);
    }
}

/// How many squares a set holds.
pub fn count_ones(b: u64) -> (r: u32)
    ensures
        r == population(b, 64),
        r <= 64,
{
    let mut rest: u64 = b;
    let mut count: u32 = 0;
    let ghost mut done: int = 0;
    while rest != 0
        invariant
            0 <= done <= 64,
            count == population(b, done),
            count <= done,
            forall|i: int| #[trigger] bit(rest, i) == (bit(b, i) && i >= done),
        decreases rest,
    {
        proof {
            lemma_lowest(rest);
            let low = crate::bits::lowest(rest);
            assert forall|i: int| done <= i < low implies !bit(b, i) by {
                assert(bit(rest, i) == (bit(b, i) && i >= done));
            }
            lemma_population_skip(b, done, low);
            assert(bit(rest, low));
            done = low + 1;
        }
        rest = without_lowest(rest);
        count += 1;
    }
    proof {
        lemma_zero_iff_empty(rest);
        assert forall|i: int| done <= i < 64 implies !bit(b, i) by {
            assert(bit(rest, i) == (bit(b, i) && i >= done));
        }
        lemma_population_skip(b, done, 64);
    }
    count
}

/// The smaller of a count and the largest number that fits in 64 bits.
pub open spec fn capped(n: nat) -> u64 {
    if n > u64::MAX {
        u64::MAX
    } else {
        n as u64
    }
}

impl GameState {
    /// The number of leaves of the tree of legal moves, `depth` plies deep,
    /// with the colour whose turn it is moving first.
    pub open spec fn leaves(&self, depth: nat) -> nat
        decreases depth, 1nat, 0nat,
    {
        if depth == 0 {
            1
        } else {
            self.leaves_over(self.legal_moves(self.active_color), depth)
        }
    }

    /// The number of leaves below the given moves.
    pub open spec fn leaves_over(&self, moves: Seq<Move>, depth: nat) -> nat
        decreases depth, 0nat, moves.len(),
    {
        if depth == 0 || moves.len() == 0 {
            0
        } else {
            self.leaves_over(moves.drop_last(), depth) + self.after(moves.last()).leaves(
                (depth - 1) as nat,
            )
        }
    }

    /// Counts the leaves of the tree of legal moves, `depth` plies deep,
    /// playing every legal move of the colour whose turn it is and counting
    /// below the state it leads to. A count that does not fit in 64 bits
    /// comes out as the largest number that does.
    pub fn perft(&self, depth: usize, tables: &Tables) -> (nodes: u64)
        requires
            self.wf(),
            tables.wf(),
        ensures
            nodes == capped(self.leaves(depth as nat)),
        decreases depth,
    {
        if depth == 0 {
            return 1;
        }
        let moves: Vec<Move> = self.moves(self.active_color, tables);
        let mut nodes: u64 = 0;
        let mut i: usize = 0;
        while i < moves.len()
            invariant
                self.wf(),
                tables.wf(),
                depth > 0,
                i <= moves.len(),
                moves@ == self.legal_moves(self.active_color),
                nodes == capped(self.leaves_over(moves@.take(i as int), depth as nat)),
            decreases moves.len() - i,
        {
            let piece_move: Move = moves[i];
            proof {
                self.lemma_legal_playable(self.active_color, i as int);
            }
            let new_gamestate: GameState = self.apply_move(piece_move, tables);
            proof {
                self.lemma_after(piece_move, new_gamestate);
                assert(moves@.take(i + 1).drop_last() =~= moves@.take(i as int));
                assert(moves@.take(i + 1).last() == piece_move);
            }
            let below: u64 = new_gamestate.perft(depth - 1, tables);
            nodes = if below > u64::MAX - nodes {
                u64::MAX
            } else {
                nodes + below
            };
            i += 1;
        }
        proof {
            assert(moves@.take(i as int) =~= moves@);
        }
        nodes
    }
}

/// The weight of a king in the material count: more than all other pieces
/// of a side together can weigh.
pub const KING_WEIGHT: i32 = 69420;

/// The score below every score that a search returns.
pub const WORST: i32 = -0x4000_0000;

/// The weight of a piece type in the material count.
pub open spec fn weight(piece: PieceType) -> int {
    match piece {
        PieceType::King => 69420,
        PieceType::Queen => 9,
        PieceType::Rook => 5,
        PieceType::Bishop => 3,
        PieceType::Knight => 3,
        PieceType::Pawn => 1,
    }
}

impl Pieces {
    /// By how much the weight of White's pieces of one type exceeds that of
    /// Black's.
    pub open spec fn balance(&self, piece: PieceType) -> int {
        weight(piece) * (population(self.board(Color::White, piece), 64) - population(
            self.board(Color::Black, piece),
            64,
        ))
    }

    /// By how much the weight of White's pieces exceeds that of Black's.
    pub open spec fn material(&self) -> int {
        self.balance(PieceType::King) + self.balance(PieceType::Queen) + self.balance(
            PieceType::Rook,
        ) + self.balance(PieceType::Bishop) + self.balance(PieceType::Knight) + self.balance(
            PieceType::Pawn,
        )
    }

    /// The difference between the numbers of White's and Black's pieces of
    /// one type.
    fn difference(&self, piece: PieceType) -> (r: i32)
        ensures
            r == population(self.board(Color::White, piece), 64) - population(
                self.board(Color::Black, piece),
                64,
            ),
            -64 <= r <= 64,
    {
        let white: u32 = count_ones(self.bitboard(Color::White, piece));
        let black: u32 = count_ones(self.bitboard(Color::Black, piece));
        white as i32 - black as i32
    }
}

impl GameState {
    /// The material count seen from the colour whose turn it is.
    pub open spec fn static_value(&self) -> int {
        match self.active_color {
            Color::White => self.pieces.material(),
            Color::Black => -self.pieces.material(),
        }
    }

    /// The material count seen from the colour whose turn it is: the weight
    /// of that colour's pieces less the weight of the other's.
    pub fn static_eval(&self) -> (score: i32)
        ensures
            score == self.static_value(),
            -5_000_000 < score < 5_000_000,
    {
        let king_diff: i32 = self.pieces.difference(PieceType::King);
        let queen_diff: i32 = self.pieces.difference(PieceType::Queen);
        let rook_diff: i32 = self.pieces.difference(PieceType::Rook);
        let bishop_diff: i32 = self.pieces.difference(PieceType::Bishop);
        let knight_diff: i32 = self.pieces.difference(PieceType::Knight);
        let pawn_diff: i32 = self.pieces.difference(PieceType::Pawn);
        let score: i32 = KING_WEIGHT * king_diff + 9 * queen_diff + 5 * rook_diff + 3
            * bishop_diff + 3 * knight_diff + pawn_diff;
        match self.active_color {
            Color::White => score,
            Color::Black => -score,
        }
    }

    /// The score of a state for the colour `color`, which is to move,
    /// `depth` plies deep: the material count at depth zero; otherwise the
    /// best of the scores that its moves lead to, each being the negated
    /// score of the state after the move for the other colour. A colour
    /// without a move scores as if it had lost its king when it is in check,
    /// and zero when it is not.
    pub open spec fn value(&self, depth: nat, color: Color) -> int
        decreases depth, 1nat, 0nat,
    {
        if depth == 0 {
            self.static_value()
        } else if self.legal_moves(color).len() == 0 {
            if self.masks.checkers(color) != 0 {
                -(KING_WEIGHT as int)
            } else {
                0
            }
        } else {
            self.best_over(self.legal_moves(color), depth, color)
        }
    }

    /// The score that playing a move gives to the colour that plays it.
    pub open spec fn value_of(&self, m: Move, depth: nat, color: Color) -> int
        decreases depth, 0nat, 0nat,
    {
        if depth == 0 {
            0
        } else {
            -self.after(m).value((depth - 1) as nat, color.other())
        }
    }

    /// The best of the scores that the given moves give.
    pub open spec fn best_over(&self, moves: Seq<Move>, depth: nat, color: Color) -> int
        decreases depth, 0nat, moves.len() + 1,
    {
        if depth == 0 || moves.len() == 0 {
            WORST as int
        } else {
            let before = self.best_over(moves.drop_last(), depth, color);
            let here = self.value_of(moves.last(), depth, color);
            if here > before {
                here
            } else {
                before
            }
        }
    }

    /// The first of the given moves that gives the best score.
    pub open spec fn choice_over(&self, moves: Seq<Move>, depth: nat, color: Color) -> Option<
        Move,
    >
        decreases moves.len(),
    {
        if moves.len() == 0 {
            None
        } else if self.value_of(moves.last(), depth, color) > self.best_over(
            moves.drop_last(),
            depth,
            color,
        ) {
            Some(moves.last())
        } else {
            self.choice_over(moves.drop_last(), depth, color)
        }
    }

    /// The move that a search `depth` plies deep chooses for `color`: none
    /// where the colour has no legal move, the first legal move at depth
    /// zero, and otherwise the first of the moves that give the best score.
    pub open spec fn choice(&self, depth: nat, color: Color) -> Option<Move> {
        let moves = self.legal_moves(color);
        if moves.len() == 0 {
            None
        } else if depth == 0 {
            Some(moves[0])
        } else {
            self.choice_over(moves, depth, color)
        }
    }

    /// Every score lies strictly between the worst score and its negation.
    pub proof fn lemma_value_bounds(&self, depth: nat, color: Color)
        ensures
            -5_000_000 < self.value(depth, color) < 5_000_000,
        decreases depth, 1nat, 0nat,
    {
        if depth == 0 {
            self.lemma_static_bounds();
        } else if self.legal_moves(color).len() != 0 {
            self.lemma_best_bounds(self.legal_moves(color), depth, color);
        }
    }

    /// The best score over some moves is a score of one of them.
    pub proof fn lemma_best_bounds(&self, moves: Seq<Move>, depth: nat, color: Color)
        requires
            depth > 0,
        ensures
            moves.len() > 0 ==> -5_000_000 < self.best_over(moves, depth, color) < 5_000_000,
            moves.len() == 0 ==> self.best_over(moves, depth, color) == WORST,
        decreases depth, 0nat, moves.len() + 1,
    {
        if moves.len() > 0 {
            self.lemma_best_bounds(moves.drop_last(), depth, color);
            self.after(moves.last()).lemma_value_bounds((depth - 1) as nat, color.other());
            assert(self.value_of(moves.last(), depth, color) == -self.after(moves.last()).value(
                (depth - 1) as nat,
                color.other(),
            ));
            assert(WORST == -0x4000_0000);
        }
    }

    /// The material count lies within what the pieces of a board can weigh.
    pub proof fn lemma_static_bounds(&self)
        ensures
            -5_000_000 < self.static_value() < 5_000_000,
    {
        let p = self.pieces;
        assert forall|c: Color, t: PieceType| 0 <= #[trigger] population(p.board(c, t), 64)
            <= 64 by {
            lemma_population_bound(p.board(c, t), 64);
        }
        assert(-64 * 69420 <= p.balance(PieceType::King) <= 64 * 69420) by {
            assert(0 <= population(p.board(Color::White, PieceType::King), 64) <= 64);
            assert(0 <= population(p.board(Color::Black, PieceType::King), 64) <= 64);
        }
        assert(-64 * 9 <= p.balance(PieceType::Queen) <= 64 * 9) by {
            assert(0 <= population(p.board(Color::White, PieceType::Queen), 64) <= 64);
            assert(0 <= population(p.board(Color::Black, PieceType::Queen), 64) <= 64);
        }
        assert(-64 * 5 <= p.balance(PieceType::Rook) <= 64 * 5) by {
            assert(0 <= population(p.board(Color::White, PieceType::Rook), 64) <= 64);
            assert(0 <= population(p.board(Color::Black, PieceType::Rook), 64) <= 64);
        }
        assert(-64 * 3 <= p.balance(PieceType::Bishop) <= 64 * 3) by {
            assert(0 <= population(p.board(Color::White, PieceType::Bishop), 64) <= 64);
            assert(0 <= population(p.board(Color::Black, PieceType::Bishop), 64) <= 64);
        }
        assert(-64 * 3 <= p.balance(PieceType::Knight) <= 64 * 3) by {
            assert(0 <= population(p.board(Color::White, PieceType::Knight), 64) <= 64);
            assert(0 <= population(p.board(Color::Black, PieceType::Knight), 64) <= 64);
        }
        assert(-64 <= p.balance(PieceType::Pawn) <= 64) by {
            assert(0 <= population(p.board(Color::White, PieceType::Pawn), 64) <= 64);
            assert(0 <= population(p.board(Color::Black, PieceType::Pawn), 64) <= 64);
        }
    }

    /// Searches `depth` plies deep for the colour `color`, which is to move:
    /// the move it chooses, if the colour has one, and its score.
    pub fn negamax(&self, depth: usize, color: Color, tables: &Tables) -> (r: (Option<Move>, i32))
        requires
            self.wf(),
            tables.wf(),
        ensures
            r.0 == self.choice(depth as nat, color),
            r.1 == self.value(depth as nat, color),
        decreases depth,
    {
        let moves: Vec<Move> = self.moves(color, tables);
        if moves.len() == 0 {
            let score: i32 = if depth == 0 {
                self.static_eval()
            } else if self.masks.checkers_of(color) != 0 {
                -KING_WEIGHT
            } else {
                0
            };
            return (None, score);
        }
        if depth == 0 {
            return (Some(moves[0]), self.static_eval());
        }
        let mut best_score: i32 = WORST;
        let mut best_move: Option<Move> = None;
        let mut i: usize = 0;
        while i < moves.len()
            invariant
                self.wf(),
                tables.wf(),
                depth > 0,
                i <= moves.len(),
                moves@ == self.legal_moves(color),
                best_score == self.best_over(moves@.take(i as int), depth as nat, color),
                best_move == self.choice_over(moves@.take(i as int), depth as nat, color),
            decreases moves.len() - i,
        {
            let piece_move: Move = moves[i];
            proof {
                self.lemma_legal_playable(color, i as int);
            }
            let new_gamestate: GameState = self.apply_move(piece_move, tables);
            proof {
                self.lemma_after(piece_move, new_gamestate);
                assert(moves@.take(i + 1).drop_last() =~= moves@.take(i as int));
                assert(moves@.take(i + 1).last() == piece_move);
                new_gamestate.lemma_value_bounds((depth - 1) as nat, color.other());
                self.lemma_best_bounds(moves@.take(i as int), depth as nat, color);
            }
            let (_, score) = new_gamestate.negamax(depth - 1, color.invert(), tables);
            if -score > best_score {
                best_score = -score;
                best_move = Some(piece_move);
            }
            i += 1;
        }
        proof {
            assert(moves@.take(i as int) =~= moves@);
        }
        (best_move, best_score)
    }
}

} // verus!
