//! The vocabulary of the board: colours, piece types, the eight compass
//! directions and the four kinds of line, with the geometry of squares that
//! the contracts of the library are stated over.
//!
//! A square is an index from 0 (a1) to 63 (h8), rank-major: its rank is the
//! index divided by eight and its file the remainder.

use vstd::prelude::*;

verus! {

/// The two sides.
#[derive(Clone, Copy, Debug, PartialEq, Eq, Structural)]
pub enum Color {
    White,
    Black,
}

/// The six types of piece, in the order in which moves are listed.
#[derive(Clone, Copy, Debug, PartialEq, Eq, Structural)]
pub enum PieceType {
    King,
    Queen,
    Rook,
    Bishop,
    Knight,
    Pawn,
}

/// The four types of piece that a pawn can become.
#[derive(Clone, Copy, Debug, PartialEq, Eq, Structural)]
pub enum PromotionType {
    Queen,
    Rook,
    Bishop,
    Knight,
}

/// The four kinds of line on which two squares can stand together.
#[derive(Clone, Copy, Debug, PartialEq, Eq, Structural)]
pub enum LineType {
    /// A rank.
    Horizontal,
    /// A file.
    Vertical,
    /// A diagonal parallel to a1-h8.
    A1h8,
    /// A diagonal parallel to h1-a8.
    H1a8,
}

/// The eight directions in which a piece can slide. North is towards the
/// eighth rank, east towards the h-file.
#[derive(Clone, Copy, Debug, PartialEq, Eq, Structural)]
pub enum Direction {
    North,
    NorthEast,
    East,
    SouthEast,
    South,
    SouthWest,
    West,
    NorthWest,
}

impl Color {
    /// The other colour.
    pub open spec fn other(self) -> Color {
        match self {
            Color::White => Color::Black,
            Color::Black => Color::White,
        }
    }

    /// The other colour.
    pub fn invert(&self) -> (r: Color)
        ensures
            r == self.other(),
    {
        match self {
            Color::White => Color::Black,
            Color::Black => Color::White,
        }
    }
}

impl PromotionType {
    /// The piece a pawn becomes.
    pub open spec fn piece(self) -> PieceType {
        match self {
            PromotionType::Queen => PieceType::Queen,
            PromotionType::Rook => PieceType::Rook,
            PromotionType::Bishop => PieceType::Bishop,
            PromotionType::Knight => PieceType::Knight,
        }
    }

    /// The piece a pawn becomes.
    pub fn to_piece(&self) -> (r: PieceType)
        ensures
            r == self.piece(),
    {
        match self {
            PromotionType::Queen => PieceType::Queen,
            PromotionType::Rook => PieceType::Rook,
            PromotionType::Bishop => PieceType::Bishop,
            PromotionType::Knight => PieceType::Knight,
        }
    }
}

impl Direction {
    /// How much one step changes the rank.
    pub open spec fn rank_step(self) -> int {
        match self {
            Direction::North | Direction::NorthEast | Direction::NorthWest => 1,
            Direction::South | Direction::SouthEast | Direction::SouthWest => -1,
            Direction::East | Direction::West => 0,
        }
    }

    /// How much one step changes the file.
    pub open spec fn file_step(self) -> int {
        match self {
            Direction::East | Direction::NorthEast | Direction::SouthEast => 1,
            Direction::West | Direction::NorthWest | Direction::SouthWest => -1,
            Direction::North | Direction::South => 0,
        }
    }

    /// The direction that leads back.
    pub open spec fn opposite(self) -> Direction {
        match self {
            Direction::North => Direction::South,
            Direction::NorthEast => Direction::SouthWest,
            Direction::East => Direction::West,
            Direction::SouthEast => Direction::NorthWest,
            Direction::South => Direction::North,
            Direction::SouthWest => Direction::NorthEast,
            Direction::West => Direction::East,
            Direction::NorthWest => Direction::SouthEast,
        }
    }

    /// The kind of line that a step in this direction stays on.
    pub open spec fn line(self) -> LineType {
        match self {
            Direction::North | Direction::South => LineType::Vertical,
            Direction::East | Direction::West => LineType::Horizontal,
            Direction::NorthEast | Direction::SouthWest => LineType::A1h8,
            Direction::NorthWest | Direction::SouthEast => LineType::H1a8,
        }
    }

    /// Whether a rook moves this way; a bishop moves the other four ways.
    pub open spec fn straight(self) -> bool {
        self.rank_step() == 0 || self.file_step() == 0
    }
}

/// Whether `sq` is a square of the board.
pub open spec fn on_board(sq: int) -> bool {
    0 <= sq < 64
}

/// The rank of a square, from 0 for the first rank to 7 for the eighth.
pub open spec fn rank_of(sq: int) -> int {
    sq / 8
}

/// The file of a square, from 0 for the a-file to 7 for the h-file.
pub open spec fn file_of(sq: int) -> int {
    sq % 8
}

/// Whether squares `a` and `b` stand on one line of kind `line`.
pub open spec fn same_line(line: LineType, a: int, b: int) -> bool {
    match line {
        LineType::Horizontal => rank_of(a) == rank_of(b),
        LineType::Vertical => file_of(a) == file_of(b),
        LineType::A1h8 => rank_of(a) - file_of(a) == rank_of(b) - file_of(b),
        LineType::H1a8 => rank_of(a) + file_of(a) == rank_of(b) + file_of(b),
    }
}

/// Whether two different squares share a rank, a file or a diagonal.
pub open spec fn aligned(a: int, b: int) -> bool {
    a != b && (same_line(LineType::Horizontal, a, b) || same_line(LineType::Vertical, a, b)
        || same_line(LineType::A1h8, a, b) || same_line(LineType::H1a8, a, b))
}

/// Whether `x` lies on the segment from `a` to `b`, both ends excluded.
/// Nothing lies between two squares that share no line.
pub open spec fn between(a: int, b: int, x: int) -> bool {
    let lo = if rank_of(a) < rank_of(b) { rank_of(a) } else { rank_of(b) };
    let hi = if rank_of(a) < rank_of(b) { rank_of(b) } else { rank_of(a) };
    let left = if file_of(a) < file_of(b) { file_of(a) } else { file_of(b) };
    let right = if file_of(a) < file_of(b) { file_of(b) } else { file_of(a) };
    on_board(a) && on_board(b) && on_board(x) && (
        (same_line(LineType::Horizontal, a, b) && same_line(LineType::Horizontal, a, x)
            && left < file_of(x) < right)
        || (same_line(LineType::Vertical, a, b) && same_line(LineType::Vertical, a, x)
            && lo < rank_of(x) < hi)
        || (same_line(LineType::A1h8, a, b) && same_line(LineType::A1h8, a, x)
            && lo < rank_of(x) < hi)
        || (same_line(LineType::H1a8, a, b) && same_line(LineType::H1a8, a, x)
            && lo < rank_of(x) < hi))
}

/// The square one step from `sq` in direction `d`, where that step stays on
/// the board.
pub open spec fn step(d: Direction, sq: int) -> Option<int> {
    let r = rank_of(sq) + d.rank_step();
    let f = file_of(sq) + d.file_step();
    if on_board(sq) && 0 <= r < 8 && 0 <= f < 8 {
        Some(8 * r + f)
    } else {
        None
    }
}

/// How many steps lead from `sq` in direction `d` before the board ends.
pub open spec fn room(d: Direction, sq: int) -> int {
    let up = if d.rank_step() > 0 {
        7 - rank_of(sq)
    } else if d.rank_step() < 0 {
        rank_of(sq)
    } else {
        7
    };
    let along = if d.file_step() > 0 {
        7 - file_of(sq)
    } else if d.file_step() < 0 {
        file_of(sq)
    } else {
        7
    };
    if !on_board(sq) {
        0
    } else if up < along {
        up
    } else {
        along
    }
}

/// A step exists exactly where there is room for it, and uses one unit of it.
pub proof fn lemma_step_room(d: Direction, sq: int)
    ensures
        0 <= room(d, sq) <= 7,
        (step(d, sq) is Some) == (room(d, sq) > 0),
        step(d, sq) matches Some(n) ==> on_board(n) && room(d, n) == room(d, sq) - 1
            && rank_of(n) == rank_of(sq) + d.rank_step() && file_of(n) == file_of(sq)
            + d.file_step() && step(d.opposite(), n) == Some(sq) && same_line(d.line(), sq, n)
            && n != sq,
{
}

/// Whether `b` is a king's step away from `a`.
pub open spec fn king_reach(a: int, b: int) -> bool {
    let dr = rank_of(b) - rank_of(a);
    let df = file_of(b) - file_of(a);
    on_board(a) && on_board(b) && a != b && -1 <= dr <= 1 && -1 <= df <= 1
}

/// Whether `b` is a knight's leap away from `a`.
pub open spec fn knight_reach(a: int, b: int) -> bool {
    let dr = rank_of(b) - rank_of(a);
    let df = file_of(b) - file_of(a);
    on_board(a) && on_board(b) && (((dr == 1 || dr == -1) && (df == 2 || df == -2)) || ((dr == 2
        || dr == -2) && (df == 1 || df == -1)))
}

/// Whether a pawn of colour `color` on `a` attacks `b`.
pub open spec fn pawn_reach(color: Color, a: int, b: int) -> bool {
    let dr = rank_of(b) - rank_of(a);
    let df = file_of(b) - file_of(a);
    on_board(a) && on_board(b) && (df == 1 || df == -1) && dr == (match color {
        Color::White => 1int,
        Color::Black => -1int,
    })
}

/// Whether `b` shares the rank or the file of `a`.
pub open spec fn rook_reach(a: int, b: int) -> bool {
    on_board(a) && on_board(b) && a != b && (rank_of(a) == rank_of(b) || file_of(a) == file_of(b))
}

/// Whether `b` shares a diagonal with `a`.
pub open spec fn bishop_reach(a: int, b: int) -> bool {
    let dr = rank_of(b) - rank_of(a);
    let df = file_of(b) - file_of(a);
    on_board(a) && on_board(b) && a != b && (dr == df || dr == -df)
}

/// Whether a piece of the given type on `a` reaches `b` when no other piece
/// stands on the board. The colour matters for pawns only.
pub open spec fn reaches(piece: PieceType, color: Option<Color>, a: int, b: int) -> bool {
    match piece {
        PieceType::King => king_reach(a, b),
        PieceType::Queen => rook_reach(a, b) || bishop_reach(a, b),
        PieceType::Rook => rook_reach(a, b),
        PieceType::Bishop => bishop_reach(a, b),
        PieceType::Knight => knight_reach(a, b),
        PieceType::Pawn => match color {
            Some(c) => pawn_reach(c, a, b),
            None => false,
        },
    }
}

/// Whether `b` lies in direction `d` from `a`, any number of steps away.
pub open spec fn in_direction(d: Direction, a: int, b: int) -> bool {
    let dr = rank_of(b) - rank_of(a);
    let df = file_of(b) - file_of(a);
    on_board(a) && on_board(b) && match d {
        Direction::North => df == 0 && dr > 0,
        Direction::South => df == 0 && dr < 0,
        Direction::East => dr == 0 && df > 0,
        Direction::West => dr == 0 && df < 0,
        Direction::NorthEast => dr == df && dr > 0,
        Direction::SouthWest => dr == df && dr < 0,
        Direction::NorthWest => dr == -df && dr > 0,
        Direction::SouthEast => dr == -df && dr < 0,
    }
}

/// A square is eight times its rank plus its file.
pub proof fn lemma_square_parts(sq: int)
    requires
        on_board(sq),
    ensures
        sq == 8 * rank_of(sq) + file_of(sq),
        0 <= rank_of(sq) < 8,
        0 <= file_of(sq) < 8,
{
}

/// The rank and the file of the square made of them.
pub proof fn lemma_square_of(r: int, f: int)
    requires
        0 <= r < 8,
        0 <= f < 8,
    ensures
        on_board(8 * r + f),
        rank_of(8 * r + f) == r,
        file_of(8 * r + f) == f,
{
}

/// How many king's steps separate two squares.
pub open spec fn distance(a: int, b: int) -> int {
    let dr = if rank_of(a) < rank_of(b) {
        rank_of(b) - rank_of(a)
    } else {
        rank_of(a) - rank_of(b)
    };
    let df = if file_of(a) < file_of(b) {
        file_of(b) - file_of(a)
    } else {
        file_of(a) - file_of(b)
    };
    if dr < df {
        df
    } else {
        dr
    }
}

/// The squares between two squares are those that lie in the direction of
/// the second from the first, and before the second.
pub proof fn lemma_between_direction(d: Direction, a: int, b: int)
    requires
        in_direction(d, a, b),
    ensures
        forall|sq: int| between(a, b, sq) == (in_direction(d, a, sq) && in_direction(d, sq, b)),
{
    lemma_square_parts(a);
    lemma_square_parts(b);
    assert forall|sq: int|
        between(a, b, sq) == (in_direction(d, a, sq) && in_direction(d, sq, b)) by {
        if on_board(sq) {
            lemma_square_parts(sq);
        }
    }
}

} // verus!
