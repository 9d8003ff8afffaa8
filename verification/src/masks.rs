//! The mask engine: from a position, the squares each side attacks, the
//! pieces that give check, the squares that answer a check, the pinned
//! pieces and the lines they are held to, and the squares that are unsafe
//! for each king.
//!
//! Nothing here is kept from one position to the next: every mask is
//! derived afresh from the placement of the pieces.

use vstd::prelude::*;
use crate::bits::{
    bit, lemma_bit_consts, lemma_bit_ops, lemma_bits_equal, lemma_only, lemma_zero_iff_empty,
    lowest_square, only, square, without_lowest, ALL_BITS,
};
use crate::board::{
    between, king_reach, knight_reach, lemma_square_parts, on_board, pawn_reach, reaches, Color,
    Direction, LineType, PieceType,
};
use crate::lookup::{table_holds, Tables};
use crate::position::Pieces;
use crate::rays::{lemma_direction_aligned, lemma_ray_from_one};
use crate::sliding_pieces::{
    east_attacks, noea_attacks, nort_attacks, nowe_attacks, ray_attacks, soea_attacks, sout_attacks,
    sowe_attacks, west_attacks,
};

verus! {

/// For each of the four kinds of line through a king, the squares to which a
/// piece pinned on that line may go.
#[derive(Clone, Copy, Debug, PartialEq, Eq, Structural)]
pub struct PinMask {
    pub h: u64,
    pub v: u64,
    pub d1: u64,
    pub d2: u64,
}

/// The masks of both colours. `Masks::describes` says what each holds.
#[derive(Clone, Copy, Debug, PartialEq, Eq, Structural)]
pub struct Masks {
    pub white_checkmask: u64,
    pub black_checkmask: u64,
    pub white_space: u64,
    pub black_space: u64,
    pub white_checkers: u64,
    pub black_checkers: u64,
    pub white_pinmask: PinMask,
    pub black_pinmask: PinMask,
    pub white_pinned: u64,
    pub black_pinned: u64,
    pub white_king_danger: u64,
    pub black_king_danger: u64,
}

/// Whether one of `sliders` sees `sq` along a rank or a file.
pub open spec fn straight_sees(sliders: u64, empty: u64, sq: int) -> bool {
    ray_attacks(Direction::North, sliders, empty, sq) || ray_attacks(
        Direction::East,
        sliders,
        empty,
        sq,
    ) || ray_attacks(Direction::South, sliders, empty, sq) || ray_attacks(
        Direction::West,
        sliders,
        empty,
        sq,
    )
}

/// Whether one of `sliders` sees `sq` along a diagonal.
pub open spec fn diagonal_sees(sliders: u64, empty: u64, sq: int) -> bool {
    ray_attacks(Direction::NorthEast, sliders, empty, sq) || ray_attacks(
        Direction::SouthEast,
        sliders,
        empty,
        sq,
    ) || ray_attacks(Direction::SouthWest, sliders, empty, sq) || ray_attacks(
        Direction::NorthWest,
        sliders,
        empty,
        sq,
    )
}

/// Whether a piece of the given type standing on one of the squares of `set`
/// reaches `sq`.
pub open spec fn leaper_hits(set: u64, piece: PieceType, color: Option<Color>, sq: int) -> bool {
    exists|from: int| bit(set, from) && reaches(piece, color, from, sq)
}

/// Whether `sq` is the square of one of `checkers`, or lies between one of
/// them and the king on `king`.
pub open spec fn covers_check(checkers: u64, king: int, sq: int) -> bool {
    exists|from: int| bit(checkers, from) && (sq == from || between(king, from, sq))
}

impl PinMask {
    /// The mask for one kind of line.
    pub open spec fn along(self, line: LineType) -> u64 {
        match line {
            LineType::Horizontal => self.h,
            LineType::Vertical => self.v,
            LineType::A1h8 => self.d1,
            LineType::H1a8 => self.d2,
        }
    }
}

impl Pieces {
    /// The squares on which nothing stands.
    pub open spec fn empty_squares(&self) -> u64 {
        !(self.white_pieces | self.black_pieces)
    }

    /// The rooks and queens of one colour.
    pub open spec fn straight_sliders(&self, color: Color) -> u64 {
        self.board(color, PieceType::Rook) | self.board(color, PieceType::Queen)
    }

    /// The bishops and queens of one colour.
    pub open spec fn diagonal_sliders(&self, color: Color) -> u64 {
        self.board(color, PieceType::Bishop) | self.board(color, PieceType::Queen)
    }

    /// The sliders of one colour that move in direction `d`.
    pub open spec fn sliders_along(&self, color: Color, d: Direction) -> u64 {
        if d.straight() {
            self.straight_sliders(color)
        } else {
            self.diagonal_sliders(color)
        }
    }

    /// Whether a piece of colour `color` attacks `sq`, sliders passing over
    /// the squares of `empty`.
    pub open spec fn attacks(&self, color: Color, empty: u64, sq: int) -> bool {
        straight_sees(self.straight_sliders(color), empty, sq) || diagonal_sees(
            self.diagonal_sliders(color),
            empty,
            sq,
        ) || leaper_hits(self.board(color, PieceType::Knight), PieceType::Knight, None, sq)
            || leaper_hits(self.board(color, PieceType::Pawn), PieceType::Pawn, Some(color), sq)
            || leaper_hits(self.board(color, PieceType::King), PieceType::King, None, sq)
    }

    /// Whether a piece of the other colour stands on `from` and gives check
    /// to the king of colour `color`. For a slider the test looks from the
    /// king: along a line on which the slider moves, the first square that
    /// is not empty is `from`.
    pub open spec fn gives_check(&self, color: Color, from: int) -> bool {
        let king = self.board(color, PieceType::King);
        let k = self.king_square(color);
        let enemy = color.other();
        (bit(self.straight_sliders(enemy), from) && straight_sees(
            king,
            self.empty_squares(),
            from,
        )) || (bit(self.diagonal_sliders(enemy), from) && diagonal_sees(
            king,
            self.empty_squares(),
            from,
        )) || (bit(self.board(enemy, PieceType::Knight), from) && knight_reach(from, k)) || (bit(
            self.board(enemy, PieceType::Pawn),
            from,
        ) && pawn_reach(enemy, from, k)) || (bit(self.board(enemy, PieceType::King), from)
            && king_reach(from, k))
    }

    /// Whether the piece on `sq` is the first that the king of colour
    /// `color` meets in direction `d`, and the first that an enemy slider
    /// moving along that line meets from the other side.
    pub open spec fn shields(&self, color: Color, d: Direction, sq: int) -> bool {
        ray_attacks(d, self.board(color, PieceType::King), self.empty_squares(), sq)
            && ray_attacks(
            d.opposite(),
            self.sliders_along(color.other(), d),
            self.empty_squares(),
            sq,
        )
    }

    /// Whether a piece of colour `color` stands on `sq` and is pinned to its
    /// king.
    pub open spec fn is_pinned(&self, color: Color, sq: int) -> bool {
        bit(self.occupied(color), sq) && (self.shields(color, Direction::North, sq)
            || self.shields(color, Direction::NorthEast, sq) || self.shields(
            color,
            Direction::East,
            sq,
        ) || self.shields(color, Direction::SouthEast, sq) || self.shields(
            color,
            Direction::South,
            sq,
        ) || self.shields(color, Direction::SouthWest, sq) || self.shields(
            color,
            Direction::West,
            sq,
        ) || self.shields(color, Direction::NorthWest, sq))
    }

    /// Whether the king of colour `color` would see `sq` along a line of the
    /// given kind if the pieces of `pinned` were not there.
    pub open spec fn on_pin_line(
        &self,
        color: Color,
        line: LineType,
        pinned: u64,
        sq: int,
    ) -> bool {
        let king = self.board(color, PieceType::King);
        let through = self.empty_squares() | pinned;
        match line {
            LineType::Horizontal => ray_attacks(Direction::East, king, through, sq)
                || ray_attacks(Direction::West, king, through, sq),
            LineType::Vertical => ray_attacks(Direction::North, king, through, sq) || ray_attacks(
                Direction::South,
                king,
                through,
                sq,
            ),
            LineType::A1h8 => ray_attacks(Direction::NorthEast, king, through, sq)
                || ray_attacks(Direction::SouthWest, king, through, sq),
            LineType::H1a8 => ray_attacks(Direction::NorthWest, king, through, sq)
                || ray_attacks(Direction::SouthEast, king, through, sq),
        }
    }
}

impl Masks {
    /// The check mask of one colour.
    pub open spec fn checkmask(&self, color: Color) -> u64 {
        match color {
            Color::White => self.white_checkmask,
            Color::Black => self.black_checkmask,
        }
    }

    /// The pieces that give check to the king of one colour.
    pub open spec fn checkers(&self, color: Color) -> u64 {
        match color {
            Color::White => self.white_checkers,
            Color::Black => self.black_checkers,
        }
    }

    /// The squares that one colour attacks.
    pub open spec fn space(&self, color: Color) -> u64 {
        match color {
            Color::White => self.white_space,
            Color::Black => self.black_space,
        }
    }

    /// The pinned pieces of one colour.
    pub open spec fn pinned(&self, color: Color) -> u64 {
        match color {
            Color::White => self.white_pinned,
            Color::Black => self.black_pinned,
        }
    }

    /// The pin masks of one colour.
    pub open spec fn pinmask(&self, color: Color) -> PinMask {
        match color {
            Color::White => self.white_pinmask,
            Color::Black => self.black_pinmask,
        }
    }

    /// The squares that are unsafe for the king of one colour.
    pub open spec fn king_danger(&self, color: Color) -> u64 {
        match color {
            Color::White => self.white_king_danger,
            Color::Black => self.black_king_danger,
        }
    }

    /// What the masks of one colour hold, for a given position.
    ///
    /// - The checkers are the enemy pieces that give check.
    /// - The check mask holds the squares without a piece of the colour on
    ///   them; when the king is in check, only those of them that capture a
    ///   checker or lie between a checker and the king.
    /// - The pinned pieces are those that shield the king from an enemy
    ///   slider.
    /// - Each pin mask holds the squares the king would see along its kind
    ///   of line through the pinned pieces, less those that answer a check.
    /// - The space holds the squares that the colour attacks.
    /// - The king danger holds the squares that the other colour attacks
    ///   once the king of the colour is taken off the board.
    ///
    /// `GameState::lemma_masks_meaning` says the same of checkers, pinned
    /// pieces, space and king danger without the fills: by the pieces, the
    /// lines they move on and the squares between.
    pub open spec fn describes_side(&self, pieces: Pieces, color: Color) -> bool {
        let k = pieces.king_square(color);
        &&& forall|sq: int| #[trigger]
            bit(self.checkers(color), sq) == pieces.gives_check(color, sq)
        &&& forall|sq: int| #[trigger]
            bit(self.checkmask(color), sq) == (on_board(sq) && !bit(pieces.occupied(color), sq)
                && (self.checkers(color) != 0 ==> covers_check(self.checkers(color), k, sq)))
        &&& forall|sq: int| #[trigger]
            bit(self.pinned(color), sq) == pieces.is_pinned(color, sq)
        &&& forall|sq: int, line: LineType| #[trigger]
            bit(self.pinmask(color).along(line), sq) == (pieces.on_pin_line(
                color,
                line,
                self.pinned(color),
                sq,
            ) && !covers_check(self.checkers(color), k, sq))
        &&& forall|sq: int| #[trigger]
            bit(self.space(color), sq) == pieces.attacks(color, pieces.empty_squares(), sq)
        &&& forall|sq: int| #[trigger]
            bit(self.king_danger(color), sq) == pieces.attacks(
                color.other(),
                pieces.empty_squares() | pieces.board(color, PieceType::King),
                sq,
            )
    }

    /// The masks are those of the position, for both colours.
    pub open spec fn describes(&self, pieces: Pieces) -> bool {
        self.describes_side(pieces, Color::White) && self.describes_side(pieces, Color::Black)
    }
}

/// The squares that `sliders` see along ranks and files.
pub fn straight_attacks(sliders: u64, empty: u64) -> (r: u64)
    ensures
        forall|sq: int| #[trigger] bit(r, sq) == straight_sees(sliders, empty, sq),
{
    let n: u64 = nort_attacks(sliders, empty);
    let e: u64 = east_attacks(sliders, empty);
    let s: u64 = sout_attacks(sliders, empty);
    let w: u64 = west_attacks(sliders, empty);
    proof {
        lemma_bit_ops(n, e);
        lemma_bit_ops(n | e, s);
        lemma_bit_ops(n | e | s, w);
    }
    n | e | s | w
}

/// The squares that `sliders` see along diagonals.
pub fn diagonal_attacks(sliders: u64, empty: u64) -> (r: u64)
    ensures
        forall|sq: int| #[trigger] bit(r, sq) == diagonal_sees(sliders, empty, sq),
{
    let ne: u64 = noea_attacks(sliders, empty);
    let se: u64 = soea_attacks(sliders, empty);
    let sw: u64 = sowe_attacks(sliders, empty);
    let nw: u64 = nowe_attacks(sliders, empty);
    proof {
        lemma_bit_ops(ne, se);
        lemma_bit_ops(ne | se, sw);
        lemma_bit_ops(ne | se | sw, nw);
    }
    ne | se | sw | nw
}

/// The squares reached from the squares of `set` by the piece whose table
/// is `table`.
fn leaper_attacks(
    set: u64,
    table: &Vec<u64>,
    Ghost(piece): Ghost<PieceType>,
    Ghost(color): Ghost<Option<Color>>,
) -> (r: u64)
    requires
        table_holds(table@, piece, color),
    ensures
        forall|sq: int| #[trigger] bit(r, sq) == leaper_hits(set, piece, color, sq),
{
    let mut rest: u64 = set;
    let mut reached: u64 = 0;
    proof {
        lemma_bit_consts();
    }
    while rest != 0
        invariant
            table_holds(table@, piece, color),
            forall|from: int| bit(rest, from) ==> bit(set, from),
            forall|sq: int| #[trigger]
                bit(reached, sq) == (exists|from: int|
                    bit(set, from) && !bit(rest, from) && reaches(piece, color, from, sq)),
        decreases rest,
    {
        let from: usize = lowest_square(rest);
        let next: u64 = without_lowest(rest);
        let row: u64 = table[from];
        proof {
            lemma_bit_ops(reached, row);
            assert forall|sq: int| #[trigger]
                bit(reached | row, sq) == (exists|f: int|
                    bit(set, f) && !bit(next, f) && reaches(piece, color, f, sq)) by {
                assert(bit(row, sq) == reaches(piece, color, from as int, sq));
                if bit(reached, sq) {
                    let f = choose|f: int|
                        bit(set, f) && !bit(rest, f) && reaches(piece, color, f, sq);
                    assert(bit(set, f) && !bit(next, f) && reaches(piece, color, f, sq));
                }
                if bit(row, sq) {
                    assert(bit(set, from as int) && !bit(next, from as int) && reaches(
                        piece,
                        color,
                        from as int,
                        sq,
                    ));
                }
                if exists|f: int| bit(set, f) && !bit(next, f) && reaches(piece, color, f, sq) {
                    let f = choose|f: int|
                        bit(set, f) && !bit(next, f) && reaches(piece, color, f, sq);
                    if f != from {
                        assert(bit(set, f) && !bit(rest, f) && reaches(piece, color, f, sq));
                    }
                }
            }
        }
        reached = reached | row;
        rest = next;
    }
    proof {
        lemma_zero_iff_empty(rest);
        assert forall|sq: int| #[trigger] bit(reached, sq) == leaper_hits(
            set,
            piece,
            color,
            sq,
        ) by {
            if bit(reached, sq) {
                let f = choose|f: int|
                    bit(set, f) && !bit(rest, f) && reaches(piece, color, f, sq);
                assert(bit(set, f) && reaches(piece, color, f, sq));
            }
            if leaper_hits(set, piece, color, sq) {
                let f = choose|f: int| bit(set, f) && reaches(piece, color, f, sq);
                assert(bit(set, f) && !bit(rest, f) && reaches(piece, color, f, sq));
            }
        }
    }
    reached
}

/// The squares that the pieces of one colour attack, sliders passing over
/// the squares of `empty`.
pub fn attacked_squares(pieces: &Pieces, tables: &Tables, color: Color, empty: u64) -> (r: u64)
    requires
        tables.wf(),
    ensures
        forall|sq: int| #[trigger] bit(r, sq) == pieces.attacks(color, empty, sq),
{
    let queens: u64 = pieces.bitboard(color, PieceType::Queen);
    let straight: u64 = straight_attacks(pieces.bitboard(color, PieceType::Rook) | queens, empty);
    let diagonal: u64 = diagonal_attacks(
        pieces.bitboard(color, PieceType::Bishop) | queens,
        empty,
    );
    let knights: u64 = leaper_attacks(
        pieces.bitboard(color, PieceType::Knight),
        &tables.knight,
        Ghost(PieceType::Knight),
        Ghost(None),
    );
    let pawns: u64 = match color {
        Color::White => leaper_attacks(
            pieces.bitboard(color, PieceType::Pawn),
            &tables.white_pawn,
            Ghost(PieceType::Pawn),
            Ghost(Some(Color::White)),
        ),
        Color::Black => leaper_attacks(
            pieces.bitboard(color, PieceType::Pawn),
            &tables.black_pawn,
            Ghost(PieceType::Pawn),
            Ghost(Some(Color::Black)),
        ),
    };
    let king: u64 = leaper_attacks(
        pieces.bitboard(color, PieceType::King),
        &tables.king,
        Ghost(PieceType::King),
        Ghost(None),
    );
    proof {
        lemma_bit_ops(straight, diagonal);
        lemma_bit_ops(straight | diagonal, knights);
        lemma_bit_ops(straight | diagonal | knights, pawns);
        lemma_bit_ops(straight | diagonal | knights | pawns, king);
    }
    straight | diagonal | knights | pawns | king
}

/// Nothing lies between a square and one that is a knight's leap or a
/// king's step away from it.
pub proof fn lemma_nothing_between(a: int, b: int)
    requires
        knight_reach(b, a) || king_reach(b, a),
    ensures
        forall|sq: int| !between(a, b, sq),
{
    lemma_square_parts(a);
    lemma_square_parts(b);
    assert forall|sq: int| !between(a, b, sq) by {
        if on_board(sq) {
            lemma_square_parts(sq);
        }
    }
}

impl Pieces {
    /// Each king stands alone on its bitboard.
    pub proof fn lemma_king(&self, color: Color)
        requires
            self.wf(),
        ensures
            only(self.board(color, PieceType::King), self.king_square(color)),
            on_board(self.king_square(color)),
            self.at(self.king_square(color)) == Some((color, PieceType::King)),
            bit(self.occupied(color), self.king_square(color)),
    {
        let k = self.king_square(color);
        assert(bit(self.board(color, PieceType::King), k) == (self.at(k) == Some(
            (color, PieceType::King),
        )));
        assert(bit(self.occupied(color), k) == (self.at(k) matches Some(x) && x.0 == color));
    }

    /// The square of the king of one colour.
    pub fn king_index(&self, color: Color) -> (r: usize)
        requires
            self.wf(),
        ensures
            r == self.king_square(color),
            r < 64,
    {
        proof {
            self.lemma_king(color);
            lemma_only(self.board(color, PieceType::King), self.king_square(color));
        }
        lowest_square(self.bitboard(color, PieceType::King))
    }

    /// The squares on which nothing stands.
    pub fn vacant(&self) -> (r: u64)
        ensures
            r == self.empty_squares(),
    {
        !(self.white_pieces | self.black_pieces)
    }

    /// The enemy pieces that give check to the king of one colour: first
    /// the sliders among them, then all of them.
    fn checkers_of(&self, tables: &Tables, color: Color) -> (r: (u64, u64))
        requires
            self.wf(),
            tables.wf(),
        ensures
            forall|sq: int| #[trigger] bit(r.1, sq) == self.gives_check(color, sq),
            forall|sq: int| #[trigger]
                bit(r.0, sq) ==> bit(r.1, sq) && (straight_sees(
                    self.board(color, PieceType::King),
                    self.empty_squares(),
                    sq,
                ) || diagonal_sees(
                    self.board(color, PieceType::King),
                    self.empty_squares(),
                    sq,
                )),
            forall|sq: int| #[trigger]
                bit(r.1, sq) && !bit(r.0, sq) ==> knight_reach(sq, self.king_square(color))
                    || king_reach(sq, self.king_square(color)),
    {
        let enemy: Color = color.invert();
        let king: u64 = self.bitboard(color, PieceType::King);
        let k: usize = self.king_index(color);
        let empty: u64 = self.vacant();
        let queens: u64 = self.bitboard(enemy, PieceType::Queen);
        let rooks: u64 = self.bitboard(enemy, PieceType::Rook) | queens;
        let bishops: u64 = self.bitboard(enemy, PieceType::Bishop) | queens;
        let straight: u64 = straight_attacks(king, empty);
        let diagonal: u64 = diagonal_attacks(king, empty);
        let knights: u64 = tables.knight[k] & self.bitboard(enemy, PieceType::Knight);
        let pawn_row: u64 = match color {
            Color::White => tables.white_pawn[k],
            Color::Black => tables.black_pawn[k],
        };
        let pawns: u64 = pawn_row & self.bitboard(enemy, PieceType::Pawn);
        let kings: u64 = tables.king[k] & self.bitboard(enemy, PieceType::King);
        let sliding: u64 = (straight & rooks) | (diagonal & bishops);
        let all: u64 = sliding | knights | pawns | kings;
        proof {
            lemma_bit_ops(straight, rooks);
            lemma_bit_ops(diagonal, bishops);
            lemma_bit_ops(straight & rooks, diagonal & bishops);
            lemma_bit_ops(tables.knight[k as int], self.board(enemy, PieceType::Knight));
            lemma_bit_ops(pawn_row, self.board(enemy, PieceType::Pawn));
            lemma_bit_ops(tables.king[k as int], self.board(enemy, PieceType::King));
            lemma_bit_ops(sliding, knights);
            lemma_bit_ops(sliding | knights, pawns);
            lemma_bit_ops(sliding | knights | pawns, kings);
            lemma_square_parts(k as int);
            assert forall|sq: int| #[trigger] bit(all, sq) == self.gives_check(color, sq) by {
                assert(bit(tables.knight[k as int], sq) == reaches(
                    PieceType::Knight,
                    None,
                    k as int,
                    sq,
                ));
                assert(bit(tables.king[k as int], sq) == reaches(
                    PieceType::King,
                    None,
                    k as int,
                    sq,
                ));
                assert(bit(pawn_row, sq) == reaches(PieceType::Pawn, Some(color), k as int, sq));
                if on_board(sq) {
                    lemma_square_parts(sq);
                }
            }
            assert forall|sq: int| #[trigger] bit(all, sq) && !bit(sliding, sq)
                implies knight_reach(sq, self.king_square(color)) || king_reach(
                sq,
                self.king_square(color),
            ) by {
                assert(bit(tables.knight[k as int], sq) == reaches(
                    PieceType::Knight,
                    None,
                    k as int,
                    sq,
                ));
                assert(bit(tables.king[k as int], sq) == reaches(
                    PieceType::King,
                    None,
                    k as int,
                    sq,
                ));
                assert(bit(pawn_row, sq) == reaches(PieceType::Pawn, Some(color), k as int, sq));
                if on_board(sq) {
                    lemma_square_parts(sq);
                }
            }
        }
        (sliding, all)
    }

    /// A checking slider stands on a line with the king.
    proof fn lemma_slider_aligned(&self, color: Color, sq: int)
        requires
            self.wf(),
            straight_sees(self.board(color, PieceType::King), self.empty_squares(), sq)
                || diagonal_sees(self.board(color, PieceType::King), self.empty_squares(), sq),
        ensures
            crate::board::aligned(self.king_square(color), sq),
            on_board(sq),
    {
        let king = self.board(color, PieceType::King);
        let k = self.king_square(color);
        let empty = self.empty_squares();
        self.lemma_king(color);
        let d = if ray_attacks(Direction::North, king, empty, sq) {
            Direction::North
        } else if ray_attacks(Direction::East, king, empty, sq) {
            Direction::East
        } else if ray_attacks(Direction::South, king, empty, sq) {
            Direction::South
        } else if ray_attacks(Direction::West, king, empty, sq) {
            Direction::West
        } else if ray_attacks(Direction::NorthEast, king, empty, sq) {
            Direction::NorthEast
        } else if ray_attacks(Direction::SouthEast, king, empty, sq) {
            Direction::SouthEast
        } else if ray_attacks(Direction::SouthWest, king, empty, sq) {
            Direction::SouthWest
        } else {
            Direction::NorthWest
        };
        lemma_ray_from_one(d, king, empty, k, sq);
        lemma_direction_aligned(d, k, sq);
    }

    /// The squares that capture one of the checkers or lie between one of
    /// them and the king.
    fn check_cover(&self, tables: &Tables, color: Color, sliding: u64, all: u64) -> (r: u64)
        requires
            self.wf(),
            tables.wf(),
            forall|sq: int| #[trigger]
                bit(sliding, sq) ==> bit(all, sq) && (straight_sees(
                    self.board(color, PieceType::King),
                    self.empty_squares(),
                    sq,
                ) || diagonal_sees(
                    self.board(color, PieceType::King),
                    self.empty_squares(),
                    sq,
                )),
            forall|sq: int| #[trigger]
                bit(all, sq) && !bit(sliding, sq) ==> knight_reach(sq, self.king_square(color))
                    || king_reach(sq, self.king_square(color)),
        ensures
            forall|sq: int| #[trigger]
                bit(r, sq) == covers_check(all, self.king_square(color), sq),
    {
        let k: usize = self.king_index(color);
        let mut cover: u64 = all;
        let mut rest: u64 = sliding;
        let ghost kk: int = k as int;
        while rest != 0
            invariant
                self.wf(),
                tables.wf(),
                k < 64,
                kk == k,
                kk == self.king_square(color),
                forall|sq: int| bit(rest, sq) ==> bit(sliding, sq),
                forall|sq: int| #[trigger]
                    bit(sliding, sq) ==> bit(all, sq) && (straight_sees(
                        self.board(color, PieceType::King),
                        self.empty_squares(),
                        sq,
                    ) || diagonal_sees(
                        self.board(color, PieceType::King),
                        self.empty_squares(),
                        sq,
                    )),
                forall|sq: int| #[trigger]
                    bit(cover, sq) == (bit(all, sq) || exists|from: int|
                        bit(sliding, from) && !bit(rest, from) && between(kk, from, sq)),
            decreases rest,
        {
            let from: usize = lowest_square(rest);
            let next: u64 = without_lowest(rest);
            proof {
                assert(bit(sliding, from as int));
                self.lemma_slider_aligned(color, from as int);
            }
            let span: u64 = tables.squares_between(k, from);
            proof {
                lemma_bit_ops(cover, span);
                assert forall|sq: int| #[trigger]
                    bit(cover | span, sq) == (bit(all, sq) || exists|f: int|
                        bit(sliding, f) && !bit(next, f) && between(kk, f, sq)) by {
                    if bit(cover, sq) && !bit(all, sq) {
                        let f = choose|f: int|
                            bit(sliding, f) && !bit(rest, f) && between(kk, f, sq);
                        assert(bit(sliding, f) && !bit(next, f) && between(kk, f, sq));
                    }
                    if bit(span, sq) {
                        assert(bit(sliding, from as int) && !bit(next, from as int) && between(
                            kk,
                            from as int,
                            sq,
                        ));
                    }
                    if exists|f: int| bit(sliding, f) && !bit(next, f) && between(kk, f, sq) {
                        let f = choose|f: int|
                            bit(sliding, f) && !bit(next, f) && between(kk, f, sq);
                        if f != from {
                            assert(bit(sliding, f) && !bit(rest, f) && between(kk, f, sq));
                        }
                    }
                }
            }
            cover = cover | span;
            rest = next;
        }
        proof {
            lemma_zero_iff_empty(rest);
            assert forall|sq: int| #[trigger] bit(cover, sq) == covers_check(all, kk, sq) by {
                if bit(cover, sq) {
                    if bit(all, sq) {
                        assert(bit(all, sq) && (sq == sq || between(kk, sq, sq)));
                    } else {
                        let f = choose|f: int|
                            bit(sliding, f) && !bit(rest, f) && between(kk, f, sq);
                        assert(bit(all, f) && (sq == f || between(kk, f, sq)));
                    }
                }
                if covers_check(all, kk, sq) {
                    let f = choose|f: int| bit(all, f) && (sq == f || between(kk, f, sq));
                    if sq != f {
                        if !bit(sliding, f) {
                            lemma_nothing_between(kk, f);
                        }
                        assert(bit(sliding, f) && !bit(rest, f) && between(kk, f, sq));
                    }
                }
            }
        }
        cover
    }

    /// The pieces of one colour that are pinned to their king.
    fn pinned_of(&self, color: Color) -> (r: u64)
        ensures
            forall|sq: int| #[trigger] bit(r, sq) == self.is_pinned(color, sq),
    {
        let enemy: Color = color.invert();
        let king: u64 = self.bitboard(color, PieceType::King);
        let empty: u64 = self.vacant();
        let queens: u64 = self.bitboard(enemy, PieceType::Queen);
        let rooks: u64 = self.bitboard(enemy, PieceType::Rook) | queens;
        let bishops: u64 = self.bitboard(enemy, PieceType::Bishop) | queens;
        let king_n: u64 = nort_attacks(king, empty);
        let king_ne: u64 = noea_attacks(king, empty);
        let king_e: u64 = east_attacks(king, empty);
        let king_se: u64 = soea_attacks(king, empty);
        let king_s: u64 = sout_attacks(king, empty);
        let king_sw: u64 = sowe_attacks(king, empty);
        let king_w: u64 = west_attacks(king, empty);
        let king_nw: u64 = nowe_attacks(king, empty);
        let from_n: u64 = sout_attacks(rooks, empty);
        let from_ne: u64 = sowe_attacks(bishops, empty);
        let from_e: u64 = west_attacks(rooks, empty);
        let from_se: u64 = nowe_attacks(bishops, empty);
        let from_s: u64 = nort_attacks(rooks, empty);
        let from_sw: u64 = noea_attacks(bishops, empty);
        let from_w: u64 = east_attacks(rooks, empty);
        let from_nw: u64 = soea_attacks(bishops, empty);
        let n: u64 = king_n & from_n;
        let ne: u64 = king_ne & from_ne;
        let e: u64 = king_e & from_e;
        let se: u64 = king_se & from_se;
        let s: u64 = king_s & from_s;
        let sw: u64 = king_sw & from_sw;
        let w: u64 = king_w & from_w;
        let nw: u64 = king_nw & from_nw;
        let own: u64 = self.side(color);
        proof {
            lemma_bit_ops(king_n, from_n);
            lemma_bit_ops(king_ne, from_ne);
            lemma_bit_ops(king_e, from_e);
            lemma_bit_ops(king_se, from_se);
            lemma_bit_ops(king_s, from_s);
            lemma_bit_ops(king_sw, from_sw);
            lemma_bit_ops(king_w, from_w);
            lemma_bit_ops(king_nw, from_nw);
            lemma_bit_ops(n, ne);
            lemma_bit_ops(n | ne, e);
            lemma_bit_ops(n | ne | e, se);
            lemma_bit_ops(n | ne | e | se, s);
            lemma_bit_ops(n | ne | e | se | s, sw);
            lemma_bit_ops(n | ne | e | se | s | sw, w);
            lemma_bit_ops(n | ne | e | se | s | sw | w, nw);
            lemma_bit_ops(n | ne | e | se | s | sw | w | nw, own);
        }
        (n | ne | e | se | s | sw | w | nw) & own
    }

    /// For each kind of line, the squares that the king sees along it
    /// through the pinned pieces, less the squares of `cover`.
    fn pin_lines(&self, color: Color, pinned: u64, cover: u64) -> (r: PinMask)
        ensures
            forall|sq: int, line: LineType| #[trigger]
                bit(r.along(line), sq) == (self.on_pin_line(color, line, pinned, sq) && !bit(
                    cover,
                    sq,
                )),
    {
        let king: u64 = self.bitboard(color, PieceType::King);
        let through: u64 = self.vacant() | pinned;
        let keep: u64 = !cover;
        let e: u64 = east_attacks(king, through);
        let w: u64 = west_attacks(king, through);
        let n: u64 = nort_attacks(king, through);
        let s: u64 = sout_attacks(king, through);
        let ne: u64 = noea_attacks(king, through);
        let sw: u64 = sowe_attacks(king, through);
        let nw: u64 = nowe_attacks(king, through);
        let se: u64 = soea_attacks(king, through);
        proof {
            lemma_bit_ops(cover, cover);
            lemma_bit_ops(e, w);
            lemma_bit_ops(n, s);
            lemma_bit_ops(ne, sw);
            lemma_bit_ops(nw, se);
            lemma_bit_ops(e | w, keep);
            lemma_bit_ops(n | s, keep);
            lemma_bit_ops(ne | sw, keep);
            lemma_bit_ops(nw | se, keep);
        }
        PinMask { h: (e | w) & keep, v: (n | s) & keep, d1: (ne | sw) & keep, d2: (nw | se) & keep }
    }
}

/// The masks of one colour.
struct SideMasks {
    checkmask: u64,
    checkers: u64,
    space: u64,
    pinned: u64,
    pinmask: PinMask,
    king_danger: u64,
}

impl Pieces {
    /// Derives the masks of one colour.
    fn side_masks(&self, tables: &Tables, color: Color) -> (r: SideMasks)
        requires
            self.wf(),
            tables.wf(),
        ensures
            forall|sq: int| #[trigger] bit(r.checkers, sq) == self.gives_check(color, sq),
            forall|sq: int| #[trigger]
                bit(r.checkmask, sq) == (on_board(sq) && !bit(self.occupied(color), sq) && (
                r.checkers != 0 ==> covers_check(r.checkers, self.king_square(color), sq))),
            forall|sq: int| #[trigger] bit(r.pinned, sq) == self.is_pinned(color, sq),
            forall|sq: int, line: LineType| #[trigger]
                bit(r.pinmask.along(line), sq) == (self.on_pin_line(color, line, r.pinned, sq)
                    && !covers_check(r.checkers, self.king_square(color), sq)),
            forall|sq: int| #[trigger]
                bit(r.space, sq) == self.attacks(color, self.empty_squares(), sq),
            forall|sq: int| #[trigger]
                bit(r.king_danger, sq) == self.attacks(
                    color.other(),
                    self.empty_squares() | self.board(color, PieceType::King),
                    sq,
                ),
    {
        let own: u64 = self.side(color);
        let empty: u64 = self.vacant();
        let (sliding, checkers) = self.checkers_of(tables, color);
        let cover: u64 = self.check_cover(tables, color, sliding, checkers);
        let pinned: u64 = self.pinned_of(color);
        let pinmask: PinMask = self.pin_lines(color, pinned, cover);
        let answers: u64 = if checkers == 0 {
            ALL_BITS
        } else {
            cover
        };
        proof {
            lemma_bit_consts();
            lemma_bit_ops(own, own);
            lemma_bit_ops(answers, !own);
        }
        let checkmask: u64 = answers & !own;
        let space: u64 = attacked_squares(self, tables, color, empty);
        let king_danger: u64 = attacked_squares(
            self,
            tables,
            color.invert(),
            empty | self.bitboard(color, PieceType::King),
        );
        SideMasks { checkmask, checkers, space, pinned, pinmask, king_danger }
    }
}

impl Masks {
    /// Derives every mask of a position.
    pub fn compute(pieces: &Pieces, tables: &Tables) -> (r: Masks)
        requires
            pieces.wf(),
            tables.wf(),
        ensures
            r.describes(*pieces),
    {
        let white: SideMasks = pieces.side_masks(tables, Color::White);
        let black: SideMasks = pieces.side_masks(tables, Color::Black);
        Masks {
            white_checkmask: white.checkmask,
            black_checkmask: black.checkmask,
            white_space: white.space,
            black_space: black.space,
            white_checkers: white.checkers,
            black_checkers: black.checkers,
            white_pinmask: white.pinmask,
            black_pinmask: black.pinmask,
            white_pinned: white.pinned,
            black_pinned: black.pinned,
            white_king_danger: white.king_danger,
            black_king_danger: black.king_danger,
        }
    }

    /// The check mask of one colour.
    pub fn checkmask_of(&self, color: Color) -> (r: u64)
        ensures
            r == self.checkmask(color),
    {
        match color {
            Color::White => self.white_checkmask,
            Color::Black => self.black_checkmask,
        }
    }

    /// The pieces that give check to the king of one colour.
    pub fn checkers_of(&self, color: Color) -> (r: u64)
        ensures
            r == self.checkers(color),
    {
        match color {
            Color::White => self.white_checkers,
            Color::Black => self.black_checkers,
        }
    }

    /// The squares that one colour attacks.
    pub fn space_of(&self, color: Color) -> (r: u64)
        ensures
            r == self.space(color),
    {
        match color {
            Color::White => self.white_space,
            Color::Black => self.black_space,
        }
    }

    /// The pinned pieces of one colour.
    pub fn pinned_of(&self, color: Color) -> (r: u64)
        ensures
            r == self.pinned(color),
    {
        match color {
            Color::White => self.white_pinned,
            Color::Black => self.black_pinned,
        }
    }

    /// The pin masks of one colour.
    pub fn pinmask_of(&self, color: Color) -> (r: PinMask)
        ensures
            r == self.pinmask(color),
    {
        match color {
            Color::White => self.white_pinmask,
            Color::Black => self.black_pinmask,
        }
    }

    /// The squares that are unsafe for the king of one colour.
    pub fn king_danger_of(&self, color: Color) -> (r: u64)
        ensures
            r == self.king_danger(color),
    {
        match color {
            Color::White => self.white_king_danger,
            Color::Black => self.black_king_danger,
        }
    }
}

impl Masks {
    /// A position has one set of masks.
    pub proof fn lemma_determined(&self, other: Masks, pieces: Pieces)
        requires
            self.describes(pieces),
            other.describes(pieces),
        ensures
            *self == other,
    {
        assert forall|c: Color|
            #![trigger self.checkers(c)]
            self.checkers(c) == other.checkers(c) && self.checkmask(c) == other.checkmask(c)
                && self.pinned(c) == other.pinned(c) && self.pinmask(c) == other.pinmask(c)
                && self.space(c) == other.space(c) && self.king_danger(c) == other.king_danger(
                c,
            ) by {
            assert(self.describes_side(pieces, c));
            assert(other.describes_side(pieces, c));
            lemma_bits_equal(self.checkers(c), other.checkers(c));
            lemma_bits_equal(self.checkmask(c), other.checkmask(c));
            lemma_bits_equal(self.pinned(c), other.pinned(c));
            lemma_bits_equal(self.space(c), other.space(c));
            lemma_bits_equal(self.king_danger(c), other.king_danger(c));
            assert forall|line: LineType| #[trigger]
                self.pinmask(c).along(line) == other.pinmask(c).along(line) by {
                lemma_bits_equal(self.pinmask(c).along(line), other.pinmask(c).along(line));
            }
            assert(self.pinmask(c).along(LineType::Horizontal) == other.pinmask(c).along(
                LineType::Horizontal,
            ));
            assert(self.pinmask(c).along(LineType::Vertical) == other.pinmask(c).along(
                LineType::Vertical,
            ));
            assert(self.pinmask(c).along(LineType::A1h8) == other.pinmask(c).along(
                LineType::A1h8,
            ));
            assert(self.pinmask(c).along(LineType::H1a8) == other.pinmask(c).along(
                LineType::H1a8,
            ));
        }
        assert(self.checkers(Color::White) == other.checkers(Color::White));
        assert(self.checkers(Color::Black) == other.checkers(Color::Black));
    }
}

} // verus!
