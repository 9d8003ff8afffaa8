//! Reading a game state from its description in Forsyth-Edwards notation:
//! six fields separated by single spaces, which give the placement of the
//! pieces, the side to move, the castling rights, the en-passant target and
//! the two counters.

use vstd::prelude::*;
use vstd::string::StringSliceAdditionalSpecFns;
use crate::board::{on_board, Color, PieceType};
use crate::game::{GameState, StateError};
use crate::lookup::Tables;
use crate::position::{described, king_only_on, one_king, Pieces, PositionError};

verus! {

/// Why a text describes no game state. Where several reasons hold, the
/// first in this order is given.
#[derive(Clone, Copy, Debug, PartialEq, Eq, Structural)]
pub enum FenError {
    /// The text does not consist of six fields.
    Fields,
    /// The placement does not consist of eight ranks of eight squares each,
    /// or holds a character that stands for nothing.
    Placement,
    /// The side to move is neither `w` nor `b`.
    Side,
    /// The castling rights are neither `-` nor made of the letters `KQkq`.
    Castling,
    /// The en-passant target is neither `-` nor a square.
    EnPassant,
    /// A counter is no decimal number, or too large.
    Counter,
    /// White does not have exactly one king.
    WhiteKing,
    /// Black does not have exactly one king.
    BlackKing,
}

/// The space, which separates the fields.
pub const SPACE: u8 = 32;

/// The dash, which stands for no castling right and for no en-passant target.
pub const DASH: u8 = 45;

/// The slash, which separates the ranks of a placement.
pub const SLASH: u8 = 47;

/// The digit `0`.
pub const DIGIT_0: u8 = 48;

/// The digit `1`.
pub const DIGIT_1: u8 = 49;

/// The digit `8`.
pub const DIGIT_8: u8 = 56;

/// The digit `9`.
pub const DIGIT_9: u8 = 57;

/// The letter `B`.
pub const UPPER_B: u8 = 66;

/// The letter `K`.
pub const UPPER_K: u8 = 75;

/// The letter `N`.
pub const UPPER_N: u8 = 78;

/// The letter `P`.
pub const UPPER_P: u8 = 80;

/// The letter `Q`.
pub const UPPER_Q: u8 = 81;

/// The letter `R`.
pub const UPPER_R: u8 = 82;

/// The letter `W`.
pub const UPPER_W: u8 = 87;

/// The letter `a`.
pub const LOWER_A: u8 = 97;

/// The letter `b`.
pub const LOWER_B: u8 = 98;

/// The letter `h`.
pub const LOWER_H: u8 = 104;

/// The letter `k`.
pub const LOWER_K: u8 = 107;

/// The letter `n`.
pub const LOWER_N: u8 = 110;

/// The letter `p`.
pub const LOWER_P: u8 = 112;

/// The letter `q`.
pub const LOWER_Q: u8 = 113;

/// The letter `r`.
pub const LOWER_R: u8 = 114;

/// The letter `w`.
pub const LOWER_W: u8 = 119;

/// A square as a description holds it: empty, or a piece.
pub type Cell = Option<(Color, PieceType)>;

/// The index of the first separator at or after `from`, or the length of
/// the text if there is none.
pub open spec fn next_sep(text: Seq<u8>, sep: u8, from: int) -> int
    decreases text.len() - from,
{
    if from < 0 || from >= text.len() {
        text.len() as int
    } else if text[from] == sep {
        from
    } else {
        next_sep(text, sep, from + 1)
    }
}

/// Where the field with number `n` starts: the first at the start of the
/// text, each other behind the separator that ends the field before it.
pub open spec fn field_start(text: Seq<u8>, sep: u8, n: nat) -> int
    decreases n,
{
    if n == 0 {
        0
    } else {
        next_sep(text, sep, field_start(text, sep, (n - 1) as nat)) + 1
    }
}

/// Where the field with number `n` ends.
pub open spec fn field_end(text: Seq<u8>, sep: u8, n: nat) -> int {
    next_sep(text, sep, field_start(text, sep, n))
}

/// The field with number `n`.
pub open spec fn field(text: Seq<u8>, sep: u8, n: nat) -> Seq<u8> {
    text.subrange(field_start(text, sep, n), field_end(text, sep, n))
}

/// Whether the text consists of exactly `n` fields: a separator ends each
/// but the last, which ends with the text.
pub open spec fn splits_into(text: Seq<u8>, sep: u8, n: nat) -> bool {
    n > 0 && field_end(text, sep, (n - 1) as nat) == text.len() && forall|i: nat|
        i + 1 < n ==> #[trigger] field_end(text, sep, i) < text.len()
}

/// Finds the end of the field that starts at `from`.
fn scan(text: &[u8], sep: u8, from: usize) -> (end: usize)
    requires
        from <= text.len(),
    ensures
        end == next_sep(text@, sep, from as int),
        from <= end <= text.len(),
{
    let mut at: usize = from;
    while at < text.len() && text[at] != sep
        invariant
            from <= at <= text.len(),
            next_sep(text@, sep, from as int) == next_sep(text@, sep, at as int),
        decreases text.len() - at,
    {
        at += 1;
    }
    at
}

/// A copy of a part of the text.
fn copy_range(text: &[u8], start: usize, end: usize) -> (part: Vec<u8>)
    requires
        start <= end <= text.len(),
    ensures
        part@ == text@.subrange(start as int, end as int),
{
    let mut part: Vec<u8> = Vec::new();
    let mut at: usize = start;
    while at < end
        invariant
            start <= at <= end <= text.len(),
            part@ == text@.subrange(start as int, at as int),
        decreases end - at,
    {
        part.push(text[at]);
        proof {
            assert(part@ =~= text@.subrange(start as int, at + 1));
        }
        at += 1;
    }
    part
}

/// Splits a text into exactly `n` fields, if it consists of as many.
fn split_fields(text: &[u8], sep: u8, n: usize) -> (r: Option<Vec<Vec<u8>>>)
    requires
        n > 0,
    ensures
        r is Some == splits_into(text@, sep, n as nat),
        r matches Some(parts) ==> parts@.len() == n && forall|i: int|
            0 <= i < n ==> (#[trigger] parts@[i])@ == field(text@, sep, i as nat),
{
    let mut parts: Vec<Vec<u8>> = Vec::new();
    let mut start: usize = 0;
    let mut i: usize = 0;
    while i < n
        invariant
            i <= n,
            n > 0,
            parts@.len() == i,
            start <= text.len(),
            i < n ==> start == field_start(text@, sep, i as nat),
            i == n ==> field_end(text@, sep, (n - 1) as nat) == text.len(),
            forall|k: nat| k < i && k + 1 < n ==> #[trigger] field_end(text@, sep, k) < text.len(),
            forall|k: int| 0 <= k < i ==> (#[trigger] parts@[k])@ == field(text@, sep, k as nat),
        decreases n - i,
    {
        let end: usize = scan(text, sep, start);
        proof {
            assert(end == field_end(text@, sep, i as nat));
        }
        if i + 1 < n {
            if end == text.len() {
                proof {
                    assert(field_end(text@, sep, i as nat) == text.len());
                }
                return None;
            }
        } else {
            if end != text.len() {
                return None;
            }
        }
        parts.push(copy_range(text, start, end));
        if i + 1 < n {
            start = end + 1;
        }
        i += 1;
    }
    Some(parts)
}

/// The piece that a letter of a placement stands for: an upper-case letter
/// for a white piece, a lower-case letter for a black one.
pub open spec fn letter_cell(c: u8) -> Cell {
    if c == UPPER_K {
        Some((Color::White, PieceType::King))
    } else if c == UPPER_Q {
        Some((Color::White, PieceType::Queen))
    } else if c == UPPER_R {
        Some((Color::White, PieceType::Rook))
    } else if c == UPPER_B {
        Some((Color::White, PieceType::Bishop))
    } else if c == UPPER_N {
        Some((Color::White, PieceType::Knight))
    } else if c == UPPER_P {
        Some((Color::White, PieceType::Pawn))
    } else if c == LOWER_K {
        Some((Color::Black, PieceType::King))
    } else if c == LOWER_Q {
        Some((Color::Black, PieceType::Queen))
    } else if c == LOWER_R {
        Some((Color::Black, PieceType::Rook))
    } else if c == LOWER_B {
        Some((Color::Black, PieceType::Bishop))
    } else if c == LOWER_N {
        Some((Color::Black, PieceType::Knight))
    } else if c == LOWER_P {
        Some((Color::Black, PieceType::Pawn))
    } else {
        None
    }
}

/// How many empty squares a character of a placement stands for: the
/// digits from 1 to 8 for as many, anything else for none.
pub open spec fn gap(c: u8) -> nat {
    if DIGIT_1 <= c <= DIGIT_8 {
        (c - DIGIT_0) as nat
    } else {
        0
    }
}

/// The squares that the text of one rank describes, from the a-file on:
/// each letter gives a piece, each digit as many empty squares. A text with
/// any other character describes nothing.
pub open spec fn expand(rank: Seq<u8>) -> Option<Seq<Cell>>
    decreases rank.len(),
{
    if rank.len() == 0 {
        Some(Seq::empty())
    } else {
        match expand(rank.drop_last()) {
            None => None,
            Some(cells) => if letter_cell(rank.last()) is Some {
                Some(cells.push(letter_cell(rank.last())))
            } else if gap(rank.last()) > 0 {
                Some(cells + Seq::new(gap(rank.last()), |i: int| None::<(Color, PieceType)>))
            } else {
                None
            },
        }
    }
}

/// Whether the text is a placement: eight ranks separated by `/`, each of
/// which describes eight squares.
pub open spec fn is_placement(text: Seq<u8>) -> bool {
    splits_into(text, SLASH, 8) && forall|r: nat|
        r < 8 ==> (#[trigger] expand(field(text, SLASH, r)) matches Some(cells) && cells.len() == 8)
}

/// What a placement holds on a square. The text gives the ranks from the
/// eighth down to the first.
#[verifier::opaque]
pub open spec fn placed(text: Seq<u8>, sq: int) -> Cell {
    match expand(field(text, SLASH, (7 - sq / 8) as nat)) {
        Some(cells) => cells[sq % 8],
        None => None,
    }
}

/// The piece that a letter of a placement stands for.
fn cell_for(c: u8) -> (r: Cell)
    ensures
        r == letter_cell(c),
{
    if c == UPPER_K {
        Some((Color::White, PieceType::King))
    } else if c == UPPER_Q {
        Some((Color::White, PieceType::Queen))
    } else if c == UPPER_R {
        Some((Color::White, PieceType::Rook))
    } else if c == UPPER_B {
        Some((Color::White, PieceType::Bishop))
    } else if c == UPPER_N {
        Some((Color::White, PieceType::Knight))
    } else if c == UPPER_P {
        Some((Color::White, PieceType::Pawn))
    } else if c == LOWER_K {
        Some((Color::Black, PieceType::King))
    } else if c == LOWER_Q {
        Some((Color::Black, PieceType::Queen))
    } else if c == LOWER_R {
        Some((Color::Black, PieceType::Rook))
    } else if c == LOWER_B {
        Some((Color::Black, PieceType::Bishop))
    } else if c == LOWER_N {
        Some((Color::Black, PieceType::Knight))
    } else if c == LOWER_P {
        Some((Color::Black, PieceType::Pawn))
    } else {
        None
    }
}

/// The eight squares that the text of one rank describes, if it describes
/// eight.
fn expand_rank(rank: &Vec<u8>) -> (r: Option<Vec<Cell>>)
    ensures
        r is Some == (expand(rank@) matches Some(cells) && cells.len() == 8),
        r matches Some(cells) ==> expand(rank@) == Some(cells@),
{
    let mut cells: Vec<Cell> = Vec::new();
    let mut at: usize = 0;
    proof {
        assert(rank@.take(0) =~= Seq::<u8>::empty());
    }
    while at < rank.len()
        invariant
            at <= rank.len(),
            expand(rank@.take(at as int)) == Some(cells@),
        decreases rank.len() - at,
    {
        let c: u8 = rank[at];
        proof {
            assert(rank@.take(at + 1).drop_last() =~= rank@.take(at as int));
            assert(rank@.take(at + 1).last() == c);
        }
        let ghost before = cells@;
        match cell_for(c) {
            Some(piece) => {
                cells.push(Some(piece));
            },
            None => {
                if DIGIT_1 <= c && c <= DIGIT_8 {
                    let mut left: u8 = c - DIGIT_0;
                    while left > 0
                        invariant
                            left <= c - DIGIT_0,
                            cells@ =~= before + Seq::new(
                                (c - DIGIT_0 - left) as nat,
                                |i: int| None::<(Color, PieceType)>,
                            ),
                        decreases left,
                    {
                        cells.push(None);
                        left -= 1;
                    }
                } else {
                    proof {
                        lemma_expand_fails(rank@, at + 1);
                    }
                    return None;
                }
            },
        }
        at += 1;
    }
    proof {
        assert(rank@.take(at as int) =~= rank@);
    }
    if cells.len() == 8 {
        Some(cells)
    } else {
        None
    }
}

/// A text describes nothing if a part of it from the start describes
/// nothing.
pub proof fn lemma_expand_fails(rank: Seq<u8>, n: int)
    requires
        0 <= n <= rank.len(),
        expand(rank.take(n)) is None,
    ensures
        expand(rank) is None,
    decreases rank.len() - n,
{
    if n < rank.len() {
        assert(rank.take(n + 1).drop_last() =~= rank.take(n));
        lemma_expand_fails(rank, n + 1);
    } else {
        assert(rank.take(n) =~= rank);
    }
}

/// The board that a placement describes.
fn parse_placement(text: &Vec<u8>) -> (r: Option<[Cell; 64]>)
    ensures
        r is Some == is_placement(text@),
        r matches Some(board) ==> forall|sq: int|
            0 <= sq < 64 ==> #[trigger] board[sq] == placed(text@, sq),
{
    let ranks: Vec<Vec<u8>> = match split_fields(text.as_slice(), SLASH, 8) {
        Some(ranks) => ranks,
        None => {
            return None;
        },
    };
    let mut board: [Cell; 64] = [None;64];
    let mut r: usize = 0;
    proof {
        reveal(placed);
    }
    while r < 8
        invariant
            r <= 8,
            ranks@.len() == 8,
            splits_into(text@, SLASH, 8),
            forall|i: int| 0 <= i < 8 ==> (#[trigger] ranks@[i])@ == field(text@, SLASH, i as nat),
            forall|i: nat|
                i < r ==> (#[trigger] expand(field(text@, SLASH, i)) matches Some(cells)
                    && cells.len() == 8),
            forall|sq: int|
                0 <= sq < 64 && 7 - sq / 8 < r ==> #[trigger] board[sq] == placed(text@, sq),
            forall|sq: int|
                placed(text@, sq) == (match expand(field(text@, SLASH, (7 - sq / 8) as nat)) {
                    Some(cells) => cells[sq % 8],
                    None => None,
                }),
        decreases 8 - r,
    {
        let cells: Vec<Cell> = match expand_rank(&ranks[r]) {
            Some(cells) => cells,
            None => {
                proof {
                    assert(ranks@[r as int]@ == field(text@, SLASH, r as nat));
                }
                return None;
            },
        };
        proof {
            assert(ranks@[r as int]@ == field(text@, SLASH, r as nat));
        }
        let mut file: usize = 0;
        while file < 8
            invariant
                file <= 8,
                r < 8,
                forall|sq: int|
                    placed(text@, sq) == (match expand(field(text@, SLASH, (7 - sq / 8) as nat)) {
                        Some(cells) => cells[sq % 8],
                        None => None,
                    }),
                cells@.len() == 8,
                expand(field(text@, SLASH, r as nat)) == Some(cells@),
                forall|sq: int|
                    0 <= sq < 64 && 7 - sq / 8 < r ==> #[trigger] board[sq] == placed(text@, sq),
                forall|sq: int|
                    0 <= sq < 64 && 7 - sq / 8 == r && sq % 8 < file ==> #[trigger] board[sq]
                        == placed(text@, sq),
            decreases 8 - file,
        {
            board[8 * (7 - r) + file] = cells[file];
            file += 1;
        }
        r += 1;
    }
    Some(board)
}

/// The side that a field names: `w` or `b`, in either case.
pub open spec fn side_of(text: Seq<u8>) -> Option<Color> {
    if text.len() == 1 && (text[0] == LOWER_W || text[0] == UPPER_W) {
        Some(Color::White)
    } else if text.len() == 1 && (text[0] == LOWER_B || text[0] == UPPER_B) {
        Some(Color::Black)
    } else {
        None
    }
}

/// Whether a character is one of the letters `KQkq`.
pub open spec fn castling_letter(c: u8) -> bool {
    c == UPPER_K || c == UPPER_Q || c == LOWER_K || c == LOWER_Q
}

/// Whether a field gives castling rights: a lone `-`, or one or more of the
/// letters `KQkq`.
pub open spec fn is_castling(text: Seq<u8>) -> bool {
    text.len() > 0 && ((text.len() == 1 && text[0] == DASH) || forall|i: int|
        0 <= i < text.len() ==> castling_letter(#[trigger] text[i]))
}

/// The en-passant target that a field names: none for `-`, and for a file
/// from `a` to `h` followed by a rank from `1` to `8` that square.
pub open spec fn target_of(text: Seq<u8>) -> Option<Option<usize>> {
    if text.len() == 1 && text[0] == DASH {
        Some(None)
    } else if text.len() == 2 && LOWER_A <= text[0] <= LOWER_H && DIGIT_1 <= text[1] <= DIGIT_8 {
        Some(Some(((text[0] - LOWER_A) + 8 * (text[1] - DIGIT_1)) as usize))
    } else {
        None
    }
}

/// Whether every character of a text is a decimal digit.
pub open spec fn all_digits(text: Seq<u8>) -> bool {
    forall|i: int| 0 <= i < text.len() ==> DIGIT_0 <= #[trigger] text[i] <= DIGIT_9
}

/// The number that the digits of a text write in decimal.
pub open spec fn decimal(text: Seq<u8>) -> nat
    decreases text.len(),
{
    if text.len() == 0 {
        0
    } else {
        10 * decimal(text.drop_last()) + (text.last() - DIGIT_0) as nat
    }
}

/// The counter that a field gives: a decimal number that fits in a `usize`.
pub open spec fn counter_of(text: Seq<u8>) -> Option<usize> {
    if text.len() > 0 && all_digits(text) && decimal(text) <= usize::MAX {
        Some(decimal(text) as usize)
    } else {
        None
    }
}

/// Whether a placement holds exactly one king of a colour.
pub open spec fn places_one_king(text: Seq<u8>, color: Color) -> bool {
    exists|k: int| sole_king(text, color, k)
}

/// Whether the king of a colour stands on `k` and nowhere else in a
/// placement.
pub open spec fn sole_king(text: Seq<u8>, color: Color, k: int) -> bool {
    on_board(k) && forall|sq: int|
        on_board(sq) ==> ((#[trigger] placed(text, sq) == Some((color, PieceType::King))) == (sq
            == k))
}

/// A board that holds what a placement holds has its kings where the
/// placement has them.
proof fn lemma_sole_king(board: [Cell; 64], text: Seq<u8>, color: Color, k: int)
    requires
        forall|sq: int| 0 <= sq < 64 ==> #[trigger] board[sq] == placed(text, sq),
    ensures
        king_only_on(board, color, k) == sole_king(text, color, k),
{
    if king_only_on(board, color, k) {
        assert forall|sq: int| on_board(sq) implies ((#[trigger] placed(text, sq) == Some(
            (color, PieceType::King),
        )) == (sq == k)) by {
            assert(board[sq] == placed(text, sq));
        }
    }
    if sole_king(text, color, k) {
        assert forall|sq: int| on_board(sq) implies ((#[trigger] board[sq] == Some(
            (color, PieceType::King),
        )) == (sq == k)) by {
            assert(board[sq] == placed(text, sq));
        }
    }
}

/// A board that holds what a placement holds has one king of a colour
/// exactly when the placement has.
proof fn lemma_places_one_king(board: [Cell; 64], text: Seq<u8>, color: Color)
    requires
        forall|sq: int| 0 <= sq < 64 ==> #[trigger] board[sq] == placed(text, sq),
    ensures
        one_king(board, color) == places_one_king(text, color),
{
    if one_king(board, color) {
        let k = choose|k: int| king_only_on(board, color, k);
        lemma_sole_king(board, text, color, k);
    }
    if places_one_king(text, color) {
        let k = choose|k: int| sole_king(text, color, k);
        lemma_sole_king(board, text, color, k);
    }
}

/// The first reason for which a text describes no game state, if there is
/// one.
pub open spec fn fen_error(text: Seq<u8>) -> Option<FenError> {
    if !splits_into(text, SPACE, 6) {
        Some(FenError::Fields)
    } else if !is_placement(field(text, SPACE, 0)) {
        Some(FenError::Placement)
    } else if side_of(field(text, SPACE, 1)) is None {
        Some(FenError::Side)
    } else if !is_castling(field(text, SPACE, 2)) {
        Some(FenError::Castling)
    } else if target_of(field(text, SPACE, 3)) is None {
        Some(FenError::EnPassant)
    } else if counter_of(field(text, SPACE, 4)) is None || counter_of(field(text, SPACE, 5))
        is None {
        Some(FenError::Counter)
    } else if !places_one_king(field(text, SPACE, 0), Color::White) {
        Some(FenError::WhiteKing)
    } else if !places_one_king(field(text, SPACE, 0), Color::Black) {
        Some(FenError::BlackKing)
    } else {
        None
    }
}

/// The side that a field names.
fn parse_side(text: &Vec<u8>) -> (r: Option<Color>)
    ensures
        r == side_of(text@),
{
    if text.len() != 1 {
        return None;
    }
    let c: u8 = text[0];
    if c == LOWER_W || c == UPPER_W {
        Some(Color::White)
    } else if c == LOWER_B || c == UPPER_B {
        Some(Color::Black)
    } else {
        None
    }
}

/// Whether a text holds a character.
fn contains(text: &Vec<u8>, c: u8) -> (r: bool)
    ensures
        r == text@.contains(c),
{
    let mut at: usize = 0;
    while at < text.len()
        invariant
            at <= text.len(),
            forall|i: int| 0 <= i < at ==> text@[i] != c,
        decreases text.len() - at,
    {
        if text[at] == c {
            return true;
        }
        at += 1;
    }
    false
}

/// The castling rights that a field gives: White's queenside and kingside,
/// then Black's.
fn parse_castling(text: &Vec<u8>) -> (r: Option<((bool, bool), (bool, bool))>)
    ensures
        r is Some == is_castling(text@),
        r matches Some(rights) ==> rights == (
            (text@.contains(UPPER_Q), text@.contains(UPPER_K)),
            (text@.contains(LOWER_Q), text@.contains(LOWER_K)),
        ),
{
    if text.len() == 0 {
        return None;
    }
    if !(text.len() == 1 && text[0] == DASH) {
        let mut at: usize = 0;
        while at < text.len()
            invariant
                at <= text.len(),
                !(text@.len() == 1 && text@[0] == DASH),
                forall|i: int| 0 <= i < at ==> castling_letter(#[trigger] text@[i]),
            decreases text.len() - at,
        {
            let c: u8 = text[at];
            if !(c == UPPER_K || c == UPPER_Q || c == LOWER_K || c == LOWER_Q) {
                proof {
                    assert(!castling_letter(text@[at as int]));
                    assert(text@.len() != 1 || text@[0] != DASH);
                }
                return None;
            }
            at += 1;
        }
    }
    Some(
        (
            (contains(text, UPPER_Q), contains(text, UPPER_K)),
            (contains(text, LOWER_Q), contains(text, LOWER_K)),
        ),
    )
}

/// The en-passant target that a field names.
fn parse_target(text: &Vec<u8>) -> (r: Option<Option<usize>>)
    ensures
        r == target_of(text@),
{
    if text.len() == 1 && text[0] == DASH {
        return Some(None);
    }
    if text.len() == 2 {
        let file: u8 = text[0];
        let rank: u8 = text[1];
        if LOWER_A <= file && file <= LOWER_H && DIGIT_1 <= rank && rank <= DIGIT_8 {
            let square: u8 = (file - LOWER_A) + 8 * (rank - DIGIT_1);
            return Some(Some(square as usize));
        }
    }
    None
}

/// A longer text of digits writes no smaller number.
proof fn lemma_decimal_grows(text: Seq<u8>, n: int)
    requires
        0 <= n <= text.len(),
        all_digits(text),
    ensures
        decimal(text.take(n)) <= decimal(text),
    decreases text.len() - n,
{
    if n < text.len() {
        assert(text.take(n + 1).drop_last() =~= text.take(n));
        assert(text.take(n + 1).last() == text[n]);
        lemma_decimal_grows(text, n + 1);
    } else {
        assert(text.take(n) =~= text);
    }
}

/// The counter that a field gives.
fn parse_counter(text: &Vec<u8>) -> (r: Option<usize>)
    ensures
        r == counter_of(text@),
{
    if text.len() == 0 {
        return None;
    }
    let mut value: usize = 0;
    let mut at: usize = 0;
    proof {
        assert(text@.take(0) =~= Seq::<u8>::empty());
    }
    while at < text.len()
        invariant
            at <= text.len(),
            all_digits(text@.take(at as int)),
            value == decimal(text@.take(at as int)),
        decreases text.len() - at,
    {
        let c: u8 = text[at];
        if c < DIGIT_0 || c > DIGIT_9 {
            return None;
        }
        let digit: usize = (c - DIGIT_0) as usize;
        proof {
            assert(text@.take(at + 1).drop_last() =~= text@.take(at as int));
            assert(text@.take(at + 1).last() == c);
            assert forall|i: int| 0 <= i < at + 1 implies DIGIT_0 <= #[trigger] text@.take(
                at + 1,
            )[i] <= DIGIT_9 by {
                if i < at {
                    assert(text@.take(at as int)[i] == text@[i]);
                }
            }
        }
        if value > (usize::MAX - digit) / 10 {
            proof {
                if all_digits(text@) {
                    lemma_decimal_grows(text@, at + 1);
                }
            }
            return None;
        }
        value = 10 * value + digit;
        at += 1;
    }
    proof {
        assert(text@.take(at as int) =~= text@);
    }
    Some(value)
}

impl Pieces {
    /// The position that a placement describes: the first field of a
    /// description in Forsyth-Edwards notation. It fails for a text that is
    /// no placement, and for a placement without exactly one king of each
    /// colour.
    pub fn from_placement(position: &str) -> (r: Result<Pieces, FenError>)
        ensures
            match r {
                Ok(pieces) => {
                    &&& is_placement(position.spec_bytes())
                    &&& places_one_king(position.spec_bytes(), Color::White)
                    &&& places_one_king(position.spec_bytes(), Color::Black)
                    &&& pieces.wf()
                    &&& forall|sq: int|
                        on_board(sq) ==> #[trigger] pieces.at(sq) == placed(
                            position.spec_bytes(),
                            sq,
                        )
                },
                Err(FenError::Placement) => !is_placement(position.spec_bytes()),
                Err(FenError::WhiteKing) => is_placement(position.spec_bytes())
                    && !places_one_king(position.spec_bytes(), Color::White),
                Err(FenError::BlackKing) => is_placement(position.spec_bytes())
                    && places_one_king(position.spec_bytes(), Color::White) && !places_one_king(
                    position.spec_bytes(),
                    Color::Black,
                ),
                Err(_) => false,
            },
    {
        let bytes: &[u8] = position.as_bytes();
        let text: Vec<u8> = copy_range(bytes, 0, bytes.len());
        proof {
            assert(text@ =~= position.spec_bytes());
        }
        let board: [Cell; 64] = match parse_placement(&text) {
            Some(board) => board,
            None => {
                return Err(FenError::Placement);
            },
        };
        proof {
            lemma_places_one_king(board, text@, Color::White);
            lemma_places_one_king(board, text@, Color::Black);
        }
        match Pieces::new(&board) {
            Ok(pieces) => {
                proof {
                    assert forall|sq: int| on_board(sq) implies #[trigger] pieces.at(sq)
                        == placed(text@, sq) by {
                        assert(pieces.at(sq) == described(board, sq));
                    }
                }
                Ok(pieces)
            },
            Err(PositionError::WhiteKing) => Err(FenError::WhiteKing),
            Err(PositionError::BlackKing) => Err(FenError::BlackKing),
        }
    }
}

impl GameState {
    /// The state that a text in Forsyth-Edwards notation describes, or the
    /// first reason for which it describes none.
    pub fn from_fen(fen: &str, tables: &Tables) -> (r: Result<GameState, FenError>)
        requires
            tables.wf(),
        ensures
            match r {
                Ok(state) => {
                    let text = fen.spec_bytes();
                    &&& fen_error(text) is None
                    &&& state.wf()
                    &&& forall|sq: int|
                        on_board(sq) ==> #[trigger] state.pieces.at(sq) == placed(
                            field(text, SPACE, 0),
                            sq,
                        )
                    &&& Some(state.active_color) == side_of(field(text, SPACE, 1))
                    &&& state.white_castling == (
                        field(text, SPACE, 2).contains(UPPER_Q),
                        field(text, SPACE, 2).contains(UPPER_K),
                    )
                    &&& state.black_castling == (
                        field(text, SPACE, 2).contains(LOWER_Q),
                        field(text, SPACE, 2).contains(LOWER_K),
                    )
                    &&& Some(state.en_passant) == target_of(field(text, SPACE, 3))
                    &&& Some(state.halfmoves) == counter_of(field(text, SPACE, 4))
                    &&& Some(state.fullmoves) == counter_of(field(text, SPACE, 5))
                },
                Err(e) => fen_error(fen.spec_bytes()) == Some(e),
            },
    {
        let text: &[u8] = fen.as_bytes();
        let fields: Vec<Vec<u8>> = match split_fields(text, SPACE, 6) {
            Some(fields) => fields,
            None => {
                return Err(FenError::Fields);
            },
        };
        proof {
            assert(fields@[0]@ == field(text@, SPACE, 0));
            assert(fields@[1]@ == field(text@, SPACE, 1));
            assert(fields@[2]@ == field(text@, SPACE, 2));
            assert(fields@[3]@ == field(text@, SPACE, 3));
            assert(fields@[4]@ == field(text@, SPACE, 4));
            assert(fields@[5]@ == field(text@, SPACE, 5));
        }
        let board: [Cell; 64] = match parse_placement(&fields[0]) {
            Some(board) => board,
            None => {
                return Err(FenError::Placement);
            },
        };
        let active_color: Color = match parse_side(&fields[1]) {
            Some(color) => color,
            None => {
                return Err(FenError::Side);
            },
        };
        let (white_castling, black_castling) = match parse_castling(&fields[2]) {
            Some(rights) => rights,
            None => {
                return Err(FenError::Castling);
            },
        };
        let en_passant: Option<usize> = match parse_target(&fields[3]) {
            Some(target) => target,
            None => {
                return Err(FenError::EnPassant);
            },
        };
        let halfmoves: usize = match parse_counter(&fields[4]) {
            Some(count) => count,
            None => {
                return Err(FenError::Counter);
            },
        };
        let fullmoves: usize = match parse_counter(&fields[5]) {
            Some(count) => count,
            None => {
                return Err(FenError::Counter);
            },
        };
        proof {
            lemma_places_one_king(board, field(text@, SPACE, 0), Color::White);
            lemma_places_one_king(board, field(text@, SPACE, 0), Color::Black);
        }
        let pieces: Pieces = match Pieces::new(&board) {
            Ok(pieces) => pieces,
            Err(PositionError::WhiteKing) => {
                return Err(FenError::WhiteKing);
            },
            Err(PositionError::BlackKing) => {
                return Err(FenError::BlackKing);
            },
        };
        match GameState::new(
            pieces,
            active_color,
            white_castling,
            black_castling,
            en_passant,
            halfmoves,
            fullmoves,
            tables,
        ) {
            Ok(state) => {
                proof {
                    assert forall|sq: int| on_board(sq) implies #[trigger] state.pieces.at(sq)
                        == placed(field(text@, SPACE, 0), sq) by {
                        assert(pieces.at(sq) == described(board, sq));
                    }
                }
                Ok(state)
            },
            Err(StateError::EnPassantOffBoard) => vstd::pervasive::unreached(),
        }
    }
}

} // verus!
