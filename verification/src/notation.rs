//! The letters that stand for pieces in text.

use vstd::prelude::*;
use crate::board::{Color, PieceType};

verus! {

/// Whether Unicode counts a character among the numbers.
pub uninterp spec fn numeric_char(c: char) -> bool;

/// Whether Unicode counts a character among the upper-case letters.
pub uninterp spec fn uppercase_char(c: char) -> bool;

/// `char::is_numeric` of the standard library: whether the character has one
/// of Unicode's general categories for numbers. The answer depends on the
/// character alone; nothing more is claimed of it.
#[verifier::external_body]
fn is_numeric(c: char) -> (r: bool)
    ensures
        r == numeric_char(c),
{
    c.is_numeric()
}

/// `char::is_uppercase` of the standard library: whether the character has
/// Unicode's upper-case property. The answer depends on the character alone;
/// nothing more is claimed of it.
#[verifier::external_body]
fn is_uppercase(c: char) -> (r: bool)
    ensures
        r == uppercase_char(c),
{
    c.is_uppercase()
}

/// The piece type that a letter stands for, in either case. The Kelvin sign
/// counts as a capital K, as it does when text is put into lower case.
pub open spec fn letter_piece(piece: char) -> Option<PieceType> {
    if piece == 'k' || piece == 'K' || piece == '\u{212A}' {
        Some(PieceType::King)
    } else if piece == 'q' || piece == 'Q' {
        Some(PieceType::Queen)
    } else if piece == 'r' || piece == 'R' {
        Some(PieceType::Rook)
    } else if piece == 'b' || piece == 'B' {
        Some(PieceType::Bishop)
    } else if piece == 'n' || piece == 'N' {
        Some(PieceType::Knight)
    } else if piece == 'p' || piece == 'P' {
        Some(PieceType::Pawn)
    } else {
        None
    }
}

/// The colour that a character stands for, given what Unicode says of it:
/// none for a number, White for an upper-case letter, Black for anything
/// else.
pub open spec fn case_color(numeric: bool, uppercase: bool) -> Option<Color> {
    if numeric {
        None
    } else if uppercase {
        Some(Color::White)
    } else {
        Some(Color::Black)
    }
}

/// The piece type that a letter stands for, in either case.
pub fn piece_type(piece: char) -> (r: Option<PieceType>)
    ensures
        r == letter_piece(piece),
{
    match piece {
        'k' | 'K' | '\u{212A}' => Some(PieceType::King),
        'q' | 'Q' => Some(PieceType::Queen),
        'r' | 'R' => Some(PieceType::Rook),
        'b' | 'B' => Some(PieceType::Bishop),
        'n' | 'N' => Some(PieceType::Knight),
        'p' | 'P' => Some(PieceType::Pawn),
        _ => None,
    }
}

/// The colour for a character of which it is known whether it is a number
/// and whether it is an upper-case letter.
pub fn color_for(numeric: bool, uppercase: bool) -> (r: Option<Color>)
    ensures
        r == case_color(numeric, uppercase),
{
    if numeric {
        return None;
    }
    if uppercase {
        return Some(Color::White);
    }
    Some(Color::Black)
}

/// The colour that a character stands for: none for a number, White for an
/// upper-case letter, Black for anything else.
pub fn piece_color(piece: char) -> (r: Option<Color>)
    ensures
        r == case_color(numeric_char(piece), uppercase_char(piece)),
{
    color_for(is_numeric(piece), is_uppercase(piece))
}

} // verus!
