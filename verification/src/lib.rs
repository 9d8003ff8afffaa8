//! A chess position engine on bitboards.
//!
//! From a position the engine derives every mask that move generation
//! needs (checks, pins, attacked squares, squares unsafe for the king) and
//! from those the legal moves of either side; it plays a move by building
//! the successor state afresh; and it offers a counter of the leaves of the
//! game tree and a fixed-depth search over material as thin consumers.
//!
//! Squares are numbered from 0 (a1) to 63 (h8), rank by rank. A bitboard is
//! a `u64` whose bit `i` stands for square `i`.
//!
//! # What is proved
//!
//! Every function states what it returns, and is proved to return it. On
//! top of that the library proves what the results mean:
//!
//! - `rays`: a fill holds the squares that nothing but empty squares
//!   separates from a slider (`lemma_ray_sources`).
//! - `rules`: the masks hold what their names say, in the terms of the
//!   game (`GameState::lemma_masks_meaning`).
//! - `legal`: which moves the generator yields, and in which order
//!   (`lemma_legal_holds`, `lemma_legal_in_order`); every one of them can be
//!   played (`lemma_legal_playable`).
//! - `laws`: castles are gated by their conditions alone
//!   (`lemma_castle_gating`), a check is answered by every move that is not
//!   the king's (`lemma_single_check`, `lemma_double_check`), and a pinned
//!   piece keeps exactly the moves along its pin (`lemma_pin_correct`).
//! - `safety` and `complete`: the legal moves are exactly the moves that
//!   follow the rules of movement and leave the king out of check, and the
//!   castles whose conditions hold (`lemma_legal_moves_exact`).
//!
//! # A castle and its conditions
//!
//! A castle is offered when the right is held, king and rook stand on
//! their home squares, the squares between them are empty, and the squares
//! that the king passes and lands on are not attacked. Whether the king
//! stands in check on its home square is not among the conditions.

pub mod apply;
pub mod bits;
pub mod board;
pub mod complete;
pub mod fen;
pub mod game;
pub mod laws;
pub mod legal;
pub mod lookup;
pub mod masks;
pub mod movegen;
pub mod notation;
pub mod position;
pub mod rank_line;
pub mod rays;
pub mod rules;
pub mod safety;
pub mod search;
pub mod sliding_pieces;

pub use crate::bits::set_bit;
pub use crate::board::{Color, Direction, LineType, PieceType, PromotionType};
pub use crate::fen::FenError;
pub use crate::game::{GameState, StateError};
pub use crate::lookup::{
    generate_slide_lookup, piece_lookup, to_12x10, to_8x8, verify_index, Tables,
};
pub use crate::masks::{Masks, PinMask};
pub use crate::movegen::Move;
pub use crate::notation::{piece_color, piece_type};
pub use crate::position::{Pieces, PositionError};
pub use crate::rank_line::line_attacks;
pub use crate::sliding_pieces::{
    east_attacks, noea_attacks, nort_attacks, nowe_attacks, soea_attacks, sout_attacks,
    sowe_attacks, vision, west_attacks,
};
