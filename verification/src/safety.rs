//! No legal move leaves the king of the side that makes it in check.

use vstd::prelude::*;
use crate::bits::{
    bit, lemma_bit_consts, lemma_bit_ops, lemma_bit_single, lemma_zero_iff_empty, only,
};
use crate::board::{
    between, bishop_reach, in_direction, king_reach, knight_reach, lemma_square_parts, on_board,
    rook_reach, same_line, Color, Direction, LineType, PieceType,
};
use crate::game::{can_castle, castle_passes, castle_target, king_home, rook_home, GameState};
use crate::legal::holds_move;
use crate::masks::{covers_check, lemma_nothing_between};
use crate::movegen::{forward, pin_line, Move};
use crate::position::Pieces;
use crate::rays::{
    clear_path, direction_to, lemma_along_pin, lemma_between_directions, lemma_between_split,
    lemma_direction_to, lemma_one_direction, lemma_ray_clear, lemma_same_direction,
};
use crate::rules::lemma_between_symmetric;
use crate::sliding_pieces::ray_attacks;

verus! {

impl GameState {
    /// Where the king of the colour that moves stands once the move is
    /// played.
    pub open spec fn king_after(&self, m: Move) -> int {
        if self.mover(m) == PieceType::King {
            m.to as int
        } else {
            self.pieces.king_square(m.piece_color)
        }
    }

    /// What a move changes on the board: the enemy pieces that are left
    /// stand where they stood, the squares that are empty afterwards were
    /// empty before or have been left, and the king of the colour that
    /// moves stands where it went, or where it stood.
    pub proof fn lemma_board_after(&self, m: Move, next: GameState)
        requires
            self.wf(),
            self.playable(m),
            self.leads_to(m, next),
        ensures
            next.pieces.king_square(m.piece_color) == self.king_after(m),
            forall|x: int|
                (#[trigger] next.pieces.at(x) matches Some(p) && p.0 == m.piece_color.other())
                    ==> self.pieces.at(x) == next.pieces.at(x) && x != m.to,
            forall|y: int| #[trigger]
                bit(next.pieces.empty_squares(), y) ==> self.pieces.at(y) is None || y == m.from
                    || (self.takes_en_passant(m) && y == m.to - forward(m.piece_color)) || (
                self.castles(m, true) && y == rook_home(m.piece_color, true)) || (self.castles(
                    m,
                    false,
                ) && y == rook_home(m.piece_color, false)),
            forall|y: int| #[trigger]
                bit(next.pieces.empty_squares(), y) == (on_board(y) && next.pieces.at(y) is None),
            forall|y: int| #[trigger] next.pieces.at(y) == self.piece_after(m, y),
    {
        let color = m.piece_color;
        let k2 = self.king_after(m);
        next.pieces.lemma_king(color);
        next.pieces.lemma_occupied();
        self.pieces.lemma_king(color);
        assert(next.pieces.at(k2) == self.piece_after(m, k2));
        assert(bit(self.pieces.board(color, PieceType::King), m.from as int) == (self.pieces.at(
            m.from as int,
        ) == Some((color, PieceType::King))));
        assert(next.pieces.at(k2) == Some((color, PieceType::King)));
        assert(bit(next.pieces.board(color, PieceType::King), k2) == (next.pieces.at(k2) == Some(
            (color, PieceType::King),
        )));
        assert forall|x: int|
            (#[trigger] next.pieces.at(x) matches Some(p) && p.0 == color.other())
            implies self.pieces.at(x) == next.pieces.at(x) && x != m.to by {
            assert(next.pieces.at(x) == self.piece_after(m, x));
        }
        assert forall|y: int| #[trigger]
            bit(next.pieces.empty_squares(), y) implies self.pieces.at(y) is None || y == m.from
            || (self.takes_en_passant(m) && y == m.to - forward(color)) || (self.castles(m, true)
            && y == rook_home(color, true)) || (self.castles(m, false) && y == rook_home(
            color,
            false,
        )) by {
            assert(next.pieces.at(y) == self.piece_after(m, y));
        }
    }
}

impl Pieces {
    /// Whether one placement has on `from` what another has, and attacks a
    /// square from there whenever it does so in the other placement, with
    /// its own empty squares for the other's.
    pub proof fn lemma_attack_carries(
        &self,
        empty: u64,
        other: Pieces,
        other_empty: u64,
        from: int,
        to: int,
    )
        requires
            self.at(from) == other.at(from),
            self.piece_attacks(empty, from, to),
            clear_path(empty, from, to) ==> clear_path(other_empty, from, to),
        ensures
            other.piece_attacks(other_empty, from, to),
    {
    }
}

impl GameState {
    /// The king steps onto no square that an enemy piece attacks.
    proof fn lemma_king_step_safe(&self, m: Move, next: GameState, x: int)
        requires
            self.wf(),
            self.generated(PieceType::King, m.piece_color, m),
            king_reach(self.pieces.king_square(m.piece_color), m.to as int),
            self.leads_to(m, next),
        ensures
            !next.pieces.attacker(
                m.piece_color.other(),
                next.pieces.empty_squares(),
                x,
                m.to as int,
            ),
    {
        let color = m.piece_color;
        let enemy = color.other();
        let k = self.pieces.king_square(color);
        let to = m.to as int;
        let king = self.pieces.board(color, PieceType::King);
        let empty = self.pieces.empty_squares();
        let lifted = empty | king;
        let after = next.pieces.empty_squares();
        self.lemma_generated_playable(PieceType::King, color, m);
        self.lemma_board_after(m, next);
        self.pieces.lemma_king(color);
        self.pieces.lemma_occupied();
        self.lemma_masks_meaning(color, to);
        lemma_bit_ops(empty, king);
        lemma_square_parts(k);
        lemma_square_parts(to);
        assert(self.castles(m, true) == false);
        assert(self.castles(m, false) == false);
        assert(!self.takes_en_passant(m));
        assert(self.king_target(color, to));
        assert(!bit(self.masks.king_danger(color), to));
        if next.pieces.attacker(enemy, after, x, to) {
            assert(self.pieces.at(x) == next.pieces.at(x));
            if clear_path(after, x, to) {
                assert forall|y: int| between(x, to, y) implies bit(lifted, y) by {
                    assert(bit(after, y));
                }
            }
            next.pieces.lemma_attack_carries(after, self.pieces, lifted, x, to);
            assert(self.pieces.attacker(enemy, lifted, x, to));
        }
    }

    /// The king castles onto no square that an enemy piece attacks.
    proof fn lemma_castle_safe(&self, m: Move, next: GameState, x: int)
        requires
            self.wf(),
            self.generated(PieceType::King, m.piece_color, m),
            !king_reach(self.pieces.king_square(m.piece_color), m.to as int),
            self.leads_to(m, next),
        ensures
            !next.pieces.attacker(
                m.piece_color.other(),
                next.pieces.empty_squares(),
                x,
                m.to as int,
            ),
    {
        let color = m.piece_color;
        let enemy = color.other();
        let to = m.to as int;
        let empty = self.pieces.empty_squares();
        let after = next.pieces.empty_squares();
        let kingside = to == castle_target(color, true);
        let home = king_home(color);
        let corner = rook_home(color, kingside);
        let passes = castle_passes(color, kingside);
        self.lemma_generated_playable(PieceType::King, color, m);
        self.lemma_board_after(m, next);
        self.pieces.lemma_king(color);
        self.pieces.lemma_occupied();
        assert(self.king_target(color, to));
        assert(self.castle_open(color, kingside));
        assert(can_castle(self.pieces, color, kingside, self.castle_right(color, kingside)));
        lemma_square_parts(home);
        lemma_square_parts(to);
        lemma_square_parts(corner);
        lemma_square_parts(passes);
        assert(between(home, corner, passes));
        assert(self.castles(m, kingside));
        assert(!self.castles(m, !kingside));
        assert(!self.takes_en_passant(m));
        assert(next.pieces.at(passes) == self.piece_after(m, passes));
        self.pieces.lemma_attacks_meaning(enemy, empty, to);
        if next.pieces.attacker(enemy, after, x, to) {
            assert(self.pieces.at(x) == next.pieces.at(x));
            if clear_path(after, x, to) {
                assert forall|y: int| between(x, to, y) implies bit(empty, y) by {
                    assert(bit(after, y));
                    lemma_square_parts(x);
                    lemma_square_parts(y);
                    if y == home {
                        assert(between(x, to, passes));
                        assert(bit(after, passes));
                    }
                }
            }
            next.pieces.lemma_attack_carries(after, self.pieces, empty, x, to);
            assert(self.pieces.attacker(enemy, empty, x, to));
        }
    }

    /// A piece that gave check before a move of another piece than the
    /// king gives none after it: the move took it or stepped in its way.
    proof fn lemma_check_answered(&self, kind: PieceType, m: Move, next: GameState, x: int)
        requires
            self.wf(),
            kind != PieceType::King,
            self.generated(kind, m.piece_color, m),
            !self.double_check(m.piece_color),
            self.leads_to(m, next),
            bit(self.masks.checkers(m.piece_color), x),
        ensures
            !next.pieces.attacker(
                m.piece_color.other(),
                next.pieces.empty_squares(),
                x,
                self.pieces.king_square(m.piece_color),
            ),
    {
        let color = m.piece_color;
        let enemy = color.other();
        let k = self.pieces.king_square(color);
        let from = m.from as int;
        let to = m.to as int;
        let checkers = self.masks.checkers(color);
        let after = next.pieces.empty_squares();
        self.lemma_generated_playable(kind, color, m);
        self.lemma_board_after(m, next);
        self.lemma_masks_meaning(color, x);
        lemma_bit_consts();
        assert(self.masks.describes_side(self.pieces, color));
        assert(next.pieces.at(to) == self.piece_after(m, to));
        assert(next.pieces.at(x) == self.piece_after(m, x));
        assert forall|j: int| bit(checkers, j) implies j == x by {
            if j != x {
                assert(j != x && bit(checkers, j) && bit(checkers, x));
            }
        }
        if next.pieces.attacker(enemy, after, x, k) {
            assert(x != to);
            if bit(self.masks.checkmask(color), to) {
                assert(checkers != 0);
                assert(covers_check(checkers, k, to));
                let j = choose|j: int| bit(checkers, j) && (to == j || between(k, j, to));
                assert(j == x);
                assert(between(k, x, to));
                lemma_between_symmetric(k, x);
                assert(between(x, k, to));
                lemma_square_parts(k);
                lemma_square_parts(x);
                if knight_reach(x, k) || king_reach(x, k) {
                    lemma_nothing_between(k, x);
                }
                assert(clear_path(after, x, k));
                assert(bit(after, to));
            } else {
                assert(self.en_passant_answers(color, to));
                assert(only(checkers, to - forward(color)));
                assert(x == to - forward(color));
                lemma_square_parts(to);
                lemma_square_parts(from);
                assert(bit(self.pieces.occupied(enemy), to) == (self.pieces.at(to) matches Some(
                    p,
                ) && p.0 == enemy));
                assert(self.pawn_step(color, from, to));
                assert(self.en_passant_open(color, from, to));
                assert(self.takes_en_passant(m));
            }
        }
    }

    /// A piece that attacks over a distance is a slider that reaches along
    /// its line.
    pub proof fn lemma_distant_attacker(
        pieces: Pieces,
        color: Color,
        empty: u64,
        x: int,
        k: int,
        y: int,
    )
        requires
            pieces.consistent(),
            pieces.attacker(color, empty, x, k),
            between(x, k, y),
        ensures
            (bit(pieces.straight_sliders(color), x) && rook_reach(x, k)) || (bit(
                pieces.diagonal_sliders(color),
                x,
            ) && bishop_reach(x, k)),
            clear_path(empty, x, k),
            rook_reach(k, x) || bishop_reach(k, x),
    {
        pieces.lemma_sliders(color);
        lemma_square_parts(x);
        lemma_square_parts(k);
        lemma_between_symmetric(x, k);
        if knight_reach(x, k) || king_reach(x, k) {
            lemma_nothing_between(k, x);
            assert(between(k, x, y));
        }
    }

    /// No move uncovers an attack on the king by leaving the line between
    /// the king and an enemy slider: a piece that stands alone on that line
    /// is pinned, and a pinned piece stays on the line, on the king's side
    /// of the slider.
    proof fn lemma_no_discovery(&self, kind: PieceType, m: Move, next: GameState, x: int)
        requires
            self.wf(),
            kind != PieceType::King,
            self.generated(kind, m.piece_color, m),
            self.leads_to(m, next),
            between(x, self.pieces.king_square(m.piece_color), m.from as int),
            forall|y: int|
                between(x, self.pieces.king_square(m.piece_color), y) && y != m.from
                    ==> self.pieces.at(y) is None,
        ensures
            !next.pieces.attacker(
                m.piece_color.other(),
                next.pieces.empty_squares(),
                x,
                self.pieces.king_square(m.piece_color),
            ),
    {
        if next.pieces.attacker(
            m.piece_color.other(),
            next.pieces.empty_squares(),
            x,
            self.pieces.king_square(m.piece_color),
        ) {
            self.lemma_discovery_absurd(kind, m, next, x);
        }
    }

    /// The steps of `lemma_no_discovery`.
    proof fn lemma_discovery_absurd(&self, kind: PieceType, m: Move, next: GameState, x: int)
        requires
            self.wf(),
            kind != PieceType::King,
            self.generated(kind, m.piece_color, m),
            self.leads_to(m, next),
            next.pieces.attacker(
                m.piece_color.other(),
                next.pieces.empty_squares(),
                x,
                self.pieces.king_square(m.piece_color),
            ),
            between(x, self.pieces.king_square(m.piece_color), m.from as int),
            forall|y: int|
                between(x, self.pieces.king_square(m.piece_color), y) && y != m.from
                    ==> self.pieces.at(y) is None,
        ensures
            m.to == x,
    {
        let color = m.piece_color;
        let enemy = color.other();
        let k = self.pieces.king_square(color);
        let from = m.from as int;
        let to = m.to as int;
        let empty = self.pieces.empty_squares();
        let pinned = self.masks.pinned(color);
        let through = empty | pinned;
        let after = next.pieces.empty_squares();
        let king = self.pieces.board(color, PieceType::King);
        let line = pin_line(k, from);
        self.lemma_generated_playable(kind, color, m);
        self.lemma_board_after(m, next);
        self.pieces.lemma_king(color);
        self.pieces.lemma_occupied();
        lemma_bit_ops(empty, pinned);
        assert(self.masks.describes_side(self.pieces, color));
        assert(self.pieces.at(x) == next.pieces.at(x));
        Self::lemma_distant_attacker(next.pieces, enemy, after, x, k, from);
        next.pieces.lemma_sliders(enemy);
        self.pieces.lemma_sliders(enemy);
        lemma_between_symmetric(x, k);
        assert(self.pieces.pins(color, x, from));
        assert(bit(self.pieces.occupied(color), from) == (self.pieces.at(from) matches Some(p)
            && p.0 == color));
        self.pieces.lemma_pin_meaning(color, from);
        assert(bit(pinned, from));
        assert(kind != PieceType::Knight);
        assert(bit(self.masks.pinmask(color).along(line), to));
        self.lemma_pin_mask_line(color, line, to);
        self.lemma_pinned_line(color, from);
        let d0 = choose|d: Direction|
            self.pieces.shields(color, d, from) && d.line() == line && in_direction(d, k, from);
        let d = direction_to(k, x);
        lemma_direction_to(k, x);
        lemma_between_directions(d, k, from, x);
        lemma_one_direction(d0, d, k, from);
        lemma_between_split(d, k, from, x);
        assert forall|y: int| between(k, from, y) implies bit(empty, y) by {
            assert(between(k, x, y) && y != from);
            assert(between(x, k, y));
        }
        self.lemma_free_target_path(kind, color, from, to);
        lemma_along_pin(d, empty, through, k, from, to);
        lemma_same_direction(d, k, to, x);
        assert(next.pieces.at(to) == self.piece_after(m, to));
        if between(k, to, x) {
            assert(bit(through, x));
            assert(bit(pinned, x) == self.pieces.is_pinned(color, x));
            assert(bit(self.pieces.occupied(color), x) == (self.pieces.at(x) matches Some(p)
                && p.0 == color));
        } else {
            assert(between(k, x, to));
            assert(between(x, k, to));
            assert(bit(after, to));
        }
    }

    /// Whether a move is a capture en passant that takes a pawn which alone
    /// holds an enemy bishop or queen off the king on a diagonal. No game
    /// comes to such a state: before the pawn made its double step, the
    /// king would have stood in check with the enemy to move.
    pub open spec fn en_passant_uncovers(&self, m: Move) -> bool {
        self.takes_en_passant(m) && exists|x: int|
            bishop_reach(x, self.pieces.king_square(m.piece_color)) && self.pieces.pins(
                m.piece_color,
                x,
                m.to - forward(m.piece_color),
            )
    }

    /// A capture en passant uncovers no attack on the king through the pawn
    /// that it takes: on the rank the generator has looked, on the file the
    /// capturing pawn steps into the way, and on a diagonal no slider waits.
    proof fn lemma_en_passant_covered(&self, m: Move, next: GameState, x: int)
        requires
            self.wf(),
            self.generated(PieceType::Pawn, m.piece_color, m),
            self.leads_to(m, next),
            self.takes_en_passant(m),
            !self.en_passant_uncovers(m),
            next.pieces.attacker(
                m.piece_color.other(),
                next.pieces.empty_squares(),
                x,
                self.pieces.king_square(m.piece_color),
            ),
            between(x, self.pieces.king_square(m.piece_color), m.to - forward(m.piece_color)),
        ensures
            m.to == x,
    {
        let color = m.piece_color;
        let enemy = color.other();
        let k = self.pieces.king_square(color);
        let from = m.from as int;
        let to = m.to as int;
        let victim = to - forward(color);
        let empty = self.pieces.empty_squares();
        let after = next.pieces.empty_squares();
        let king = self.pieces.board(color, PieceType::King);
        let one = 1u64 << (from as u64);
        let other = 1u64 << (victim as u64);
        let through = self.empty | one | other;
        self.lemma_generated_playable(PieceType::Pawn, color, m);
        self.lemma_board_after(m, next);
        self.pieces.lemma_king(color);
        self.pieces.lemma_occupied();
        assert(self.pieces.at(x) == next.pieces.at(x));
        assert(!self.castles(m, true) && !self.castles(m, false));
        Self::lemma_distant_attacker(next.pieces, enemy, after, x, k, victim);
        next.pieces.lemma_sliders(enemy);
        self.pieces.lemma_sliders(enemy);
        lemma_between_symmetric(x, k);
        lemma_square_parts(k);
        lemma_square_parts(x);
        lemma_square_parts(from);
        lemma_square_parts(to);
        lemma_square_parts(victim);
        lemma_bit_single(from as u64);
        lemma_bit_single(victim as u64);
        lemma_bit_ops(self.empty, one);
        lemma_bit_ops(self.empty | one, other);
        assert(next.pieces.at(to) == self.piece_after(m, to));
        assert(bit(self.pieces.occupied(enemy), to) == (self.pieces.at(to) matches Some(p) && p.0
            == enemy));
        assert(self.pawn_step(color, from, to));
        assert(self.en_passant_open(color, from, to));
        let d = direction_to(k, x);
        lemma_direction_to(k, x);
        if same_line(LineType::Horizontal, k, x) {
            assert forall|y: int| between(k, x, y) implies bit(through, y) by {
                assert(between(x, k, y));
                assert(bit(after, y));
            }
            lemma_ray_clear(d, king, through, k, x);
            assert(ray_attacks(d, king, through, x));
            assert(d == Direction::East || d == Direction::West);
            assert(bit(self.pieces.straight_sliders(enemy), x) && crate::board::rank_of(x)
                == crate::board::rank_of(from) && (ray_attacks(
                Direction::East,
                king,
                through,
                x,
            ) || ray_attacks(Direction::West, king, through, x)));
            assert(self.en_passant_exposes(color, from, to));
        } else if same_line(LineType::Vertical, k, x) {
            assert(between(x, k, to));
            assert(bit(after, to));
        } else {
            assert(bishop_reach(x, k));
            assert forall|y: int| between(k, x, y) && y != victim implies self.pieces.at(y)
                is None by {
                assert(between(x, k, y));
                assert(bit(after, y));
                lemma_square_parts(y);
            }
            assert(self.pieces.pins(color, x, victim));
        }
    }

    /// No move of a piece other than the king leaves the king attacked.
    proof fn lemma_other_move_safe(&self, kind: PieceType, m: Move, next: GameState, x: int)
        requires
            self.wf(),
            kind != PieceType::King,
            self.generated(kind, m.piece_color, m),
            !self.double_check(m.piece_color),
            self.leads_to(m, next),
            !self.en_passant_uncovers(m),
        ensures
            !next.pieces.attacker(
                m.piece_color.other(),
                next.pieces.empty_squares(),
                x,
                self.pieces.king_square(m.piece_color),
            ),
    {
        let color = m.piece_color;
        let enemy = color.other();
        let k = self.pieces.king_square(color);
        let from = m.from as int;
        let to = m.to as int;
        let victim = to - forward(color);
        let empty = self.pieces.empty_squares();
        let after = next.pieces.empty_squares();
        if next.pieces.attacker(enemy, after, x, k) {
            self.lemma_generated_playable(kind, color, m);
            self.lemma_board_after(m, next);
            self.pieces.lemma_occupied();
            self.lemma_masks_meaning(color, x);
            assert(self.pieces.at(x) == next.pieces.at(x));
            assert(!self.castles(m, true) && !self.castles(m, false));
            if self.pieces.attacker(enemy, empty, x, k) {
                self.lemma_check_answered(kind, m, next, x);
            } else {
                if clear_path(after, x, k) && !clear_path(empty, x, k) {
                    let y0 = choose|y: int| between(x, k, y) && !bit(empty, y);
                    assert(bit(after, y0));
                    if self.takes_en_passant(m) && between(x, k, victim) {
                        self.lemma_en_passant_covered(m, next, x);
                    } else {
                        assert forall|y: int| between(x, k, y) && y != from implies self.pieces.at(
                            y,
                        ) is None by {
                            assert(bit(after, y));
                        }
                        assert(y0 == from);
                        self.lemma_no_discovery(kind, m, next, x);
                    }
                } else {
                    next.pieces.lemma_attack_carries(after, self.pieces, empty, x, k);
                }
            }
        }
    }

    /// After a legal move the king of the colour that made it is not in
    /// check. The one exception is a capture en passant of a pawn that
    /// alone held off an enemy slider on a diagonal, which no game reaches.
    pub proof fn lemma_king_safe_after(&self, color: Color, m: Move, next: GameState)
        requires
            self.wf(),
            holds_move(self.legal_moves(color), m),
            self.leads_to(m, next),
            !self.en_passant_uncovers(m),
        ensures
            next.masks.checkers(color) == 0,
    {
        let checkers = next.masks.checkers(color);
        let after = next.pieces.empty_squares();
        self.lemma_legal_holds(color, m);
        lemma_zero_iff_empty(checkers);
        assert forall|x: int| 0 <= x < 64 implies !bit(checkers, x) by {
            next.lemma_masks_meaning(color, x);
            if self.generated(PieceType::King, color, m) {
                self.lemma_generated_playable(PieceType::King, color, m);
                self.lemma_board_after(m, next);
                if king_reach(self.pieces.king_square(color), m.to as int) {
                    self.lemma_king_step_safe(m, next, x);
                } else {
                    self.lemma_castle_safe(m, next, x);
                }
            } else {
                let kind = if self.generated(PieceType::Queen, color, m) {
                    PieceType::Queen
                } else if self.generated(PieceType::Rook, color, m) {
                    PieceType::Rook
                } else if self.generated(PieceType::Bishop, color, m) {
                    PieceType::Bishop
                } else if self.generated(PieceType::Knight, color, m) {
                    PieceType::Knight
                } else {
                    PieceType::Pawn
                };
                self.lemma_generated_playable(kind, color, m);
                self.lemma_board_after(m, next);
                self.lemma_other_move_safe(kind, m, next, x);
            }
        }
    }
}

} // verus!
