//! The game of Othello: board, rules and moves.
pub mod laws;
pub mod play;
pub mod rules;

pub use play::Play;

use vstd::prelude::*;

use crate::bits::{has_sq, popcount, popcount_u64};
use rules::{any_legal, flip_mask, flips, is_legal, legal, legal_plays, plays_upto, lemma_any_legal_iff_plays};

verus! {

/// A side of the game, or the outcome of a game.
#[derive(Debug, Clone, Copy, PartialEq, Eq, Structural)]
pub enum Player {
    Black,
    White,
    Tie,
    InProgress,
}

/// What stands on a square.
#[derive(Debug, Clone, Copy, PartialEq, Eq, Structural)]
pub enum Cell {
    Empty,
    Black,
    White,
}

/// A set of squares: bit `row * 8 + col` stands for the square `(row, col)`.
#[derive(Debug, Clone, Copy, PartialEq, Eq, Structural)]
pub struct Bitboard(pub u64);

/// A position: the pieces of each side, whose turn it is, and the last move.
#[derive(Debug, Clone, Copy, PartialEq, Eq, Structural)]
pub struct Game {
    pub black_pieces: Bitboard,
    pub white_pieces: Bitboard,
    pub player_to_move: Player,
    pub previous_move: Play,
}

/// The opening position's black pieces: d5 and e4.
pub open spec fn initial_black() -> u64 {
    (1u64 << 28u64) | (1u64 << 35u64)
}

/// The opening position's white pieces: d4 and e5.
pub open spec fn initial_white() -> u64 {
    (1u64 << 27u64) | (1u64 << 36u64)
}

/// The opening position, Black to move.
pub open spec fn initial_game() -> Game {
    Game {
        black_pieces: Bitboard(initial_black()),
        white_pieces: Bitboard(initial_white()),
        player_to_move: Player::Black,
        previous_move: Play(64),
    }
}

impl Game {
    /// Black moves when `player_to_move` is `Black`; White otherwise.
    pub open spec fn black_to_move(self) -> bool {
        self.player_to_move == Player::Black
    }

    /// The pieces of the side to move.
    pub open spec fn mover(self) -> u64 {
        if self.black_to_move() {
            self.black_pieces.0
        } else {
            self.white_pieces.0
        }
    }

    /// The pieces of the other side.
    pub open spec fn opponent(self) -> u64 {
        if self.black_to_move() {
            self.white_pieces.0
        } else {
            self.black_pieces.0
        }
    }

    /// The side that moves after this one.
    pub open spec fn next_player(self) -> Player {
        if self.black_to_move() {
            Player::White
        } else {
            Player::Black
        }
    }

    /// A reachable-looking position: a side to move, and no square held by both sides.
    pub open spec fn wf(self) -> bool {
        &&& (self.player_to_move == Player::Black || self.player_to_move == Player::White)
        &&& forall|s: int| !(#[trigger] has_sq(self.black_pieces.0, s) && has_sq(self.white_pieces.0, s))
    }

    /// The side to move has a legal placement.
    pub open spec fn can_move(self) -> bool {
        any_legal(self.mover(), self.opponent())
    }

    /// The other side would have a legal placement.
    pub open spec fn opponent_can_move(self) -> bool {
        any_legal(self.opponent(), self.mover())
    }

    /// The game goes on while either side can place a piece; then the side
    /// with more pieces wins.
    pub open spec fn spec_game_state(self) -> Player {
        if self.can_move() || self.opponent_can_move() {
            Player::InProgress
        } else if popcount(self.black_pieces.0) > popcount(self.white_pieces.0) {
            Player::Black
        } else if popcount(self.black_pieces.0) < popcount(self.white_pieces.0) {
            Player::White
        } else {
            Player::Tie
        }
    }

    /// The moves of the side to move: its legal placements in increasing
    /// square order, or the single pass move when it has none.
    pub open spec fn spec_plays(self) -> Seq<Play> {
        let p = plays_upto(self.mover(), self.opponent(), 64);
        if p.len() == 0 {
            seq![Play(64)]
        } else {
            p
        }
    }

    /// A legal placement, or a pass when no placement is legal.
    pub open spec fn spec_is_valid_play(self, play: Play) -> bool {
        if play.0 == 64 {
            !self.can_move()
        } else {
            legal(self.mover(), self.opponent(), play.0 as int)
        }
    }

    /// The position after `play`: a square of the board gets a piece of the
    /// side to move and turns over what it captures; anything else passes.
    pub open spec fn spec_make_play(self, play: Play) -> Game {
        if play.0 >= 64 {
            Game { player_to_move: self.next_player(), previous_move: play, ..self }
        } else {
            let f = flip_mask(self.mover(), self.opponent(), play.0 as int);
            let m = self.mover() | f | (1u64 << play.0);
            let o = self.opponent() & !f;
            if self.black_to_move() {
                Game {
                    black_pieces: Bitboard(m),
                    white_pieces: Bitboard(o),
                    player_to_move: Player::White,
                    previous_move: play,
                }
            } else {
                Game {
                    black_pieces: Bitboard(o),
                    white_pieces: Bitboard(m),
                    player_to_move: Player::Black,
                    previous_move: play,
                }
            }
        }
    }

    /// What stands on `(row, col)`.
    pub open spec fn spec_cell(self, row: int, col: int) -> Cell {
        if has_sq(self.black_pieces.0, row * 8 + col) {
            Cell::Black
        } else if has_sq(self.white_pieces.0, row * 8 + col) {
            Cell::White
        } else {
            Cell::Empty
        }
    }

    /// The opening position, Black to move.
    pub fn new() -> (g: Self)
        ensures
            g == initial_game(),
    {
        Game {
            black_pieces: Bitboard((1u64 << 28u64) | (1u64 << 35u64)),
            white_pieces: Bitboard((1u64 << 27u64) | (1u64 << 36u64)),
            player_to_move: Player::Black,
            previous_move: Play(64),
        }
    }

    fn mover_bits(&self) -> (r: u64)
        ensures
            r == self.mover(),
    {
        if self.player_to_move == Player::Black {
            self.black_pieces.0
        } else {
            self.white_pieces.0
        }
    }

    fn opponent_bits(&self) -> (r: u64)
        ensures
            r == self.opponent(),
    {
        if self.player_to_move == Player::Black {
            self.white_pieces.0
        } else {
            self.black_pieces.0
        }
    }

    /// `InProgress` while either side can place a piece; otherwise the side
    /// with more pieces, or `Tie`.
    pub fn game_state(&self) -> (r: Player)
        ensures
            r == self.spec_game_state(),
    {
        let m = self.mover_bits();
        let o = self.opponent_bits();
        proof {
            lemma_any_legal_iff_plays(m, o);
            lemma_any_legal_iff_plays(o, m);
        }
        if legal_plays(m, o).len() > 0 {
            return Player::InProgress;
        }
        if legal_plays(o, m).len() > 0 {
            return Player::InProgress;
        }
        let black = popcount_u64(self.black_pieces.0);
        let white = popcount_u64(self.white_pieces.0);
        if black > white {
            Player::Black
        } else if black < white {
            Player::White
        } else {
            Player::Tie
        }
    }

    /// The moves of the side to move, in increasing square order; the pass
    /// move `Play(64)` alone when it cannot place a piece.
    pub fn generate_plays(&self) -> (v: Vec<Play>)
        ensures
            v@ == self.spec_plays(),
    {
        let mut v = legal_plays(self.mover_bits(), self.opponent_bits());
        if v.len() == 0 {
            v.push(Play(64));
        }
        v
    }

    /// Appends the moves of `generate_plays` to `buf`.
    pub fn generate_plays_in_buf(&self, buf: &mut Vec<Play>)
        ensures
            final(buf)@ == old(buf)@ + self.spec_plays(),
    {
        let mut plays = self.generate_plays();
        buf.append(&mut plays);
    }

    /// Whether `play` is a legal placement, or a pass when no placement is legal.
    pub fn is_valid_play(&self, play: Play) -> (b: bool)
        ensures
            b == self.spec_is_valid_play(play),
    {
        let m = self.mover_bits();
        let o = self.opponent_bits();
        if play.0 == 64 {
            proof {
                lemma_any_legal_iff_plays(m, o);
            }
            legal_plays(m, o).len() == 0
        } else {
            is_legal(m, o, play.0)
        }
    }

    /// Plays `play` for the side to move: a square of the board gets its
    /// piece and turns over the captured ones; anything else is a pass.
    /// Either way the turn goes to the other side.
    pub fn make_play(&mut self, play: Play)
        ensures
            *final(self) == old(self).spec_make_play(play),
    {
        let next = if self.player_to_move == Player::Black {
            Player::White
        } else {
            Player::Black
        };
        if play.0 >= 64 {
            self.player_to_move = next;
            self.previous_move = play;
            return;
        }
        let m = self.mover_bits();
        let o = self.opponent_bits();
        let f = flips(m, o, play.0);
        let new_m = m | f | (1u64 << play.0);
        let new_o = o & !f;
        if self.player_to_move == Player::Black {
            self.black_pieces = Bitboard(new_m);
            self.white_pieces = Bitboard(new_o);
        } else {
            self.black_pieces = Bitboard(new_o);
            self.white_pieces = Bitboard(new_m);
        }
        self.player_to_move = next;
        self.previous_move = play;
    }

    /// What stands on `(row, col)`.
    pub fn cell_state(&self, row: u8, col: u8) -> (c: Cell)
        requires
            row < 8,
            col < 8,
        ensures
            c == self.spec_cell(row as int, col as int),
    {
        let s = (row * 8 + col) as u64;
        if (self.black_pieces.0 >> s) & 1 == 1 {
            Cell::Black
        } else if (self.white_pieces.0 >> s) & 1 == 1 {
            Cell::White
        } else {
            Cell::Empty
        }
    }
}

} // verus!
