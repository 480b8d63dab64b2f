//! The players of a two-player game and the moves they make.

use vstd::prelude::*;

verus! {

/// A position on a board, as `(row, column)`.
pub type Move = (usize, usize);

/// The owner of a cell, the side to move, or the winner of a game.
///
/// `X` is the maximizing side, `O` the minimizing side, and `Neutral` stands
/// for nobody: an empty cell, no winner, or no side to move.
#[derive(PartialEq, Eq, Structural, Copy, Clone, Debug)]
pub enum Player {
    Neutral,
    X,
    O,
}

impl Player {
    /// The side that moves after `self`.
    pub open spec fn spec_next(&self) -> Player {
        match self {
            Player::X => Player::O,
            Player::O => Player::X,
            Player::Neutral => Player::Neutral,
        }
    }

    /// The factor that turns a score into the value it has for `self`.
    pub open spec fn spec_score_multiplier(&self) -> i32 {
        match self {
            Player::X => 1i32,
            Player::O => -1i32,
            Player::Neutral => 0i32,
        }
    }

    /// The player that a symbol of the board notation stands for: `X` or
    /// `x`, `O`, `o` or `0`, and `.` for nobody.
    pub open spec fn spec_from_char(c: char) -> Option<Player> {
        if c == 'X' || c == 'x' {
            Some(Player::X)
        } else if c == 'O' || c == 'o' || c == '0' {
            Some(Player::O)
        } else if c == '.' {
            Some(Player::Neutral)
        } else {
            None
        }
    }

    /// The symbol that stands for the player in the board notation.
    pub open spec fn spec_symbol(&self) -> char {
        match self {
            Player::X => 'X',
            Player::O => 'O',
            Player::Neutral => '.',
        }
    }

    /// The player that a symbol of the board notation stands for: `X` or
    /// `x`, `O`, `o` or `0`, and `.` for nobody. Any other character stands
    /// for no player.
    #[verifier::when_used_as_spec(spec_from_char)]
    pub fn from_char(c: char) -> (player: Option<Player>)
        ensures
            player == Self::spec_from_char(c),
    {
        if c == 'X' || c == 'x' {
            Some(Player::X)
        } else if c == 'O' || c == 'o' || c == '0' {
            Some(Player::O)
        } else if c == '.' {
            Some(Player::Neutral)
        } else {
            None
        }
    }

    /// The player that a symbol of the board notation stands for. The
    /// character has to be such a symbol: `X` or `x`, `O`, `o` or `0`, or
    /// `.` for nobody.
    pub fn from(c: char) -> (player: Player)
        requires
            Self::spec_from_char(c) is Some,
        ensures
            Self::spec_from_char(c) == Some(player),
    {
        if c == 'X' || c == 'x' {
            Player::X
        } else if c == 'O' || c == 'o' || c == '0' {
            Player::O
        } else {
            Player::Neutral
        }
    }

    /// The symbol that stands for the player in the board notation.
    #[verifier::when_used_as_spec(spec_symbol)]
    pub fn symbol(&self) -> (c: char)
        ensures
            c == self.spec_symbol(),
    {
        match self {
            Player::X => 'X',
            Player::O => 'O',
            Player::Neutral => '.',
        }
    }

    /// The side that moves after `self`: `X` and `O` alternate, `Neutral`
    /// stays.
    #[verifier::when_used_as_spec(spec_next)]
    pub fn next(&self) -> (r: Player)
        ensures
            r == self.spec_next(),
    {
        match self {
            Player::X => Player::O,
            Player::O => Player::X,
            Player::Neutral => Player::Neutral,
        }
    }

    /// `1` for the maximizing side, `-1` for the minimizing side, `0` for
    /// nobody.
    #[verifier::when_used_as_spec(spec_score_multiplier)]
    pub fn score_multiplier(&self) -> (r: i32)
        ensures
            r == self.spec_score_multiplier(),
    {
        match self {
            Player::X => 1,
            Player::O => -1,
            Player::Neutral => 0,
        }
    }
}

/// The symbol of a player stands for that player.
pub proof fn lemma_symbol_stands_for_player(player: Player)
    ensures
        Player::spec_from_char(player.spec_symbol()) == Some(player),
{
}

} // verus!
