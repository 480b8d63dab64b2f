//! Plain text for the values of the library: numbers, moves, players and
//! boards.

use vstd::prelude::*;
use vstd::string::StringExecFns;

use crate::game::{Move, Player};

verus! {

/// Adds one character to the end of a text.
///
/// Wraps `String::push`, which appends the given character to the end of
/// the string.
#[verifier::external_body]
fn push_char(text: &mut String, c: char)
    ensures
        final(text)@ == old(text)@.push(c),
{
    text.push(c)
}

/// The character of a decimal digit.
pub open spec fn digit_char(digit: nat) -> char {
    if digit == 0 {
        '0'
    } else if digit == 1 {
        '1'
    } else if digit == 2 {
        '2'
    } else if digit == 3 {
        '3'
    } else if digit == 4 {
        '4'
    } else if digit == 5 {
        '5'
    } else if digit == 6 {
        '6'
    } else if digit == 7 {
        '7'
    } else if digit == 8 {
        '8'
    } else {
        '9'
    }
}

/// The decimal digits of a number, the highest first, without leading
/// zeros.
pub open spec fn decimal(value: nat) -> Seq<char>
    decreases value,
{
    if value < 10 {
        seq![digit_char(value)]
    } else {
        decimal(value / 10).push(digit_char(value % 10))
    }
}

/// The decimal digits of a number, after a minus sign if it is negative.
pub open spec fn signed_decimal(value: int) -> Seq<char> {
    if value < 0 {
        seq!['-'] + decimal((-value) as nat)
    } else {
        decimal(value as nat)
    }
}

/// A move as text: its row and its column in round brackets.
pub open spec fn move_text(at: Move) -> Seq<char> {
    seq!['('] + decimal(at.0 as nat) + seq![',', ' '] + decimal(at.1 as nat) + seq![')']
}

/// A move that may be missing, as text.
pub open spec fn option_move_text(at: Option<Move>) -> Seq<char> {
    match at {
        Some(at) => seq!['S', 'o', 'm', 'e', '('] + move_text(at) + seq![')'],
        None => seq!['N', 'o', 'n', 'e'],
    }
}

/// The name of a player: `X`, `O`, or `None` for nobody.
pub open spec fn player_name(player: Player) -> Seq<char> {
    match player {
        Player::X => seq!['X'],
        Player::O => seq!['O'],
        Player::Neutral => seq!['N', 'o', 'n', 'e'],
    }
}

/// The first `count` cells of a board as text: the symbol of each cell
/// with a space behind it, and a line break behind each full row of
/// `columns` cells.
pub open spec fn board_text(cells: Seq<Player>, columns: nat, count: nat) -> Seq<char>
    decreases count,
{
    if count == 0 {
        Seq::empty()
    } else {
        let before = board_text(cells, columns, (count - 1) as nat).push(
            cells[count - 1].spec_symbol(),
        ).push(' ');
        if columns > 0 && count % columns == 0 {
            before.push('\n')
        } else {
            before
        }
    }
}

/// Adds the character of a decimal digit.
fn push_digit(text: &mut String, digit: u64)
    requires
        digit < 10,
    ensures
        final(text)@ == old(text)@.push(digit_char(digit as nat)),
{
    let c = if digit == 0 {
        '0'
    } else if digit == 1 {
        '1'
    } else if digit == 2 {
        '2'
    } else if digit == 3 {
        '3'
    } else if digit == 4 {
        '4'
    } else if digit == 5 {
        '5'
    } else if digit == 6 {
        '6'
    } else if digit == 7 {
        '7'
    } else if digit == 8 {
        '8'
    } else {
        '9'
    };
    push_char(text, c);
}

/// Adds the decimal digits of a number.
pub fn push_decimal(text: &mut String, value: u64)
    ensures
        final(text)@ == old(text)@ + decimal(value as nat),
    decreases value,
{
    if value >= 10 {
        push_decimal(text, value / 10);
    }
    push_digit(text, value % 10);
    assert(text@ =~= old(text)@ + decimal(value as nat));
}

/// Adds the decimal digits of a number, after a minus sign if it is
/// negative.
pub fn push_signed(text: &mut String, value: i32)
    ensures
        final(text)@ == old(text)@ + signed_decimal(value as int),
{
    if value < 0 {
        push_char(text, '-');
        push_decimal(text, (-(value as i64)) as u64);
    } else {
        push_decimal(text, value as u64);
    }
    assert(text@ =~= old(text)@ + signed_decimal(value as int));
}

/// Adds a move: its row and its column in round brackets.
pub fn push_move(text: &mut String, at: Move)
    ensures
        final(text)@ == old(text)@ + move_text(at),
{
    push_char(text, '(');
    push_decimal(text, at.0 as u64);
    push_char(text, ',');
    push_char(text, ' ');
    push_decimal(text, at.1 as u64);
    push_char(text, ')');
    assert(text@ =~= old(text)@ + move_text(at));
}

/// Adds a move that may be missing.
pub fn push_option_move(text: &mut String, at: Option<Move>)
    ensures
        final(text)@ == old(text)@ + option_move_text(at),
{
    match at {
        Some(at) => {
            push_char(text, 'S');
            push_char(text, 'o');
            push_char(text, 'm');
            push_char(text, 'e');
            push_char(text, '(');
            push_move(text, at);
            push_char(text, ')');
        },
        None => {
            push_char(text, 'N');
            push_char(text, 'o');
            push_char(text, 'n');
            push_char(text, 'e');
        },
    }
    assert(text@ =~= old(text)@ + option_move_text(at));
}

/// Adds the name of a player.
pub fn push_player_name(text: &mut String, player: Player)
    ensures
        final(text)@ == old(text)@ + player_name(player),
{
    match player {
        Player::X => {
            push_char(text, 'X');
        },
        Player::O => {
            push_char(text, 'O');
        },
        Player::Neutral => {
            push_char(text, 'N');
            push_char(text, 'o');
            push_char(text, 'n');
            push_char(text, 'e');
        },
    }
    assert(text@ =~= old(text)@ + player_name(player));
}

/// Adds the characters of `word`.
pub fn push_word(text: &mut String, word: &str)
    ensures
        final(text)@ == old(text)@ + word@,
{
    text.append(word);
}

/// Adds a board: the symbol of each cell with a space behind it, and a line
/// break behind each row of `columns` cells.
pub fn push_board(text: &mut String, cells: &[Player], columns: usize)
    requires
        columns > 0,
    ensures
        final(text)@ == old(text)@ + board_text(cells@, columns as nat, cells@.len()),
{
    let mut k: usize = 0;
    assert(text@ =~= old(text)@ + board_text(cells@, columns as nat, 0));
    while k < cells.len()
        invariant
            k <= cells@.len(),
            columns > 0,
            text@ == old(text)@ + board_text(cells@, columns as nat, k as nat),
        decreases cells@.len() - k,
    {
        let ghost before = text@;
        push_char(text, cells[k].symbol());
        push_char(text, ' ');
        k = k + 1;
        if k % columns == 0 {
            push_char(text, '\n');
        }
        assert(text@ =~= old(text)@ + board_text(cells@, columns as nat, k as nat));
    }
}

} // verus!
