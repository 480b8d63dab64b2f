//! What the board games have in common: the cells of a grid, the notation
//! of a board in text, and the fingerprint of a board.

use itertools::Itertools;
use vstd::prelude::*;

use crate::game::{Move, Player};

verus! {

/// The cells of a grid with the given numbers of rows and columns, row by
/// row and, within a row, column by column.
pub open spec fn grid(rows: nat, columns: nat) -> Seq<Move> {
    Seq::new(rows * columns, |k: int| ((k / columns as int) as usize, (k % columns as int) as usize))
}

/// The cells of a grid, row by row.
///
/// Wraps `Itertools::cartesian_product` on the two ranges `0..rows` and
/// `0..columns`, collected into a vector. The product pairs each item of the
/// first range, in turn, with every item of the second range, in the order
/// of that range; so the item at position `k` is `(k / columns, k % columns)`
/// and there are `rows * columns` of them. The bound keeps the vector within
/// what can be allocated.
#[verifier::external_body]
fn cartesian_product(rows: usize, columns: usize) -> (cells: Vec<Move>)
    requires
        rows * columns * 16 <= isize::MAX,
    ensures
        cells@ == grid(rows as nat, columns as nat),
{
    (0..rows).cartesian_product(0..columns).collect()
}

/// The cells of a grid, row by row. The grid has to be small enough for a
/// vector to hold its cells.
pub fn grid_cells(rows: usize, columns: usize) -> (cells: Vec<Move>)
    requires
        rows * columns * 16 <= isize::MAX,
    ensures
        cells@ == grid(rows as nat, columns as nat),
        cells@.len() == rows * columns,
        forall|k: int|
            0 <= k < rows * columns ==> (#[trigger] cells@[k]).0 * columns + cells@[k].1 == k
                && cells@[k].0 < rows && cells@[k].1 < columns,
{
    let cells = cartesian_product(rows, columns);
    proof {
        lemma_grid_cells(rows as nat, columns as nat);
    }
    cells
}

/// Each cell of a grid lies within it, and its place in the grid is its row
/// times the number of columns plus its column.
pub proof fn lemma_grid_cells(rows: nat, columns: nat)
    requires
        rows * columns <= usize::MAX,
    ensures
        grid(rows, columns).len() == rows * columns,
        forall|k: int|
            0 <= k < rows * columns ==> (#[trigger] grid(rows, columns)[k]).0 * columns + grid(
                rows,
                columns,
            )[k].1 == k && grid(rows, columns)[k].0 < rows && grid(rows, columns)[k].1 < columns,
{
    assert forall|k: int| 0 <= k < rows * columns implies (#[trigger] grid(rows, columns)[k]).0
        * columns + grid(rows, columns)[k].1 == k && grid(rows, columns)[k].0 < rows && grid(
        rows,
        columns,
    )[k].1 < columns by {
        let c = columns as int;
        assert(c > 0) by (nonlinear_arith)
            requires
                0 <= k < rows * c,
                0 <= c,
        ;
        assert(0 <= k / c < rows && 0 <= k % c < c && (k / c) * c + k % c == k) by (nonlinear_arith)
            requires
                0 <= k < rows * c,
                0 < c,
        ;
    }
}

/// Whether `c` is white space: one of the characters that have the property
/// `White_Space` in the Unicode character database. These are the tabulator
/// and the line breaks from U+0009 to U+000D, the space, and U+0085, U+00A0,
/// U+1680, U+2000 to U+200A, U+2028, U+2029, U+202F, U+205F and U+3000.
pub open spec fn is_whitespace(c: char) -> bool {
    let code = c as u32;
    ||| 0x9 <= code <= 0xd
    ||| code == 0x20
    ||| code == 0x85
    ||| code == 0xa0
    ||| code == 0x1680
    ||| 0x2000 <= code <= 0x200a
    ||| code == 0x2028
    ||| code == 0x2029
    ||| code == 0x202f
    ||| code == 0x205f
    ||| code == 0x3000
}

/// `char::is_whitespace` returns whether the character has the property
/// `White_Space` of the Unicode character database, see [`is_whitespace`].
pub assume_specification[ char::is_whitespace ](c: char) -> (white: bool)
    ensures
        white == is_whitespace(c),
;

/// The characters of `text` that are not white space, in their order.
pub open spec fn symbols_of(text: Seq<char>) -> Seq<char> {
    text.filter(|c: char| !is_whitespace(c))
}

/// The characters of `text` that are not white space, in their order.
pub fn strip_whitespace(text: &str) -> (symbols: Vec<char>)
    ensures
        symbols@ == symbols_of(text@),
{
    let length = text.unicode_len();
    let mut symbols: Vec<char> = Vec::new();
    let mut i: usize = 0;
    proof {
        reveal(Seq::filter);
        assert(text@.take(0) =~= Seq::<char>::empty());
    }
    while i < length
        invariant
            i <= length,
            length == text@.len(),
            symbols@ == symbols_of(text@.take(i as int)),
        decreases length - i,
    {
        let c = text.get_char(i);
        proof {
            reveal(Seq::filter);
            assert(text@.take(i + 1).drop_last() =~= text@.take(i as int));
            assert(text@.take(i + 1).last() == c);
        }
        if !c.is_whitespace() {
            symbols.push(c);
        }
        i = i + 1;
    }
    assert(text@.take(length as int) =~= text@);
    symbols
}

/// The players that the first `limit` of the `symbols` stand for, or as
/// many as there are; nothing if one of them stands for no player.
pub open spec fn cells_of(symbols: Seq<char>, limit: nat) -> Option<Seq<Player>> {
    let count = if symbols.len() < limit {
        symbols.len()
    } else {
        limit
    };
    if forall|i: int| 0 <= i < count ==> Player::spec_from_char(#[trigger] symbols[i]) is Some {
        Some(Seq::new(count, |i: int| Player::spec_from_char(symbols[i]).unwrap()))
    } else {
        None
    }
}

/// The players that the first `limit` of the `symbols` stand for, or as
/// many as there are; nothing if one of them stands for no player.
pub fn parse_cells(symbols: &Vec<char>, limit: usize) -> (cells: Option<Vec<Player>>)
    ensures
        match cells {
            Some(players) => cells_of(symbols@, limit as nat) == Some(players@),
            None => cells_of(symbols@, limit as nat) is None,
        },
{
    let count = if symbols.len() < limit {
        symbols.len()
    } else {
        limit
    };
    let mut players: Vec<Player> = Vec::new();
    let mut i: usize = 0;
    while i < count
        invariant
            i <= count <= symbols@.len(),
            count == if symbols@.len() < limit {
                symbols@.len()
            } else {
                limit as nat
            },
            players@.len() == i,
            forall|k: int|
                0 <= k < i ==> Player::spec_from_char(#[trigger] symbols@[k]) == Some(players@[k]),
        decreases count - i,
    {
        match Player::from_char(symbols[i]) {
            Some(player) => {
                players.push(player);
            },
            None => {
                assert(Player::spec_from_char(symbols@[i as int]) is None);
                return None;
            },
        }
        i = i + 1;
    }
    assert(players@ =~= cells_of(symbols@, limit as nat).unwrap());
    Some(players)
}

/// `cells`, cut or filled up with empty cells to the length `size`.
pub open spec fn padded(cells: Seq<Player>, size: nat) -> Seq<Player> {
    Seq::new(
        size,
        |k: int|
            if k < cells.len() {
                cells[k]
            } else {
                Player::Neutral
            },
    )
}

/// The digit that stands for a player in a fingerprint.
pub open spec fn digit(player: Player) -> nat {
    match player {
        Player::Neutral => 0,
        Player::X => 1,
        Player::O => 2,
    }
}

/// The number whose digits to the base four are those of `cells`, the first
/// cell being the lowest digit.
pub open spec fn cells_code(cells: Seq<Player>) -> nat
    decreases cells.len(),
{
    if cells.len() == 0 {
        0
    } else {
        digit(cells.first()) + 4 * cells_code(cells.drop_first())
    }
}

/// The fingerprint of a board with the side to move: to the base four, the
/// lowest digit is the side to move and the digits above it are the cells.
pub open spec fn fingerprint_of(cells: Seq<Player>, to_move: Player) -> nat {
    digit(to_move) + 4 * cells_code(cells)
}

/// Four to the power of `exponent`.
pub open spec fn power_of_four(exponent: nat) -> nat
    decreases exponent,
{
    if exponent == 0 {
        1
    } else {
        4 * power_of_four((exponent - 1) as nat)
    }
}

/// The code of a board has as many digits as the board has cells.
pub proof fn lemma_cells_code_bound(cells: Seq<Player>)
    ensures
        cells_code(cells) < power_of_four(cells.len()),
    decreases cells.len(),
{
    if cells.len() > 0 {
        lemma_cells_code_bound(cells.drop_first());
    }
}

/// Boards of one size with one code are the same board.
pub proof fn lemma_cells_code_injective(first: Seq<Player>, second: Seq<Player>)
    requires
        first.len() == second.len(),
        cells_code(first) == cells_code(second),
    ensures
        first == second,
    decreases first.len(),
{
    if first.len() > 0 {
        lemma_cells_code_injective(first.drop_first(), second.drop_first());
        assert(first =~= seq![first.first()] + first.drop_first());
        assert(second =~= seq![second.first()] + second.drop_first());
    } else {
        assert(first =~= second);
    }
}

/// Boards of one size with one fingerprint are the same board with the same
/// side to move.
pub proof fn lemma_fingerprint_injective(
    first: Seq<Player>,
    first_to_move: Player,
    second: Seq<Player>,
    second_to_move: Player,
)
    requires
        first.len() == second.len(),
        fingerprint_of(first, first_to_move) == fingerprint_of(second, second_to_move),
    ensures
        first == second,
        first_to_move == second_to_move,
{
    lemma_cells_code_injective(first, second);
}

/// The powers of four grow with the exponent, and the 64th fits 128 bits
/// with room to spare.
pub proof fn lemma_power_of_four_bound(exponent: nat)
    requires
        exponent <= 63,
    ensures
        power_of_four(exponent) <= 0x4000_0000_0000_0000_0000_0000_0000_0000,
    decreases 63 - exponent,
{
    if exponent < 63 {
        lemma_power_of_four_bound(exponent + 1);
    } else {
        reveal_with_fuel(power_of_four, 64);
    }
}

/// The fingerprint of a board of at most 62 cells with the side to move.
pub fn board_hash(cells: &[Player], to_move: Player) -> (fingerprint: u128)
    requires
        cells@.len() <= 62,
    ensures
        fingerprint == fingerprint_of(cells@, to_move),
{
    let mut code: u128 = 0;
    let mut i: usize = cells.len();
    proof {
        assert(cells@.skip(i as int) =~= Seq::<Player>::empty());
    }
    while i > 0
        invariant
            i <= cells@.len() <= 62,
            code == cells_code(cells@.skip(i as int)),
        decreases i,
    {
        i = i - 1;
        proof {
            let rest = cells@.skip(i as int);
            assert(rest.drop_first() =~= cells@.skip(i + 1));
            lemma_cells_code_bound(rest.drop_first());
            lemma_power_of_four_bound(rest.drop_first().len());
        }
        code = code * 4 + player_digit(cells[i]);
    }
    proof {
        assert(cells@.skip(0) =~= cells@);
        lemma_cells_code_bound(cells@);
        lemma_power_of_four_bound(cells@.len());
    }
    code * 4 + player_digit(to_move)
}

/// The digit that stands for a player in a fingerprint.
fn player_digit(player: Player) -> (d: u128)
    ensures
        d == digit(player),
{
    match player {
        Player::Neutral => 0,
        Player::X => 1,
        Player::O => 2,
    }
}

} // verus!
