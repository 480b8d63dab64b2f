//! Connect four: four in a row on a board of six rows and seven columns, in
//! which a stone falls to the lowest free cell of its column.

use std::collections::HashSet;
use vstd::prelude::*;

use crate::board::{
    board_hash, cells_of, fingerprint_of, grid, grid_cells, lemma_fingerprint_injective, padded,
    parse_cells, strip_whitespace, symbols_of,
};
use crate::game::{Move, Player};
use crate::minimax::{EvaluationScore, GameHash, MinimaxDriver, DECISIVE_SCORE};
use crate::text::{
    board_text, option_move_text, player_name, push_board, push_option_move, push_player_name,
    push_word,
};

verus! {

/// The number of columns of the board.
pub const WIDTH: usize = 7;

/// The number of rows of the board. Row `0` is the top row.
pub const HEIGHT: usize = 6;

/// A step from a cell to one next to it, as `(rows, columns)`.
pub type Step = (i32, i32);

/// A position of connect four: the side to move, the cells row by row from
/// the top, and the cell of the last stone, if it is known.
#[derive(Clone, Copy, Debug)]
pub struct Connect4Game {
    pub current_player: Player,
    pub board: [Player; 42],
    pub last_move: Option<Move>,
}

/// Whether `at` is a cell of the board.
pub open spec fn on_board(at: (int, int)) -> bool {
    0 <= at.0 < HEIGHT && 0 <= at.1 < WIDTH
}

/// The cell one `step` from `at`.
pub open spec fn stepped(at: (int, int), step: (int, int)) -> (int, int) {
    (at.0 + step.0, at.1 + step.1)
}

/// The owner of the cell at `at` of a board.
pub open spec fn owner(cells: Seq<Player>, at: (int, int)) -> Player {
    cells[at.0 * WIDTH + at.1]
}

/// The number of cells in a row that `player` holds, from `at` on in the
/// direction of `step`, of which no more than `limit` are counted.
pub open spec fn run_length(
    cells: Seq<Player>,
    at: (int, int),
    step: (int, int),
    player: Player,
    limit: nat,
) -> nat
    decreases limit,
{
    if limit == 0 || !on_board(at) || owner(cells, at) != player {
        0
    } else {
        1 + run_length(cells, stepped(at, step), step, player, (limit - 1) as nat)
    }
}

/// A run counted with a lower limit is the run counted with the higher one,
/// cut at the lower limit.
pub proof fn lemma_run_length_limit(
    cells: Seq<Player>,
    at: (int, int),
    step: (int, int),
    player: Player,
    low: nat,
    high: nat,
)
    requires
        low <= high,
    ensures
        run_length(cells, at, step, player, low) == if run_length(cells, at, step, player, high)
            < low {
            run_length(cells, at, step, player, high)
        } else {
            low
        },
    decreases low,
{
    if low == 0 || !on_board(at) || owner(cells, at) != player {
    } else {
        lemma_run_length_limit(
            cells,
            stepped(at, step),
            step,
            player,
            (low - 1) as nat,
            (high - 1) as nat,
        );
    }
}

/// The row of the lowest free cell of column `column` above row `below`.
pub open spec fn free_row(cells: Seq<Player>, column: int, below: int) -> Option<int>
    decreases below,
{
    if below <= 0 {
        None
    } else if owner(cells, (below - 1, column)) == Player::Neutral {
        Some(below - 1)
    } else {
        free_row(cells, column, below - 1)
    }
}

/// The moves in the first `columns` columns: for each column that has a
/// free cell, from the left, its lowest free cell.
pub open spec fn moves_in(cells: Seq<Player>, columns: nat) -> Seq<Move>
    decreases columns,
{
    if columns == 0 {
        Seq::empty()
    } else {
        let before = moves_in(cells, (columns - 1) as nat);
        match free_row(cells, columns - 1, HEIGHT as int) {
            Some(row) => before.push((row as usize, (columns - 1) as usize)),
            None => before,
        }
    }
}

/// The four directions in which stones connect, each as the step backwards
/// and the step forwards: along a row, down a diagonal, along a column, up a
/// diagonal.
pub open spec fn direction(index: int) -> (Step, Step) {
    if index == 0 {
        ((0i32, -1i32), (0i32, 1i32))
    } else if index == 1 {
        ((-1i32, -1i32), (1i32, 1i32))
    } else if index == 2 {
        ((-1i32, 0i32), (1i32, 0i32))
    } else {
        ((1i32, -1i32), (-1i32, 1i32))
    }
}

/// The four directions in which stones connect.
pub fn directions() -> (pairs: [(Step, Step); 4])
    ensures
        forall|index: int| 0 <= index < 4 ==> #[trigger] pairs@[index] == direction(index),
{
    [((0, -1), (0, 1)), ((-1, -1), (1, 1)), ((-1, 0), (1, 0)), ((1, -1), (-1, 1))]
}

/// The number of lines along which the evaluation sweeps the board.
pub const SWEEPS: usize = 34;

/// The line of index `index` of the sweep, as the cell it starts at and the
/// step it goes by: the six rows from the bottom one up, each to the right;
/// the seven columns, each upwards; ten diagonals that go up and to the left,
/// from the bottom row and from the right column; eleven that go up and to
/// the right, from the bottom row and from the left column. Every four cells
/// in a row lie on one of them.
pub open spec fn sweep_line(index: int) -> ((int, int), (int, int)) {
    if index < 6 {
        ((5 - index, 0), (0, 1))
    } else if index < 13 {
        ((5, index - 6), (-1, 0))
    } else if index < 19 {
        ((5, index - 12), (-1, -1))
    } else if index < 23 {
        ((23 - index, 6), (-1, -1))
    } else if index < 30 {
        ((5, index - 23), (-1, 1))
    } else {
        ((34 - index, 0), (-1, 1))
    }
}

/// The cell `k` steps from the start of the line of index `index`.
#[verifier::opaque]
pub open spec fn sweep_cell(index: int, k: int) -> (int, int) {
    let (start, step) = sweep_line(index);
    (
        if step.0 < 0 {
            start.0 - k
        } else {
            start.0
        },
        if step.1 < 0 {
            start.1 - k
        } else if step.1 > 0 {
            start.1 + k
        } else {
            start.1
        },
    )
}

/// Whether the first cells of the line of index `index`, up to the one that
/// is `k` steps from its start, lie on the board.
pub open spec fn in_view(index: int, k: int) -> bool {
    forall|m: int| 0 <= m <= k ==> on_board(#[trigger] sweep_cell(index, m))
}

/// `1` if `player` holds the cell `m` steps from the start of a line, `0` if
/// not, or if there is no such cell.
pub open spec fn tally(cells: Seq<Player>, index: int, m: int, player: Player) -> int {
    if m >= 0 && owner(cells, sweep_cell(index, m)) == player {
        1
    } else {
        0
    }
}

/// The number of cells that `player` holds in the window of a line that
/// ends `k` steps from its start: the cell there and the three before it.
pub open spec fn window_tally(cells: Seq<Player>, index: int, k: int, player: Player) -> int {
    tally(cells, index, k, player) + tally(cells, index, k - 1, player) + tally(
        cells,
        index,
        k - 2,
        player,
    ) + tally(cells, index, k - 3, player)
}

/// The place on the board of the cell at `at`.
pub open spec fn place(at: (int, int)) -> int {
    at.0 * WIDTH + at.1
}

/// The place of the last free cell of the window that ends `k` steps from
/// the start of a line.
pub open spec fn window_gap(cells: Seq<Player>, index: int, k: int) -> int {
    if tally(cells, index, k, Player::Neutral) == 1 {
        place(sweep_cell(index, k))
    } else if tally(cells, index, k - 1, Player::Neutral) == 1 {
        place(sweep_cell(index, k - 1))
    } else if tally(cells, index, k - 2, Player::Neutral) == 1 {
        place(sweep_cell(index, k - 2))
    } else {
        place(sweep_cell(index, k - 3))
    }
}

/// Whether `player` holds all four cells of the window that ends `k` steps
/// from the start of a line.
pub open spec fn window_full(cells: Seq<Player>, index: int, k: int, player: Player) -> bool {
    in_view(index, k) && window_tally(cells, index, k, player) == 4
}

/// The place where `player` threatens to complete the window that ends `k`
/// steps from the start of a line: the one free cell of a window in which
/// the player holds the other three.
pub open spec fn window_threat(cells: Seq<Player>, index: int, k: int, player: Player) -> Option<
    int,
> {
    if in_view(index, k) && window_tally(cells, index, k, player) == 3 && window_tally(
        cells,
        index,
        k,
        Player::Neutral,
    ) == 1 {
        Some(window_gap(cells, index, k))
    } else {
        None
    }
}

/// The side that holds the first window that one side holds whole, in the
/// order of the sweep, from the window on that ends `k` steps from the start
/// of the line of index `index`.
pub open spec fn first_four(cells: Seq<Player>, index: nat, k: nat) -> Option<Player>
    decreases SWEEPS - index, 8 - k,
{
    if index >= SWEEPS {
        None
    } else if k >= 8 || !on_board(sweep_cell(index as int, k as int)) {
        first_four(cells, index + 1, 0)
    } else if window_full(cells, index as int, k as int, Player::X) {
        Some(Player::X)
    } else if window_full(cells, index as int, k as int, Player::O) {
        Some(Player::O)
    } else {
        first_four(cells, index, k + 1)
    }
}

/// Whether `player` holds the four cells in a row that begin at `at` and go
/// on by `step`, all of them on the board.
pub open spec fn four_at(cells: Seq<Player>, at: (int, int), step: (int, int), player: Player) -> bool {
    &&& on_board(at)
    &&& on_board((at.0 + 3 * step.0, at.1 + 3 * step.1))
    &&& owner(cells, at) == player
    &&& owner(cells, (at.0 + step.0, at.1 + step.1)) == player
    &&& owner(cells, (at.0 + 2 * step.0, at.1 + 2 * step.1)) == player
    &&& owner(cells, (at.0 + 3 * step.0, at.1 + 3 * step.1)) == player
}

/// Whether `player` holds four cells in a row that begin at the given cell
/// and go to the right, downwards, or down one of the two diagonals.
pub open spec fn four_from(cells: Seq<Player>, row: int, column: int, player: Player) -> bool {
    ||| four_at(cells, (row, column), (0, 1), player)
    ||| four_at(cells, (row, column), (1, 0), player)
    ||| four_at(cells, (row, column), (1, 1), player)
    ||| four_at(cells, (row, column), (1, -1), player)
}

/// Whether `player` holds four cells in a row somewhere on the board: in a
/// row, in a column or on a diagonal.
pub open spec fn holds_four(cells: Seq<Player>, player: Player) -> bool {
    exists|row: int, column: int| #[trigger] four_from(cells, row, column, player)
}

/// The side that holds four in a row, if one does. Where both sides do, it
/// is the side whose four the sweep comes upon first, see [`first_four`].
pub open spec fn four_holder(cells: Seq<Player>) -> Option<Player> {
    if holds_four(cells, Player::X) && !holds_four(cells, Player::O) {
        Some(Player::X)
    } else if holds_four(cells, Player::O) && !holds_four(cells, Player::X) {
        Some(Player::O)
    } else if holds_four(cells, Player::X) {
        first_four(cells, 0, 0)
    } else {
        None
    }
}

/// A window that one side holds whole is four in a row of that side.
pub proof fn lemma_window_is_four(cells: Seq<Player>, index: int, k: int, player: Player)
    requires
        0 <= index < SWEEPS,
        0 <= k,
        window_full(cells, index, k, player),
    ensures
        holds_four(cells, player),
{
    reveal(sweep_cell);
    assert(k >= 3);
    assert(on_board(sweep_cell(index, k)));
    assert(on_board(sweep_cell(index, k - 1)));
    assert(on_board(sweep_cell(index, k - 2)));
    assert(on_board(sweep_cell(index, k - 3)));
    let low = sweep_cell(index, k - 3);
    let high = sweep_cell(index, k);
    if index < 6 {
        assert(four_at(cells, low, (0, 1), player));
        assert(four_from(cells, low.0, low.1, player));
    } else if index < 13 {
        assert(four_at(cells, high, (1, 0), player));
        assert(four_from(cells, high.0, high.1, player));
    } else if index < 23 {
        assert(four_at(cells, high, (1, 1), player));
        assert(four_from(cells, high.0, high.1, player));
    } else {
        assert(four_at(cells, high, (1, -1), player));
        assert(four_from(cells, high.0, high.1, player));
    }
}

/// The side that [`first_four`] gives holds four in a row.
pub proof fn lemma_first_four_holds(cells: Seq<Player>, index: nat, k: nat)
    ensures
        first_four(cells, index, k) matches Some(player) ==> player != Player::Neutral
            && holds_four(cells, player),
    decreases SWEEPS - index, 8 - k,
{
    if index >= SWEEPS {
    } else if k >= 8 || !on_board(sweep_cell(index as int, k as int)) {
        lemma_first_four_holds(cells, index + 1, 0);
    } else if window_full(cells, index as int, k as int, Player::X) {
        lemma_window_is_four(cells, index as int, k as int, Player::X);
    } else if window_full(cells, index as int, k as int, Player::O) {
        lemma_window_is_four(cells, index as int, k as int, Player::O);
    } else {
        lemma_first_four_holds(cells, index, k + 1);
    }
}

/// Four cells on a line of the sweep that one side holds, with the line on
/// the board from its start to the last of them, are a window that the side
/// holds whole.
pub proof fn lemma_four_is_window(cells: Seq<Player>, index: int, k: int, player: Player)
    requires
        0 <= index < SWEEPS,
        3 <= k,
        on_board(sweep_cell(index, k)),
        owner(cells, sweep_cell(index, k)) == player,
        owner(cells, sweep_cell(index, k - 1)) == player,
        owner(cells, sweep_cell(index, k - 2)) == player,
        owner(cells, sweep_cell(index, k - 3)) == player,
    ensures
        k < 8,
        window_full(cells, index, k, player),
{
    reveal(sweep_cell);
    assert forall|m: int| 0 <= m <= k implies on_board(#[trigger] sweep_cell(index, m)) by {}
}

/// Every four in a row is a window of the sweep.
pub proof fn lemma_four_on_sweep(cells: Seq<Player>, row: int, column: int, player: Player)
    requires
        four_from(cells, row, column, player),
    ensures
        exists|index: int, k: int|
            0 <= index < SWEEPS && 0 <= k < 8 && #[trigger] window_full(cells, index, k, player),
{
    reveal(sweep_cell);
    if four_at(cells, (row, column), (0, 1), player) {
        let index = 5 - row;
        let k = column + 3;
        assert(sweep_cell(index, k) == (row, column + 3));
        assert(sweep_cell(index, k - 1) == (row, column + 2));
        assert(sweep_cell(index, k - 2) == (row, column + 1));
        assert(sweep_cell(index, k - 3) == (row, column));
        lemma_four_is_window(cells, index, k, player);
        assert(0 <= index < SWEEPS && 0 <= k < 8 && window_full(cells, index, k, player));
    } else if four_at(cells, (row, column), (1, 0), player) {
        let index = 6 + column;
        let k = 5 - row;
        assert(sweep_cell(index, k) == (row, column));
        assert(sweep_cell(index, k - 1) == (row + 1, column));
        assert(sweep_cell(index, k - 2) == (row + 2, column));
        assert(sweep_cell(index, k - 3) == (row + 3, column));
        lemma_four_is_window(cells, index, k, player);
        assert(0 <= index < SWEEPS && 0 <= k < 8 && window_full(cells, index, k, player));
    } else if four_at(cells, (row, column), (1, 1), player) {
        let index = 17 + column - row;
        let k = if column - row <= 1 {
            5 - row
        } else {
            6 - column
        };
        assert(sweep_cell(index, k) == (row, column));
        assert(sweep_cell(index, k - 1) == (row + 1, column + 1));
        assert(sweep_cell(index, k - 2) == (row + 2, column + 2));
        assert(sweep_cell(index, k - 3) == (row + 3, column + 3));
        lemma_four_is_window(cells, index, k, player);
        assert(0 <= index < SWEEPS && 0 <= k < 8 && window_full(cells, index, k, player));
    } else {
        let index = if row + column >= 5 {
            18 + row + column
        } else {
            34 - row - column
        };
        let k = if row + column >= 5 {
            5 - row
        } else {
            column
        };
        assert(sweep_cell(index, k) == (row, column));
        assert(sweep_cell(index, k - 1) == (row + 1, column - 1));
        assert(sweep_cell(index, k - 2) == (row + 2, column - 2));
        assert(sweep_cell(index, k - 3) == (row + 3, column - 3));
        lemma_four_is_window(cells, index, k, player);
        assert(0 <= index < SWEEPS && 0 <= k < 8 && window_full(cells, index, k, player));
    }
}

/// The sweep comes upon a four, from any window on that is not behind a
/// window that one side holds whole.
pub proof fn lemma_first_four_finds(
    cells: Seq<Player>,
    index: nat,
    k: nat,
    at_index: int,
    at_k: int,
    player: Player,
)
    requires
        player == Player::X || player == Player::O,
        0 <= at_index < SWEEPS,
        0 <= at_k < 8,
        window_full(cells, at_index, at_k, player),
        index < at_index || (index == at_index && k <= at_k),
    ensures
        first_four(cells, index, k) is Some,
    decreases SWEEPS - index, 8 - k,
{
    if k >= 8 || !on_board(sweep_cell(index as int, k as int)) {
        if index == at_index {
            assert(on_board(sweep_cell(at_index, k as int)));
        }
        lemma_first_four_finds(cells, index + 1, 0, at_index, at_k, player);
    } else if window_full(cells, index as int, k as int, Player::X) {
    } else if window_full(cells, index as int, k as int, Player::O) {
    } else {
        lemma_first_four_finds(cells, index, k + 1, at_index, at_k, player);
    }
}

/// The side that holds four in a row is the side whose four the sweep comes
/// upon first; where the sweep comes upon none, no side holds four in a row.
pub proof fn lemma_four_holder(cells: Seq<Player>)
    ensures
        four_holder(cells) == first_four(cells, 0, 0),
        four_holder(cells) is Some <==> holds_four(cells, Player::X) || holds_four(
            cells,
            Player::O,
        ),
{
    lemma_first_four_holds(cells, 0, 0);
    if holds_four(cells, Player::X) {
        let (row, column) = choose|row: int, column: int| #[trigger]
            four_from(cells, row, column, Player::X);
        lemma_four_on_sweep(cells, row, column, Player::X);
        let (index, k) = choose|index: int, k: int|
            0 <= index < SWEEPS && 0 <= k < 8 && #[trigger] window_full(
                cells,
                index,
                k,
                Player::X,
            );
        lemma_first_four_finds(cells, 0, 0, index, k, Player::X);
    }
    if holds_four(cells, Player::O) {
        let (row, column) = choose|row: int, column: int| #[trigger]
            four_from(cells, row, column, Player::O);
        lemma_four_on_sweep(cells, row, column, Player::O);
        let (index, k) = choose|index: int, k: int|
            0 <= index < SWEEPS && 0 <= k < 8 && #[trigger] window_full(
                cells,
                index,
                k,
                Player::O,
            );
        lemma_first_four_finds(cells, 0, 0, index, k, Player::O);
    }
}

/// Whether `player` threatens to complete a window at the place `at`, in one
/// of the first `lines` lines of the sweep or in one of the first `steps`
/// windows of the line after them.
pub open spec fn is_threat(
    cells: Seq<Player>,
    player: Player,
    lines: int,
    steps: int,
    at: usize,
) -> bool {
    exists|index: int, k: int|
        0 <= index && 0 <= k < 8 && (index < lines || (index == lines && k < steps))
            && #[trigger] window_threat(cells, index, k, player) == Some(at as int)
}

/// The places where `player` threatens to complete a window, see
/// [`is_threat`].
pub open spec fn threats(cells: Seq<Player>, player: Player, lines: int, steps: int) -> Set<usize> {
    Set::new(|at: usize| is_threat(cells, player, lines, steps, at))
}

/// What the threats in the first `lines` lines of the sweep count for: ten
/// for each place where `X` threatens, minus ten for each place where `O`
/// does.
pub open spec fn threat_score(cells: Seq<Player>, lines: int) -> int {
    10 * threats(cells, Player::X, lines, 0).len() - 10 * threats(
        cells,
        Player::O,
        lines,
        0,
    ).len()
}

/// The score of a position in which no side holds four in a row: the
/// threats are counted after the rows, again after the columns, and again
/// after either set of diagonals, so that an early threat counts up to four
/// times.
pub open spec fn heuristic_score(cells: Seq<Player>) -> int {
    threat_score(cells, 6) + threat_score(cells, 13) + threat_score(cells, 23) + threat_score(
        cells,
        34,
    )
}

/// The part of [`heuristic_score`] that is known when `lines` lines have
/// been swept.
pub open spec fn heuristic_so_far(cells: Seq<Player>, lines: int) -> int {
    (if lines >= 6 {
        threat_score(cells, 6)
    } else {
        0
    }) + (if lines >= 13 {
        threat_score(cells, 13)
    } else {
        0
    }) + (if lines >= 23 {
        threat_score(cells, 23)
    } else {
        0
    }) + (if lines >= 34 {
        threat_score(cells, 34)
    } else {
        0
    })
}

/// How a line of the sweep runs: each cell is one step from the cell before
/// it, and a line leaves the board after seven cells at most.
pub proof fn lemma_sweep_cell(index: int, k: int)
    requires
        0 <= index < SWEEPS,
        0 <= k,
    ensures
        sweep_cell(index, 0) == sweep_line(index).0,
        sweep_cell(index, k + 1) == stepped(sweep_cell(index, k), sweep_line(index).1),
        sweep_cell(index, k).0 <= 5,
        on_board(sweep_cell(index, k)) ==> k <= 6 && 0 <= place(sweep_cell(index, k)) < 42,
        k >= 4 ==> sweep_cell(index, k - 4) == (
            sweep_cell(index, k).0 - 4 * sweep_line(index).1.0,
            sweep_cell(index, k).1 - 4 * sweep_line(index).1.1,
        ),
{
    reveal(sweep_cell);
}

/// How the window slides: with the cell `k` steps from the start of a line
/// on the board, the line is in view up to there; the cell comes into the
/// window and the cell four steps before it drops out; and the last free
/// cell of the window is the new cell, if that is free, or else the last free
/// cell of the window before.
pub proof fn lemma_window_slides(cells: Seq<Player>, index: int, k: int)
    requires
        0 <= index < SWEEPS,
        0 <= k,
        in_view(index, k - 1),
        on_board(sweep_cell(index, k)),
    ensures
        in_view(index, k),
        k >= 4 ==> on_board(sweep_cell(index, k - 4)),
        forall|player: Player| #[trigger]
            window_tally(cells, index, k, player) == window_tally(cells, index, k - 1, player)
                + tally(cells, index, k, player) - tally(cells, index, k - 4, player),
        window_tally(cells, index, k, Player::Neutral) >= 1 ==> window_gap(cells, index, k) == if tally(
            cells,
            index,
            k,
            Player::Neutral,
        ) == 1 {
            place(sweep_cell(index, k))
        } else {
            window_gap(cells, index, k - 1)
        },
        window_tally(cells, index, k, Player::Neutral) + window_tally(cells, index, k, Player::X)
            + window_tally(cells, index, k, Player::O) <= 4,
{
    assert forall|m: int| 0 <= m <= k implies on_board(#[trigger] sweep_cell(index, m)) by {
        if m < k {
            assert(in_view(index, k - 1));
        }
    }
    if k >= 4 {
        assert(on_board(sweep_cell(index, k - 4)));
        lemma_sweep_cell(index, k - 4);
    }
}

/// One more window adds its threat, if it has one, to the threats.
pub proof fn lemma_threats_step(cells: Seq<Player>, player: Player, index: int, k: int)
    requires
        0 <= index,
        0 <= k < 8,
    ensures
        threats(cells, player, index, k + 1) == match window_threat(cells, index, k, player) {
            Some(at) => if 0 <= at <= usize::MAX {
                threats(cells, player, index, k).insert(at as usize)
            } else {
                threats(cells, player, index, k)
            },
            None => threats(cells, player, index, k),
        },
{
    let before = threats(cells, player, index, k);
    let after = threats(cells, player, index, k + 1);
    let found = window_threat(cells, index, k, player);
    let expected = match found {
        Some(at) => if 0 <= at <= usize::MAX {
            before.insert(at as usize)
        } else {
            before
        },
        None => before,
    };
    assert forall|at: usize| after.contains(at) implies expected.contains(at) by {
        let (i, m) = choose|i: int, m: int|
            0 <= i && 0 <= m < 8 && (i < index || (i == index && m < k + 1))
                && #[trigger] window_threat(cells, i, m, player) == Some(at as int);
        if i == index && m == k {
        } else {
            assert(0 <= i && 0 <= m < 8 && (i < index || (i == index && m < k)) && window_threat(
                cells,
                i,
                m,
                player,
            ) == Some(at as int));
            assert(is_threat(cells, player, index, k, at));
        }
    }
    assert forall|at: usize| expected.contains(at) implies after.contains(at) by {
        if before.contains(at) {
            let (i, m) = choose|i: int, m: int|
                0 <= i && 0 <= m < 8 && (i < index || (i == index && m < k))
                    && #[trigger] window_threat(cells, i, m, player) == Some(at as int);
            assert(0 <= i && 0 <= m < 8 && (i < index || (i == index && m < k + 1))
                && window_threat(cells, i, m, player) == Some(at as int));
            assert(is_threat(cells, player, index, k + 1, at));
        } else {
            assert(0 <= index && 0 <= k < 8 && (index < index || (index == index && k < k + 1))
                && window_threat(cells, index, k, player) == Some(at as int));
            assert(is_threat(cells, player, index, k + 1, at));
        }
    }
    assert(after =~= expected);
}

/// Where a line leaves the board, no further window of it has a threat.
pub proof fn lemma_threats_line_end(cells: Seq<Player>, player: Player, index: int, k: int)
    requires
        0 <= index,
        0 <= k <= 8,
        k == 8 || !on_board(sweep_cell(index, k)),
    ensures
        threats(cells, player, index, k) == threats(cells, player, index + 1, 0),
{
    let before = threats(cells, player, index, k);
    let after = threats(cells, player, index + 1, 0);
    assert forall|at: usize| after.contains(at) implies before.contains(at) by {
        let (i, m) = choose|i: int, m: int|
            0 <= i && 0 <= m < 8 && (i < index + 1 || (i == index + 1 && m < 0))
                && #[trigger] window_threat(cells, i, m, player) == Some(at as int);
        if i == index && m >= k {
            assert(in_view(index, m));
            assert(on_board(sweep_cell(index, k)));
        }
        assert(0 <= i && 0 <= m < 8 && (i < index || (i == index && m < k)) && window_threat(
            cells,
            i,
            m,
            player,
        ) == Some(at as int));
        assert(is_threat(cells, player, index, k, at));
    }
    assert forall|at: usize| before.contains(at) implies after.contains(at) by {
        let (i, m) = choose|i: int, m: int|
            0 <= i && 0 <= m < 8 && (i < index || (i == index && m < k))
                && #[trigger] window_threat(cells, i, m, player) == Some(at as int);
        assert(0 <= i && 0 <= m < 8 && (i < index + 1 || (i == index + 1 && m < 0))
            && window_threat(cells, i, m, player) == Some(at as int));
        assert(is_threat(cells, player, index + 1, 0, at));
    }
    assert(before =~= after);
}

/// Before the sweep there are no threats.
pub proof fn lemma_threats_start(cells: Seq<Player>, player: Player)
    ensures
        threats(cells, player, 0, 0) == Set::<usize>::empty(),
{
    assert(threats(cells, player, 0, 0) =~= Set::<usize>::empty());
}

/// The numbers of cells that each side holds, and of free cells, among the
/// latest cells of a line: the window that slides along it.
struct WindowCount {
    free: usize,
    xs: usize,
    os: usize,
}

impl WindowCount {
    /// Whether the numbers are those of the window that ends `k` steps from
    /// the start of the line of index `index`.
    spec fn counts(&self, cells: Seq<Player>, index: int, k: int) -> bool {
        &&& self.free == window_tally(cells, index, k, Player::Neutral)
        &&& self.xs == window_tally(cells, index, k, Player::X)
        &&& self.os == window_tally(cells, index, k, Player::O)
    }

    /// The empty window.
    fn empty() -> (window: Self)
        ensures
            window.free == 0,
            window.xs == 0,
            window.os == 0,
    {
        WindowCount { free: 0, xs: 0, os: 0 }
    }

    /// One more cell, which `player` holds.
    fn enter(&mut self, player: Player)
        requires
            old(self).free + old(self).xs + old(self).os <= 8,
        ensures
            final(self).free == old(self).free + if player == Player::Neutral {
                1int
            } else {
                0
            },
            final(self).xs == old(self).xs + if player == Player::X {
                1int
            } else {
                0
            },
            final(self).os == old(self).os + if player == Player::O {
                1int
            } else {
                0
            },
    {
        match player {
            Player::Neutral => {
                self.free = self.free + 1;
            },
            Player::X => {
                self.xs = self.xs + 1;
            },
            Player::O => {
                self.os = self.os + 1;
            },
        }
    }

    /// One cell fewer, which `player` holds.
    fn leave(&mut self, player: Player)
        requires
            player == Player::Neutral ==> old(self).free > 0,
            player == Player::X ==> old(self).xs > 0,
            player == Player::O ==> old(self).os > 0,
        ensures
            final(self).free == old(self).free - if player == Player::Neutral {
                1int
            } else {
                0
            },
            final(self).xs == old(self).xs - if player == Player::X {
                1int
            } else {
                0
            },
            final(self).os == old(self).os - if player == Player::O {
                1int
            } else {
                0
            },
    {
        match player {
            Player::Neutral => {
                self.free = self.free - 1;
            },
            Player::X => {
                self.xs = self.xs - 1;
            },
            Player::O => {
                self.os = self.os - 1;
            },
        }
    }
}

/// The cell at which the line of index `index` of the sweep starts, and the
/// step it goes by.
pub fn sweep_start(index: usize) -> (line: ((isize, isize), (isize, isize)))
    requires
        index < SWEEPS,
    ensures
        ({
            let (start, step) = line;
            ((start.0 as int, start.1 as int), (step.0 as int, step.1 as int)) == sweep_line(
                index as int,
            )
        }),
{
    if index < 6 {
        ((5 - index as isize, 0), (0, 1))
    } else if index < 13 {
        ((5, index as isize - 6), (-1, 0))
    } else if index < 19 {
        ((5, index as isize - 12), (-1, -1))
    } else if index < 23 {
        ((23 - index as isize, 6), (-1, -1))
    } else if index < 30 {
        ((5, index as isize - 23), (-1, 1))
    } else {
        ((34 - index as isize, 0), (-1, 1))
    }
}

impl Connect4Game {
    /// The owner of the cell at `at`.
    pub open spec fn cell(&self, at: Move) -> Player {
        owner(self.board@, (at.0 as int, at.1 as int))
    }

    /// Whether this is the position with the given side to move and last
    /// stone whose cells, row by row from the top, are `cells`; where these
    /// end, the cells are free.
    pub open spec fn has_cells(
        &self,
        cells: Seq<Player>,
        last_move: Option<Move>,
        current_player: Player,
    ) -> bool {
        &&& self.current_player == current_player
        &&& self.last_move == last_move
        &&& self.board@ == padded(cells, 42)
    }

    /// The side that placed the last stone.
    pub open spec fn last_player(&self) -> Player {
        self.current_player.spec_next()
    }

    /// The number of stones in a row through the last stone, which counts
    /// for one, of which up to three are counted backwards and up to three
    /// forwards.
    pub open spec fn connected(&self, backwards: Step, forwards: Step) -> nat {
        let stone = self.last_move.unwrap();
        let last = (stone.0 as int, stone.1 as int);
        let back = (backwards.0 as int, backwards.1 as int);
        let forth = (forwards.0 as int, forwards.1 as int);
        1 + run_length(self.board@, stepped(last, back), back, self.last_player(), 3)
            + run_length(self.board@, stepped(last, forth), forth, self.last_player(), 3)
    }

    /// Whether four stones in a row go through the last stone in the
    /// direction of the given index.
    pub open spec fn connects_four(&self, index: int) -> bool {
        self.connected(direction(index).0, direction(index).1) >= 4
    }

    /// The position with the given side to move and last stone whose cells,
    /// row by row from the top, are the first 42 of `cells`; where these end,
    /// the cells are free.
    pub fn from_cells(cells: &Vec<Player>, last_move: Option<Move>, current_player: Player) -> (game:
        Self)
        ensures
            game.has_cells(cells@, last_move, current_player),
    {
        let mut board = [Player::Neutral;42];
        proof {
            vstd::array::axiom_spec_array_fill_for_copy_type::<Player, 42>(Player::Neutral);
        }
        let places = grid_cells(HEIGHT, WIDTH);
        let count = if cells.len() < 42 {
            cells.len()
        } else {
            42
        };
        let mut k: usize = 0;
        while k < count
            invariant
                k <= count <= 42,
                count <= cells@.len(),
                places@ == grid(6, 7),
                forall|n: int|
                    0 <= n < 42 ==> (#[trigger] places@[n]).0 * 7 + places@[n].1 == n && places@[n].0
                        < 6 && places@[n].1 < 7,
                forall|n: int| 0 <= n < k ==> board@[n] == cells@[n],
                forall|n: int| k <= n < 42 ==> board@[n] == Player::Neutral,
            decreases count - k,
        {
            let (i, j) = places[k];
            board[i * WIDTH + j] = cells[k];
            k = k + 1;
        }
        assert(board@ =~= padded(cells@, 42));
        Connect4Game { current_player, board, last_move }
    }

    /// Whether `board_str` is well written: each of its first 42 characters
    /// other than white space, or as many as there are, is `X` or `x` for a
    /// stone of the first side, `O`, `o` or `0` for a stone of the second, or
    /// `.` for a free cell.
    pub fn is_well_written(board_str: &str) -> (valid: bool)
        ensures
            valid == cells_of(symbols_of(board_str@), 42) is Some,
    {
        let symbols = strip_whitespace(board_str);
        parse_cells(&symbols, 42).is_some()
    }

    /// The position that `board_str` writes down, with the given last stone
    /// and side to move, if the text is well written, see
    /// [`Connect4Game::is_well_written`].
    pub fn try_from_state(board_str: &str, last_move: Option<Move>, current_player: Player) -> (game:
        Option<Self>)
        ensures
            match game {
                Some(game) => cells_of(symbols_of(board_str@), 42) is Some && game.has_cells(
                    cells_of(symbols_of(board_str@), 42).unwrap(),
                    last_move,
                    current_player,
                ),
                None => cells_of(symbols_of(board_str@), 42) is None,
            },
    {
        if Self::is_well_written(board_str) {
            Some(Self::from_state(board_str, last_move, current_player))
        } else {
            None
        }
    }

    /// The position that `board_str` writes down, with the given last stone
    /// and side to move: the characters of the text other than white space
    /// are the cells row by row from the top; cells that the text does not
    /// reach are free. The text has to be well written, see
    /// [`Connect4Game::is_well_written`]. Nothing asks that such a position
    /// can come about in play, nor that the last stone lies on the board.
    pub fn from_state(board_str: &str, last_move: Option<Move>, current_player: Player) -> (game:
        Self)
        requires
            cells_of(symbols_of(board_str@), 42) is Some,
        ensures
            game.has_cells(
                cells_of(symbols_of(board_str@), 42).unwrap(),
                last_move,
                current_player,
            ),
    {
        let symbols = strip_whitespace(board_str);
        let cells = parse_cells(&symbols, 42).unwrap();
        Self::from_cells(&cells, last_move, current_player)
    }

    /// The owner of the cell in row `i` and column `j`.
    pub fn get(&self, i: usize, j: usize) -> (player: Player)
        requires
            i * WIDTH + j < 42,
        ensures
            player == self.board@[i * WIDTH + j],
    {
        self.board[i * WIDTH + j]
    }

    /// What the cell in row `i` and column `j` counts for: `1` if `X` holds
    /// it, `-1` if `O` holds it, `0` if it is free.
    pub fn _score(&self, i: usize, j: usize) -> (score: i32)
        requires
            i * WIDTH + j < 42,
        ensures
            score == self.board@[i * WIDTH + j].spec_score_multiplier(),
    {
        match self.get(i, j) {
            Player::X => 1,
            Player::O => -1,
            Player::Neutral => 0,
        }
    }

    /// The side that placed the last stone, if four of its stones in a row
    /// go through that stone, backwards by the step `dir_less` and forwards
    /// by the step `dir_more`. The last stone itself is not looked at. The
    /// steps have to be such that a step from a cell of the board can be
    /// reckoned.
    pub fn _search_for_winner(&self, dir_less: Step, dir_more: Step) -> (winner: Option<Player>)
        requires
            self.well_formed(),
            self.last_move is Some,
            dir_less.0 <= i32::MAX - HEIGHT,
            dir_less.1 <= i32::MAX - WIDTH,
            dir_more.0 <= i32::MAX - HEIGHT,
            dir_more.1 <= i32::MAX - WIDTH,
        ensures
            winner == if self.connected(dir_less, dir_more) >= 4 {
                Some(self.last_player())
            } else {
                None
            },
    {
        let last_move = self.last_move.unwrap();
        let last_player = self.current_player.next();
        let ghost cells = self.board@;
        let ghost last = (last_move.0 as int, last_move.1 as int);
        let ghost back = (dir_less.0 as int, dir_less.1 as int);
        let ghost forth = (dir_more.0 as int, dir_more.1 as int);
        let mut a: (i32, i32) = (last_move.0 as i32 + dir_less.0, last_move.1 as i32 + dir_less.1);
        let mut b: (i32, i32) = (last_move.0 as i32 + dir_more.0, last_move.1 as i32 + dir_more.1);
        let mut width: i32 = 1;
        let mut stopped = false;
        while !stopped && width < 5 && a.1 >= 0 && a.1 < WIDTH as i32 && a.0 >= 0 && a.0
            < HEIGHT as i32
            invariant
                1 <= width <= 5,
                dir_less.0 <= i32::MAX - HEIGHT,
                dir_less.1 <= i32::MAX - WIDTH,
                back == (dir_less.0 as int, dir_less.1 as int),
                cells == self.board@,
                last_player == self.last_player(),
                run_length(cells, stepped(last, back), back, last_player, 4) == (width - 1)
                    + if stopped {
                    0
                } else {
                    run_length(cells, (a.0 as int, a.1 as int), back, last_player, (5 - width) as nat)
                },
            decreases
                    if stopped {
                        0int
                    } else {
                        1int
                    },
                    5 - width,
        {
            if self.get(a.0 as usize, a.1 as usize) != last_player {
                stopped = true;
            } else {
                width = width + 1;
                a = (a.0 + dir_less.0, a.1 + dir_less.1);
            }
        }
        let ghost width_back = width;
        let mut stopped = false;
        while !stopped && width < 5 && b.1 >= 0 && b.1 < WIDTH as i32 && b.0 >= 0 && b.0
            < HEIGHT as i32
            invariant
                1 <= width_back <= width <= 5,
                dir_more.0 <= i32::MAX - HEIGHT,
                dir_more.1 <= i32::MAX - WIDTH,
                forth == (dir_more.0 as int, dir_more.1 as int),
                cells == self.board@,
                last_player == self.last_player(),
                run_length(
                    cells,
                    stepped(last, forth),
                    forth,
                    last_player,
                    (5 - width_back) as nat,
                ) == (width - width_back) + if stopped {
                    0
                } else {
                    run_length(cells, (b.0 as int, b.1 as int), forth, last_player, (5 - width) as nat)
                },
            decreases
                    if stopped {
                        0int
                    } else {
                        1int
                    },
                    5 - width,
        {
            if self.get(b.0 as usize, b.1 as usize) != last_player {
                stopped = true;
            } else {
                width = width + 1;
                b = (b.0 + dir_more.0, b.1 + dir_more.1);
            }
        }
        proof {
            lemma_run_length_limit(cells, stepped(last, back), back, last_player, 3, 4);
            if width_back <= 2 {
                lemma_run_length_limit(
                    cells,
                    stepped(last, forth),
                    forth,
                    last_player,
                    3,
                    (5 - width_back) as nat,
                );
            } else {
                lemma_run_length_limit(
                    cells,
                    stepped(last, forth),
                    forth,
                    last_player,
                    (5 - width_back) as nat,
                    3,
                );
            }
        }
        if width >= 4 {
            return Some(last_player);
        }
        None
    }

    /// The owner of the cell in row `i` and column `j`, if there is such a
    /// cell on the board.
    pub fn get_safe(&self, i: isize, j: isize) -> (player: Option<Player>)
        ensures
            player == if on_board((i as int, j as int)) {
                Some(owner(self.board@, (i as int, j as int)))
            } else {
                None
            },
    {
        if i < 0 || i >= HEIGHT as isize || j < 0 || j >= WIDTH as isize {
            return None;
        }
        Some(self.get(i as usize, j as usize))
    }

    /// Sweeps the line of index `index`: slides a window of four cells along
    /// it and notes in `threats_x` and `threats_o` the places where a side
    /// threatens to complete a window. Stops at the first window that one
    /// side holds whole, and returns that side.
    fn sweep(
        &self,
        index: usize,
        threats_x: &mut HashSet<usize>,
        threats_o: &mut HashSet<usize>,
    ) -> (four: Option<Player>)
        requires
            index < SWEEPS,
            old(threats_x)@.finite(),
            old(threats_o)@.finite(),
            old(threats_x)@ == threats(self.board@, Player::X, index as int, 0),
            old(threats_o)@ == threats(self.board@, Player::O, index as int, 0),
            old(threats_x)@.len() <= 8 * index,
            old(threats_o)@.len() <= 8 * index,
        ensures
            match four {
                Some(player) => first_four(self.board@, index as nat, 0) == Some(player),
                None => {
                    &&& first_four(self.board@, index as nat, 0) == first_four(
                        self.board@,
                        (index + 1) as nat,
                        0,
                    )
                    &&& final(threats_x)@.finite()
                    &&& final(threats_o)@.finite()
                    &&& final(threats_x)@ == threats(self.board@, Player::X, index + 1, 0)
                    &&& final(threats_o)@ == threats(self.board@, Player::O, index + 1, 0)
                    &&& final(threats_x)@.len() <= 8 * (index + 1)
                    &&& final(threats_o)@.len() <= 8 * (index + 1)
                },
            },
    {
        broadcast use vstd::std_specs::hash::group_hash_axioms;

        let ghost cells = self.board@;
        let ghost line = index as int;
        let (start, step) = sweep_start(index);
        let mut window = WindowCount::empty();
        let mut at: (isize, isize) = start;
        let mut k: usize = 0;
        let mut last_free: usize = 0;
        let mut in_line = true;
        proof {
            lemma_sweep_cell(line, 0);
            assert(in_view(line, -1));
        }
        while in_line
            invariant
                0 <= line < SWEEPS,
                line == index,
                cells == self.board@,
                (step.0 as int, step.1 as int) == sweep_line(line).1,
                -1 <= step.0 <= 1,
                -1 <= step.1 <= 1,
                k <= 7,
                in_line ==> (at.0 as int, at.1 as int) == sweep_cell(line, k as int),
                in_line ==> -2 <= at.0 <= 5 && -2 <= at.1 <= 8,
                in_line ==> in_view(line, k - 1),
                in_line ==> window.counts(cells, line, k - 1),
                in_line && window.free >= 1 ==> last_free == window_gap(cells, line, k - 1),
                in_line ==> first_four(cells, index as nat, 0) == first_four(
                    cells,
                    index as nat,
                    k as nat,
                ),
                !in_line ==> first_four(cells, index as nat, 0) == first_four(
                    cells,
                    (index + 1) as nat,
                    0,
                ),
                threats_x@.finite(),
                threats_o@.finite(),
                in_line ==> threats_x@ == threats(cells, Player::X, line, k as int),
                in_line ==> threats_o@ == threats(cells, Player::O, line, k as int),
                !in_line ==> threats_x@ == threats(cells, Player::X, line + 1, 0),
                !in_line ==> threats_o@ == threats(cells, Player::O, line + 1, 0),
                threats_x@.len() <= 8 * index + k,
                threats_o@.len() <= 8 * index + k,
            decreases
                    if in_line {
                        1int
                    } else {
                        0int
                    },
                    8 - k,
        {
            match self.get_safe(at.0, at.1) {
                None => {
                    proof {
                        lemma_threats_line_end(cells, Player::X, line, k as int);
                        lemma_threats_line_end(cells, Player::O, line, k as int);
                    }
                    in_line = false;
                },
                Some(player) => {
                    proof {
                        lemma_sweep_cell(line, k as int);
                        lemma_window_slides(cells, line, k as int);
                        lemma_threats_step(cells, Player::X, line, k as int);
                        lemma_threats_step(cells, Player::O, line, k as int);
                    }
                    window.enter(player);
                    if player == Player::Neutral {
                        last_free = at.0 as usize * WIDTH + at.1 as usize;
                    }
                    if k >= 4 {
                        let left = self.get(
                            (at.0 - 4 * step.0) as usize,
                            (at.1 - 4 * step.1) as usize,
                        );
                        window.leave(left);
                    }
                    if window.xs == 3 && window.free == 1 {
                        threats_x.insert(last_free);
                    } else if window.xs == 4 {
                        return Some(Player::X);
                    }
                    if window.os == 3 && window.free == 1 {
                        threats_o.insert(last_free);
                    } else if window.os == 4 {
                        return Some(Player::O);
                    }
                    at = (at.0 + step.0, at.1 + step.1);
                    k = k + 1;
                },
            }
        }
        None
    }

    /// A position is final exactly if a side holds four in a row: in a row,
    /// a column or a diagonal. Its score is then the decisive one with the
    /// sign of a side that holds four in a row.
    pub proof fn lemma_final_means_four(&self)
        ensures
            self.spec_evaluate_score().is_terminal <==> holds_four(self.board@, Player::X)
                || holds_four(self.board@, Player::O),
            self.spec_evaluate_score().is_terminal ==> self.spec_evaluate_score().score
                == DECISIVE_SCORE || self.spec_evaluate_score().score == -DECISIVE_SCORE,
            self.spec_evaluate_score().is_terminal && self.spec_evaluate_score().score
                == DECISIVE_SCORE ==> holds_four(self.board@, Player::X),
            self.spec_evaluate_score().is_terminal && self.spec_evaluate_score().score
                == -DECISIVE_SCORE ==> holds_four(self.board@, Player::O),
    {
        lemma_four_holder(self.board@);
        lemma_first_four_holds(self.board@, 0, 0);
    }

    /// Every move that can be played is a free cell of the board.
    pub proof fn lemma_moves_are_free_cells(&self, next_move: Move)
        requires
            self.spec_possible_moves().contains(next_move),
        ensures
            next_move.0 < HEIGHT,
            next_move.1 < WIDTH,
            self.cell(next_move) == Player::Neutral,
    {
        lemma_moves_in_are_free_cells(self.board@, 7, next_move);
    }
}

/// The row that [`free_row`] gives lies above `below` and is free.
pub proof fn lemma_free_row(cells: Seq<Player>, column: int, below: int)
    ensures
        free_row(cells, column, below) matches Some(row) ==> 0 <= row < below && owner(
            cells,
            (row, column),
        ) == Player::Neutral,
    decreases below,
{
    if below > 0 && owner(cells, (below - 1, column)) != Player::Neutral {
        lemma_free_row(cells, column, below - 1);
    }
}

/// Every move that [`moves_in`] gives is a free cell of the board in one of
/// the columns that were asked for.
pub proof fn lemma_moves_in_are_free_cells(cells: Seq<Player>, columns: nat, next_move: Move)
    requires
        columns <= WIDTH,
        moves_in(cells, columns).contains(next_move),
    ensures
        next_move.0 < HEIGHT,
        next_move.1 < columns,
        owner(cells, (next_move.0 as int, next_move.1 as int)) == Player::Neutral,
    decreases columns,
{
    if columns > 0 {
        let before = moves_in(cells, (columns - 1) as nat);
        lemma_free_row(cells, columns - 1, HEIGHT as int);
        match free_row(cells, columns - 1, HEIGHT as int) {
            Some(row) => {
                let found = (row as usize, (columns - 1) as usize);
                if next_move != found {
                    let at = choose|at: int|
                        0 <= at < before.push(found).len() && before.push(found)[at] == next_move;
                    assert(before[at] == next_move);
                    lemma_moves_in_are_free_cells(cells, (columns - 1) as nat, next_move);
                }
            },
            None => {
                lemma_moves_in_are_free_cells(cells, (columns - 1) as nat, next_move);
            },
        }
    }
}

impl Default for Connect4Game {
    /// The empty board, with `X` to move and no last stone.
    fn default() -> (game: Self)
        ensures
            game.has_cells(Seq::empty(), None, Player::X),
    {
        let board = [Player::Neutral;42];
        proof {
            vstd::array::axiom_spec_array_fill_for_copy_type::<Player, 42>(Player::Neutral);
        }
        assert(board@ =~= padded(Seq::empty(), 42));
        Connect4Game { current_player: Player::X, board, last_move: None }
    }
}

impl MinimaxDriver for Connect4Game {
    /// The last stone, if it is known, lies on the board.
    open spec fn well_formed(&self) -> bool {
        self.last_move matches Some(last) ==> last.0 < HEIGHT && last.1 < WIDTH
    }

    /// The side that placed the last stone, if four of its stones in a row
    /// go through that stone.
    open spec fn spec_winner(&self) -> Player {
        if self.last_move is Some && (self.connects_four(0) || self.connects_four(1)
            || self.connects_four(2) || self.connects_four(3)) {
            self.last_player()
        } else {
            Player::Neutral
        }
    }

    /// A position in which a side holds four in a row, in a row, a column
    /// or a diagonal, has the decisive score with the sign of that side and
    /// is final. Any other position has the score of its threats and is not.
    open spec fn spec_evaluate_score(&self) -> EvaluationScore {
        match four_holder(self.board@) {
            Some(Player::X) => EvaluationScore { score: DECISIVE_SCORE, is_terminal: true },
            Some(_) => EvaluationScore { score: (-DECISIVE_SCORE) as i32, is_terminal: true },
            None => EvaluationScore {
                score: heuristic_score(self.board@) as i32,
                is_terminal: false,
            },
        }
    }

    open spec fn spec_possible_moves(&self) -> Seq<Move> {
        moves_in(self.board@, WIDTH as nat)
    }

    open spec fn spec_apply_move(&self, next_move: Move) -> Self {
        Connect4Game {
            current_player: self.current_player.spec_next(),
            board: vstd::array::spec_array_update(
                self.board,
                next_move.0 * WIDTH + next_move.1,
                self.current_player,
            ),
            last_move: Some(next_move),
        }
    }

    open spec fn spec_hash(&self) -> GameHash {
        fingerprint_of(self.board@, self.current_player) as GameHash
    }

    open spec fn spec_current_player(&self) -> Player {
        self.current_player
    }

    /// The position as text: the board row by row from the top, then the
    /// side to move, then the last stone.
    open spec fn spec_text(&self) -> Seq<char> {
        board_text(self.board@, 7, 42) + "nx: "@ + player_name(self.current_player) + "\nls: "@
            + option_move_text(self.last_move)
    }


    proof fn lemma_move_keeps_well_formed(&self, next_move: Move) {
        self.lemma_moves_are_free_cells(next_move);
    }

    proof fn lemma_fingerprint_decides(&self, other: &Self) {
        crate::board::lemma_cells_code_bound(self.board@);
        crate::board::lemma_cells_code_bound(other.board@);
        crate::board::lemma_power_of_four_bound(42);
        lemma_fingerprint_injective(
            self.board@,
            self.current_player,
            other.board@,
            other.current_player,
        );
        assert(self.board =~= other.board);
        assert forall|next_move: Move| #[trigger]
            self.spec_possible_moves().contains(next_move) implies self.spec_apply_move(
            next_move,
        ).spec_hash() == other.spec_apply_move(next_move).spec_hash() by {
            self.lemma_moves_are_free_cells(next_move);
        }
    }

    fn is_well_formed(&self) -> (valid: bool) {
        match self.last_move {
            Some(last) => last.0 < HEIGHT && last.1 < WIDTH,
            None => true,
        }
    }

    fn get_winner(&self) -> (winner: Player) {
        if let Some(_) = self.last_move {
            let pairs = directions();
            let mut index: usize = 0;
            while index < 4
                invariant
                    index <= 4,
                    self.well_formed(),
                    self.last_move is Some,
                    forall|n: int| 0 <= n < 4 ==> #[trigger] pairs@[n] == direction(n),
                    forall|n: int| 0 <= n < index ==> !self.connects_four(n),
                decreases 4 - index,
            {
                let dir = pairs[index];
                assert(dir == direction(index as int));
                if let Some(winner) = self._search_for_winner(dir.0, dir.1) {
                    return winner;
                }
                index = index + 1;
            }
        }
        Player::Neutral
    }

    /// The position is final exactly if a side holds four in a row, and the
    /// score is then the decisive one with the sign of that side.
    fn evaluate_score(&self) -> (evaluation: EvaluationScore)
        ensures
            evaluation.is_terminal <==> holds_four(self.board@, Player::X) || holds_four(
                self.board@,
                Player::O,
            ),
            evaluation.is_terminal ==> evaluation.score == DECISIVE_SCORE || evaluation.score
                == -DECISIVE_SCORE,
            evaluation.is_terminal && evaluation.score == DECISIVE_SCORE ==> holds_four(
                self.board@,
                Player::X,
            ),
            evaluation.is_terminal && evaluation.score == -DECISIVE_SCORE ==> holds_four(
                self.board@,
                Player::O,
            ),
    {
        proof {
            self.lemma_final_means_four();
        }
        let ghost cells = self.board@;
        let mut score: i32 = 0;
        let mut threats_x: HashSet<usize> = HashSet::new();
        let mut threats_o: HashSet<usize> = HashSet::new();
        let mut index: usize = 0;
        proof {
            lemma_threats_start(cells, Player::X);
            lemma_threats_start(cells, Player::O);
            lemma_four_holder(cells);
        }
        while index < SWEEPS
            invariant
                index <= SWEEPS,
                cells == self.board@,
                four_holder(cells) == first_four(cells, 0, 0),
                first_four(cells, 0, 0) == first_four(cells, index as nat, 0),
                threats_x@.finite(),
                threats_o@.finite(),
                threats_x@ == threats(cells, Player::X, index as int, 0),
                threats_o@ == threats(cells, Player::O, index as int, 0),
                threats_x@.len() <= 8 * index,
                threats_o@.len() <= 8 * index,
                score == heuristic_so_far(cells, index as int),
                -6080 <= score <= 6080,
                index < 6 ==> score == 0,
                index < 13 ==> -480 <= score <= 480,
                index < 23 ==> -1520 <= score <= 1520,
                index < 34 ==> -3360 <= score <= 3360,
            decreases SWEEPS - index,
        {
            match self.sweep(index, &mut threats_x, &mut threats_o) {
                Some(Player::X) => {
                    return EvaluationScore { score: DECISIVE_SCORE, is_terminal: true };
                },
                Some(_) => {
                    return EvaluationScore { score: -DECISIVE_SCORE, is_terminal: true };
                },
                None => {},
            }
            index = index + 1;
            if index == 6 || index == 13 || index == 23 || index == 34 {
                broadcast use vstd::std_specs::hash::group_hash_axioms;

                let found_x: i32 = threats_x.len() as i32;
                let found_o: i32 = threats_o.len() as i32;
                score = score + found_x * 10;
                score = score - found_o * 10;
            }
        }
        EvaluationScore { score, is_terminal: false }
    }

    /// For each column that has a free cell, from the left, its lowest free
    /// cell.
    fn get_possible_moves(&self) -> (moves: Vec<Move>) {
        let mut moves: Vec<Move> = Vec::new();
        let mut j: usize = 0;
        while j < WIDTH
            invariant
                j <= WIDTH,
                moves@ == moves_in(self.board@, j as nat),
            decreases WIDTH - j,
        {
            let mut i: usize = HEIGHT;
            let mut found = false;
            while i > 0 && !found
                invariant
                    i <= HEIGHT,
                    j < WIDTH,
                    free_row(self.board@, j as int, HEIGHT as int) == if found {
                        Some(i as int)
                    } else {
                        free_row(self.board@, j as int, i as int)
                    },
                decreases
                        if found {
                            0int
                        } else {
                            1int
                        },
                        i,
            {
                i = i - 1;
                if self.get(i, j) == Player::Neutral {
                    found = true;
                }
            }
            if found {
                moves.push((i, j));
            }
            j = j + 1;
        }
        moves
    }

    /// The position in which the side to move holds the cell `next_move`,
    /// which is the last stone, and the other side is to move. Nothing is
    /// checked: the move is one of those that can be played.
    fn apply_move(&self, next_move: Move) -> (next: Self) {
        proof {
            self.lemma_moves_are_free_cells(next_move);
        }
        let mut board = self.board;
        board[next_move.0 * WIDTH + next_move.1] = self.current_player;
        let next = Connect4Game {
            current_player: self.current_player.next(),
            board,
            last_move: Some(next_move),
        };
        assert(next.board =~= self.spec_apply_move(next_move).board);
        next
    }

    /// To the base four, the lowest digit is the side to move and the 42
    /// digits above it are the cells, row by row from the top: `0` for
    /// nobody, `1` for `X`, `2` for `O`.
    fn get_hash(&self) -> (fingerprint: GameHash) {
        board_hash(self.board.as_slice(), self.current_player)
    }

    fn get_current_player(&self) -> (player: Player) {
        self.current_player
    }

    /// The position as text: the board row by row from the top, then the
    /// side to move, then the last stone.
    fn describe(&self) -> (text: String) {
        let mut text = String::new();
        push_board(&mut text, self.board.as_slice(), WIDTH);
        push_word(&mut text, "nx: ");
        push_player_name(&mut text, self.current_player);
        push_word(&mut text, "\nls: ");
        push_option_move(&mut text, self.last_move);
        assert(text@ =~= self.spec_text());
        text
    }

    fn has_ended(&self) -> (ended: bool) {
        self.get_winner() != Player::Neutral || self.get_possible_moves().len() == 0
    }
}

} // verus!
