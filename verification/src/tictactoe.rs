//! Tic-tac-toe: three in a row on a board of three by three cells.

use vstd::prelude::*;

use crate::board::{
    board_hash, cells_of, fingerprint_of, grid, grid_cells, lemma_fingerprint_injective,
    lemma_grid_cells, padded, parse_cells, strip_whitespace, symbols_of,
};
use crate::game::{Move, Player};
use crate::minimax::{EvaluationScore, GameHash, MinimaxDriver, DECISIVE_SCORE};
use crate::search::{only_wins_are_decisive, wins_are_decisive};
use crate::text::{board_text, player_name, push_board, push_player_name, push_word};

verus! {

/// Three cells in a row.
pub type Line = (Move, Move, Move);

/// A position of tic-tac-toe: the side to move and the nine cells, row by
/// row.
#[derive(Clone, Copy, Debug)]
pub struct TicTacToeGame {
    pub current_player: Player,
    pub board: [Player; 9],
}

/// The line of index `k` among the eight lines that win: the three columns,
/// the three rows, and the two diagonals.
pub open spec fn win_line(k: int) -> Line {
    if k < 3 {
        ((0, k as usize), (1, k as usize), (2, k as usize))
    } else if k < 6 {
        (((k - 3) as usize, 0), ((k - 3) as usize, 1), ((k - 3) as usize, 2))
    } else if k == 6 {
        ((0, 0), (1, 1), (2, 2))
    } else {
        ((0, 2), (1, 1), (2, 0))
    }
}

/// The eight lines that win, in the order in which they are looked at.
pub open spec fn win_lines() -> Seq<Line> {
    Seq::new(8, |k: int| win_line(k))
}

/// The eight lines that win, in the order in which they are looked at.
pub fn win_positions_to_check() -> (lines: Vec<Line>)
    ensures
        lines@ == win_lines(),
{
    let mut lines: Vec<Line> = Vec::new();
    let mut j: usize = 0;
    while j < 3
        invariant
            j <= 3,
            lines@.len() == j,
            forall|k: int| 0 <= k < j ==> lines@[k] == win_line(k),
        decreases 3 - j,
    {
        lines.push(((0, j), (1, j), (2, j)));
        j = j + 1;
    }
    let mut i: usize = 0;
    while i < 3
        invariant
            i <= 3,
            lines@.len() == 3 + i,
            forall|k: int| 0 <= k < 3 + i ==> lines@[k] == win_line(k),
        decreases 3 - i,
    {
        lines.push(((i, 0), (i, 1), (i, 2)));
        i = i + 1;
    }
    lines.push(((0, 0), (1, 1), (2, 2)));
    lines.push(((0, 2), (1, 1), (2, 0)));
    assert(lines@ =~= win_lines());
    lines
}

impl TicTacToeGame {
    /// The owner of the cell at `at`.
    pub open spec fn cell(&self, at: Move) -> Player {
        self.board@[at.0 * 3 + at.1]
    }

    /// The owner of a line: the side that holds all three of its cells.
    pub open spec fn line_owner(&self, line: Line) -> Player {
        if self.cell(line.0) == Player::X && self.cell(line.1) == Player::X && self.cell(line.2)
            == Player::X {
            Player::X
        } else if self.cell(line.0) == Player::O && self.cell(line.1) == Player::O && self.cell(
            line.2,
        ) == Player::O {
            Player::O
        } else {
            Player::Neutral
        }
    }

    /// The owner of the first line that has one, from the line of index
    /// `from` on.
    pub open spec fn winner_from(&self, from: nat) -> Player
        decreases 8 - from,
    {
        if from >= 8 {
            Player::Neutral
        } else if self.line_owner(win_line(from as int)) != Player::Neutral {
            self.line_owner(win_line(from as int))
        } else {
            self.winner_from(from + 1)
        }
    }

    /// Whether no cell of the board is free.
    pub open spec fn is_full(&self) -> bool {
        forall|k: int| 0 <= k < 9 ==> #[trigger] self.board@[k] != Player::Neutral
    }

    /// Whether no cell of the board is free.
    pub fn has_no_free_cell(&self) -> (full: bool)
        ensures
            full == self.is_full(),
    {
        let mut k: usize = 0;
        while k < 9
            invariant
                k <= 9,
                forall|n: int| 0 <= n < k ==> #[trigger] self.board@[n] != Player::Neutral,
            decreases 9 - k,
        {
            if self.board[k] == Player::Neutral {
                return false;
            }
            k = k + 1;
        }
        true
    }

    /// Tells the free cells from the taken ones.
    pub open spec fn is_free(&self) -> spec_fn(Move) -> bool {
        |at: Move| self.cell(at) == Player::Neutral
    }

    /// Whether this is the position with the given side to move whose
    /// cells, row by row, are `cells`; where these end, the cells are free.
    pub open spec fn has_cells(&self, cells: Seq<Player>, current_player: Player) -> bool {
        self.current_player == current_player && self.board@ == padded(cells, 9)
    }

    /// The position with the given side to move whose cells, row by row,
    /// are the first nine of `cells`; where these end, the cells are free.
    pub fn from_cells(cells: &Vec<Player>, current_player: Player) -> (game: Self)
        ensures
            game.has_cells(cells@, current_player),
    {
        let mut board = [Player::Neutral;9];
        proof {
            vstd::array::axiom_spec_array_fill_for_copy_type::<Player, 9>(Player::Neutral);
        }
        let places = grid_cells(3, 3);
        let count = if cells.len() < 9 {
            cells.len()
        } else {
            9
        };
        let mut k: usize = 0;
        while k < count
            invariant
                k <= count <= 9,
                count <= cells@.len(),
                places@ == grid(3, 3),
                forall|n: int|
                    0 <= n < 9 ==> (#[trigger] places@[n]).0 * 3 + places@[n].1 == n && places@[n].0
                        < 3 && places@[n].1 < 3,
                forall|n: int| 0 <= n < k ==> board@[n] == cells@[n],
                forall|n: int| k <= n < 9 ==> board@[n] == Player::Neutral,
            decreases count - k,
        {
            let (i, j) = places[k];
            board[i * 3 + j] = cells[k];
            k = k + 1;
        }
        assert(board@ =~= padded(cells@, 9));
        TicTacToeGame { current_player, board }
    }

    /// Whether `board_str` is well written: each of its first nine
    /// characters other than white space, or as many as there are, is `X` or
    /// `x` for a cell of the first side, `O`, `o` or `0` for a cell of the
    /// second, or `.` for a free cell.
    pub fn is_well_written(board_str: &str) -> (valid: bool)
        ensures
            valid == cells_of(symbols_of(board_str@), 9) is Some,
    {
        let symbols = strip_whitespace(board_str);
        parse_cells(&symbols, 9).is_some()
    }

    /// The position that `board_str` writes down, with the given side to
    /// move, if the text is well written, see
    /// [`TicTacToeGame::is_well_written`].
    pub fn try_from_state(board_str: &str, current_player: Player) -> (game: Option<Self>)
        ensures
            match game {
                Some(game) => cells_of(symbols_of(board_str@), 9) is Some && game.has_cells(
                    cells_of(symbols_of(board_str@), 9).unwrap(),
                    current_player,
                ),
                None => cells_of(symbols_of(board_str@), 9) is None,
            },
    {
        if Self::is_well_written(board_str) {
            Some(Self::from_state(board_str, current_player))
        } else {
            None
        }
    }

    /// The position that `board_str` writes down, with the given side to
    /// move: the characters of the text other than white space are the cells
    /// row by row; cells that the text does not reach are free. The text has
    /// to be well written, see [`TicTacToeGame::is_well_written`]. Nothing
    /// asks that such a position can come about in play.
    pub fn from_state(board_str: &str, current_player: Player) -> (game: Self)
        requires
            cells_of(symbols_of(board_str@), 9) is Some,
        ensures
            game.has_cells(cells_of(symbols_of(board_str@), 9).unwrap(), current_player),
    {
        let symbols = strip_whitespace(board_str);
        let cells = parse_cells(&symbols, 9).unwrap();
        Self::from_cells(&cells, current_player)
    }

    /// What the cell in row `i` and column `j` counts for: `1` if `X` holds
    /// it, `-1` if `O` holds it, `0` if it is free.
    pub fn _score(&self, i: usize, j: usize) -> (score: i32)
        requires
            i * 3 + j < 9,
        ensures
            score == self.cell((i, j)).spec_score_multiplier(),
    {
        match self.board[i * 3 + j] {
            Player::X => 1,
            Player::O => -1,
            Player::Neutral => 0,
        }
    }

    /// Every move that can be played is a free cell of the board.
    pub proof fn lemma_moves_are_free_cells(&self, next_move: Move)
        requires
            self.spec_possible_moves().contains(next_move),
        ensures
            next_move.0 < 3,
            next_move.1 < 3,
            self.cell(next_move) == Player::Neutral,
    {
        let cells = grid(3, 3);
        lemma_grid_cells(3, 3);
        cells.lemma_filter_contains_rev(self.is_free(), next_move);
        let k = choose|k: int| 0 <= k < cells.len() && cells[k] == next_move;
        assert(cells[k].0 < 3 && cells[k].1 < 3);
        let found = cells.filter(self.is_free());
        let n = choose|n: int| 0 <= n < found.len() && found[n] == next_move;
        cells.lemma_filter_pred(self.is_free(), n);
    }
}

/// In tic-tac-toe no score lies beyond that of a win, and only a won game
/// has it: the search cannot miss a win on the spot, see
/// [`crate::search::lemma_win_on_the_spot_is_taken`].
pub proof fn lemma_wins_are_decisive()
    ensures
        wins_are_decisive::<TicTacToeGame>(DECISIVE_SCORE as int),
        only_wins_are_decisive::<TicTacToeGame>(DECISIVE_SCORE as int),
{
}

impl Default for TicTacToeGame {
    /// The empty board, with `X` to move.
    fn default() -> (game: Self)
        ensures
            game.has_cells(Seq::empty(), Player::X),
    {
        let board = [Player::Neutral;9];
        proof {
            vstd::array::axiom_spec_array_fill_for_copy_type::<Player, 9>(Player::Neutral);
        }
        assert(board@ =~= padded(Seq::empty(), 9));
        TicTacToeGame { current_player: Player::X, board }
    }
}

impl MinimaxDriver for TicTacToeGame {
    open spec fn well_formed(&self) -> bool {
        true
    }

    open spec fn spec_winner(&self) -> Player {
        self.winner_from(0)
    }

    /// A won game has the decisive score, with its sign, and is final. A
    /// full board that nobody has won is a draw: it has the score zero and is
    /// final. Any other position has the score zero and is not final.
    open spec fn spec_evaluate_score(&self) -> EvaluationScore {
        match self.spec_winner() {
            Player::Neutral => EvaluationScore { score: 0, is_terminal: self.is_full() },
            Player::X => EvaluationScore { score: DECISIVE_SCORE, is_terminal: true },
            Player::O => EvaluationScore { score: (-DECISIVE_SCORE) as i32, is_terminal: true },
        }
    }

    open spec fn spec_possible_moves(&self) -> Seq<Move> {
        grid(3, 3).filter(self.is_free())
    }

    open spec fn spec_apply_move(&self, next_move: Move) -> Self {
        TicTacToeGame {
            current_player: self.current_player.spec_next(),
            board: vstd::array::spec_array_update(
                self.board,
                next_move.0 * 3 + next_move.1,
                self.current_player,
            ),
        }
    }

    open spec fn spec_hash(&self) -> GameHash {
        fingerprint_of(self.board@, self.current_player) as GameHash
    }

    open spec fn spec_current_player(&self) -> Player {
        self.current_player
    }

    /// The position as text: the board row by row, then the side to move.
    open spec fn spec_text(&self) -> Seq<char> {
        board_text(self.board@, 3, 9) + "next: "@ + player_name(self.current_player)
    }


    proof fn lemma_move_keeps_well_formed(&self, next_move: Move) {
    }

    proof fn lemma_fingerprint_decides(&self, other: &Self) {
        crate::board::lemma_cells_code_bound(self.board@);
        crate::board::lemma_cells_code_bound(other.board@);
        crate::board::lemma_power_of_four_bound(9);
        lemma_fingerprint_injective(
            self.board@,
            self.current_player,
            other.board@,
            other.current_player,
        );
        assert(self.board =~= other.board);
        assert(*self == *other);
    }

    fn is_well_formed(&self) -> (valid: bool) {
        true
    }

    /// The side that holds the first of the eight lines that one side holds
    /// whole, `Player::Neutral` if there is no such line.
    fn get_winner(&self) -> (winner: Player) {
        let lines = win_positions_to_check();
        let mut k: usize = 0;
        while k < 8
            invariant
                k <= 8,
                lines@ == win_lines(),
                self.spec_winner() == self.winner_from(k as nat),
            decreases 8 - k,
        {
            let (a, b, c) = lines[k];
            assert(lines@[k as int] == win_line(k as int));
            let score: i32 = self._score(a.0, a.1) + self._score(b.0, b.1) + self._score(c.0, c.1);
            if score == 3 {
                return Player::X;
            } else if score == -3 {
                return Player::O;
            }
            k = k + 1;
        }
        Player::Neutral
    }

    /// A won game has the decisive score, with its sign, and is final. A
    /// full board that nobody has won is a draw: it has the score zero and is
    /// final. Any other position has the score zero and is not final.
    fn evaluate_score(&self) -> (evaluation: EvaluationScore) {
        match self.get_winner() {
            Player::Neutral => EvaluationScore { score: 0, is_terminal: self.has_no_free_cell() },
            Player::X => EvaluationScore { score: DECISIVE_SCORE, is_terminal: true },
            Player::O => EvaluationScore { score: -DECISIVE_SCORE, is_terminal: true },
        }
    }

    /// The free cells, row by row.
    fn get_possible_moves(&self) -> (moves: Vec<Move>) {
        let cells = grid_cells(3, 3);
        let mut moves: Vec<Move> = Vec::new();
        let mut k: usize = 0;
        proof {
            reveal(Seq::filter);
            assert(cells@.take(0) =~= Seq::<Move>::empty());
        }
        while k < 9
            invariant
                k <= 9,
                cells@ == grid(3, 3),
                cells@.len() == 9,
                forall|n: int|
                    0 <= n < 9 ==> (#[trigger] cells@[n]).0 * 3 + cells@[n].1 == n && cells@[n].0
                        < 3 && cells@[n].1 < 3,
                moves@ == cells@.take(k as int).filter(self.is_free()),
            decreases 9 - k,
        {
            let (i, j) = cells[k];
            proof {
                reveal(Seq::filter);
                assert(cells@.take(k + 1).drop_last() =~= cells@.take(k as int));
                assert(cells@.take(k + 1).last() == (i, j));
            }
            if self.board[i * 3 + j] == Player::Neutral {
                moves.push((i, j));
            }
            k = k + 1;
        }
        assert(cells@.take(9) =~= cells@);
        moves
    }

    /// The position in which the side to move holds the cell `next_move` and
    /// the other side is to move.
    fn apply_move(&self, next_move: Move) -> (next: Self) {
        proof {
            self.lemma_moves_are_free_cells(next_move);
        }
        let mut board = self.board;
        board[next_move.0 * 3 + next_move.1] = self.current_player;
        let next = TicTacToeGame { current_player: self.current_player.next(), board };
        assert(next.board =~= self.spec_apply_move(next_move).board);
        next
    }

    /// To the base four, the lowest digit is the side to move and the nine
    /// digits above it are the cells, row by row: `0` for nobody, `1` for
    /// `X`, `2` for `O`.
    fn get_hash(&self) -> (fingerprint: GameHash) {
        board_hash(self.board.as_slice(), self.current_player)
    }

    fn get_current_player(&self) -> (player: Player) {
        self.current_player
    }

    /// The position as text: the board row by row, then the side to move.
    fn describe(&self) -> (text: String) {
        let mut text = String::new();
        push_board(&mut text, self.board.as_slice(), 3);
        push_word(&mut text, "next: ");
        push_player_name(&mut text, self.current_player);
        assert(text@ =~= self.spec_text());
        text
    }

    fn has_ended(&self) -> (ended: bool) {
        self.get_winner() != Player::Neutral || self.get_possible_moves().len() == 0
    }
}

} // verus!
