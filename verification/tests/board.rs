use minimax::board::{board_hash, grid_cells, parse_cells, strip_whitespace};
use minimax::connect4::{directions, sweep_start, Connect4Game};
use minimax::game::Player;
use minimax::minimax::MinimaxDriver;
use minimax::text::{push_board, push_decimal, push_move, push_option_move, push_signed};
use minimax::tictactoe::{win_positions_to_check, TicTacToeGame};

#[test]
fn test_player_next() {
    assert_eq!(Player::X.next(), Player::O);
    assert_eq!(Player::O.next(), Player::X);
    assert_eq!(Player::Neutral.next(), Player::Neutral);
}

#[test]
fn test_player_score_multiplier() {
    assert_eq!(Player::X.score_multiplier(), 1);
    assert_eq!(Player::O.score_multiplier(), -1);
    assert_eq!(Player::Neutral.score_multiplier(), 0);
}

#[test]
fn test_player_symbols() {
    assert_eq!(Player::from_char('X'), Some(Player::X));
    assert_eq!(Player::from_char('x'), Some(Player::X));
    assert_eq!(Player::from_char('O'), Some(Player::O));
    assert_eq!(Player::from_char('o'), Some(Player::O));
    assert_eq!(Player::from_char('0'), Some(Player::O));
    assert_eq!(Player::from_char('.'), Some(Player::Neutral));
    assert_eq!(Player::from_char('?'), None);
    assert_eq!(Player::from_char(' '), None);
    assert_eq!(Player::X.symbol(), 'X');
    assert_eq!(Player::O.symbol(), 'O');
    assert_eq!(Player::Neutral.symbol(), '.');
}

#[test]
fn test_player_from_symbol() {
    assert_eq!(Player::from('X'), Player::X);
    assert_eq!(Player::from('x'), Player::X);
    assert_eq!(Player::from('O'), Player::O);
    assert_eq!(Player::from('o'), Player::O);
    assert_eq!(Player::from('0'), Player::O);
    assert_eq!(Player::from('.'), Player::Neutral);
    for player in [Player::X, Player::O, Player::Neutral] {
        assert_eq!(Player::from(player.symbol()), player);
        assert_eq!(Player::from_char(player.symbol()), Some(player));
    }
}

#[test]
fn test_large_grid() {
    let cells = grid_cells(300, 7);
    assert_eq!(cells.len(), 2100);
    assert_eq!(cells[0], (0, 0));
    assert_eq!(cells[6], (0, 6));
    assert_eq!(cells[7], (1, 0));
    assert_eq!(cells[2099], (299, 6));
}

#[test]
fn test_white_space() {
    let white = "\u{9}\u{a}\u{b}\u{c}\u{d} \u{85}\u{a0}\u{1680}\u{2000}\u{2005}\u{200a}\u{2028}\u{2029}\u{202f}\u{205f}\u{3000}";
    assert!(strip_whitespace(white).is_empty());
    let black = "\u{8}\u{e}\u{1f}!\u{84}\u{86}\u{a1}\u{180e}\u{1fff}\u{200b}\u{2027}\u{202a}\u{2060}\u{3001}\u{feff}";
    assert_eq!(strip_whitespace(black), black.chars().collect::<Vec<char>>());
}

#[test]
fn test_grid_cells() {
    assert_eq!(grid_cells(2, 3), vec![(0, 0), (0, 1), (0, 2), (1, 0), (1, 1), (1, 2)]);
    assert_eq!(grid_cells(3, 1), vec![(0, 0), (1, 0), (2, 0)]);
    assert!(grid_cells(0, 5).is_empty());
    assert!(grid_cells(5, 0).is_empty());
    assert_eq!(grid_cells(64, 64).len(), 4096);
}

#[test]
fn test_strip_whitespace() {
    assert_eq!(strip_whitespace(" X \n\t.O\u{a0}x "), vec!['X', '.', 'O', 'x']);
    assert!(strip_whitespace(" \n ").is_empty());
    assert!(strip_whitespace("").is_empty());
}

#[test]
fn test_parse_cells() {
    let symbols = vec!['X', 'o', '.', '0'];
    assert_eq!(
        parse_cells(&symbols, 9),
        Some(vec![Player::X, Player::O, Player::Neutral, Player::O])
    );
    assert_eq!(parse_cells(&symbols, 2), Some(vec![Player::X, Player::O]));
    assert_eq!(parse_cells(&symbols, 0), Some(vec![]));
    let symbols = vec!['X', '?', '.'];
    assert_eq!(parse_cells(&symbols, 9), None);
    assert_eq!(parse_cells(&symbols, 1), Some(vec![Player::X]));
}

#[test]
fn test_board_hash() {
    assert_eq!(board_hash(&[], Player::Neutral), 0);
    assert_eq!(board_hash(&[], Player::O), 2);
    assert_eq!(board_hash(&[Player::X], Player::X), 5);
    assert_eq!(board_hash(&[Player::Neutral, Player::O], Player::X), 1 + 2 * 16);
    assert_eq!(board_hash(&[Player::O; 62], Player::O), (4u128.pow(63) - 1) / 3 * 2);
}

#[test]
fn test_state_that_is_not_well_written() {
    assert!(TicTacToeGame::try_from_state("X.? ... ...", Player::X).is_none());
    assert!(Connect4Game::try_from_state("......q", None, Player::X).is_none());
    // What lies behind the last cell is not read.
    assert!(TicTacToeGame::try_from_state("X.. ... ...?", Player::X).is_some());
}

#[test]
fn test_well_written() {
    assert!(TicTacToeGame::is_well_written("X.O\n...\n..."));
    assert!(TicTacToeGame::is_well_written(""));
    assert!(TicTacToeGame::is_well_written("xo0 ... ...and more"));
    assert!(!TicTacToeGame::is_well_written("x-o"));
    assert!(Connect4Game::is_well_written("X.O.X.O"));
    assert!(!Connect4Game::is_well_written(".......\n......*"));
}

#[test]
fn test_well_formed_positions() {
    assert!(TicTacToeGame::default().is_well_formed());
    assert!(TicTacToeGame::from_state("XXXXXXXXX", Player::Neutral).is_well_formed());
    assert!(Connect4Game::default().is_well_formed());
    assert!(Connect4Game::from_state("", Some((5, 6)), Player::X).is_well_formed());
    assert!(!Connect4Game::from_state("", Some((6, 0)), Player::X).is_well_formed());
    assert!(!Connect4Game::from_state("", Some((0, 7)), Player::X).is_well_formed());
}

#[test]
fn test_state_from_text() {
    let game = TicTacToeGame::try_from_state("xO0 .", Player::O).unwrap();
    assert_eq!(game.current_player, Player::O);
    assert_eq!(
        game.board,
        [
            Player::X,
            Player::O,
            Player::O,
            Player::Neutral,
            Player::Neutral,
            Player::Neutral,
            Player::Neutral,
            Player::Neutral,
            Player::Neutral
        ]
    );
    let game = Connect4Game::from_state(".......\n......X", Some((1, 6)), Player::O);
    assert_eq!(game.board[13], Player::X);
    assert_eq!(game.board.iter().filter(|cell| **cell == Player::Neutral).count(), 41);
    assert_eq!(game.last_move, Some((1, 6)));
    assert_eq!(game.current_player, Player::O);
}

#[test]
fn test_default_games() {
    let game = TicTacToeGame::default();
    assert_eq!(game.current_player, Player::X);
    assert_eq!(game.board, [Player::Neutral; 9]);
    assert_eq!(game.get_possible_moves().len(), 9);
    let game = Connect4Game::default();
    assert_eq!(game.current_player, Player::X);
    assert_eq!(game.board, [Player::Neutral; 42]);
    assert_eq!(game.last_move, None);
    assert_eq!(
        game.get_possible_moves(),
        vec![(5, 0), (5, 1), (5, 2), (5, 3), (5, 4), (5, 5), (5, 6)]
    );
}

#[test]
fn test_win_lines() {
    let lines = win_positions_to_check();
    assert_eq!(lines.len(), 8);
    assert_eq!(lines[0], ((0, 0), (1, 0), (2, 0)));
    assert_eq!(lines[2], ((0, 2), (1, 2), (2, 2)));
    assert_eq!(lines[3], ((0, 0), (0, 1), (0, 2)));
    assert_eq!(lines[5], ((2, 0), (2, 1), (2, 2)));
    assert_eq!(lines[6], ((0, 0), (1, 1), (2, 2)));
    assert_eq!(lines[7], ((0, 2), (1, 1), (2, 0)));
}

#[test]
fn test_tictactoe_first_line_decides() {
    // Both sides hold a line: the first column is looked at first.
    let game = TicTacToeGame::from_state("OX. OX. OX.", Player::X);
    assert_eq!(game.get_winner(), Player::O);
    assert_eq!(game.evaluate_score().score, -1000);
    assert!(game.evaluate_score().is_terminal);
    assert!(game.has_ended());
}

#[test]
fn test_tictactoe_cell_scores() {
    let game = TicTacToeGame::from_state("XO.", Player::X);
    assert_eq!(game._score(0, 0), 1);
    assert_eq!(game._score(0, 1), -1);
    assert_eq!(game._score(0, 2), 0);
    assert_eq!(game._score(2, 2), 0);
}

#[test]
fn test_tictactoe_apply_move() {
    let game = TicTacToeGame::from_state("X.. ... ...", Player::O);
    let next = game.apply_move((1, 2));
    assert_eq!(next.current_player, Player::X);
    assert_eq!(next.board[5], Player::O);
    assert_eq!(next.board[0], Player::X);
    assert_eq!(next.get_possible_moves().len(), 7);
    assert_eq!(game.board[5], Player::Neutral);
    assert!(!next.has_ended());
    assert_eq!(next.get_current_player(), Player::X);
}

#[test]
fn test_tictactoe_draw_has_ended() {
    let game = TicTacToeGame::from_state("XOX XOO OXX", Player::X);
    assert_eq!(game.get_winner(), Player::Neutral);
    assert!(game.has_ended());
}

#[test]
fn test_tictactoe_as_text() {
    let game = TicTacToeGame::from_state("X.X O.O X.O", Player::X);
    assert_eq!(game.describe(), "X . X \nO . O \nX . O \nnext: X");
    let game = TicTacToeGame::from_state("", Player::Neutral);
    assert_eq!(game.describe(), ". . . \n. . . \n. . . \nnext: None");
}

#[test]
fn test_connect4_as_text() {
    let game = Connect4Game::from_state(
        "
        .......
        .......
        .......
        .......
        ...O...
        ..XX...",
        Some((4, 3)),
        Player::X,
    );
    assert_eq!(
        game.describe(),
        ". . . . . . . \n. . . . . . . \n. . . . . . . \n. . . . . . . \n. . . O . . . \n. . X X . . . \nnx: X\nls: Some((4, 3))"
    );
    assert!(Connect4Game::default().describe().ends_with("nx: X\nls: None"));
}

#[test]
fn test_connect4_hash() {
    assert_eq!(Connect4Game::default().get_hash(), 1);
    let game = Connect4Game::from_state("X", Some((0, 0)), Player::O);
    assert_eq!(game.get_hash(), 6);
    let game = Connect4Game::from_state(".O", None, Player::X);
    assert_eq!(game.get_hash(), 1 + 2 * 16);
    // The last stone is no part of the fingerprint.
    let first = Connect4Game::from_state("......X", Some((0, 6)), Player::O);
    let second = Connect4Game::from_state("......X", None, Player::O);
    assert_eq!(first.get_hash(), second.get_hash());
    assert_eq!(first.get_hash(), 2 + 4u128.pow(7));
}

#[test]
fn test_connect4_apply_move() {
    let game = Connect4Game::default();
    let next = game.apply_move((5, 3));
    assert_eq!(next.board[38], Player::X);
    assert_eq!(next.current_player, Player::O);
    assert_eq!(next.last_move, Some((5, 3)));
    assert_eq!(next.get_possible_moves()[3], (4, 3));
    assert_eq!(next.get(5, 3), Player::X);
    assert_eq!(next._score(5, 3), 1);
    assert_eq!(next.apply_move((4, 3))._score(4, 3), -1);
    assert_eq!(next.get_current_player(), Player::O);
}

#[test]
fn test_connect4_full_column_is_no_move() {
    let game = Connect4Game::from_state(
        "
        X......
        O......
        X......
        O......
        X......
        O......",
        Some((0, 0)),
        Player::O,
    );
    assert_eq!(game.get_possible_moves(), vec![(5, 1), (5, 2), (5, 3), (5, 4), (5, 5), (5, 6)]);
    assert!(!game.has_ended());
}

#[test]
fn test_connect4_winner_needs_the_last_stone() {
    let state = "
        .......
        .......
        .......
        .......
        .......
        .XXXX..";
    assert_eq!(Connect4Game::from_state(state, None, Player::O).get_winner(), Player::Neutral);
    assert_eq!(
        Connect4Game::from_state(state, Some((5, 1)), Player::O).get_winner(),
        Player::X
    );
    // Three in a row through the last stone are not enough.
    let state = "
        .......
        .......
        .......
        .......
        .......
        .XXX.X.";
    assert_eq!(
        Connect4Game::from_state(state, Some((5, 2)), Player::O).get_winner(),
        Player::Neutral
    );
    assert_eq!(
        Connect4Game::from_state(state, Some((5, 2)), Player::O)._search_for_winner((0, -1), (0, 1)),
        None
    );
}

#[test]
fn test_connect4_winner_by_any_step() {
    let state = "
        .......
        .......
        .......
        .......
        .......
        XX.X.XX";
    let game = Connect4Game::from_state(state, Some((5, 3)), Player::O);
    // Every second cell of the bottom row, through the last stone.
    assert_eq!(game._search_for_winner((0, -2), (0, 2)), None);
    let game = Connect4Game::from_state("X.X.X.X", Some((0, 2)), Player::O);
    assert_eq!(game._search_for_winner((0, -2), (0, 2)), Some(Player::X));
    // Steps that leave the board at once.
    assert_eq!(game._search_for_winner((i32::MIN, i32::MIN), (i32::MAX - 6, i32::MAX - 7)), None);
    assert_eq!(game._search_for_winner((0, 7), (0, -7)), None);
    // A step of nothing counts the last stone again and again.
    assert_eq!(game._search_for_winner((0, 0), (0, 1)), Some(Player::X));
}

#[test]
fn test_connect4_directions() {
    let pairs = directions();
    assert_eq!(pairs[0], ((0, -1), (0, 1)));
    assert_eq!(pairs[1], ((-1, -1), (1, 1)));
    assert_eq!(pairs[2], ((-1, 0), (1, 0)));
    assert_eq!(pairs[3], ((1, -1), (-1, 1)));
}

#[test]
fn test_connect4_sweep_lines() {
    assert_eq!(sweep_start(0), ((5, 0), (0, 1)));
    assert_eq!(sweep_start(5), ((0, 0), (0, 1)));
    assert_eq!(sweep_start(6), ((5, 0), (-1, 0)));
    assert_eq!(sweep_start(12), ((5, 6), (-1, 0)));
    assert_eq!(sweep_start(13), ((5, 1), (-1, -1)));
    assert_eq!(sweep_start(18), ((5, 6), (-1, -1)));
    assert_eq!(sweep_start(19), ((4, 6), (-1, -1)));
    assert_eq!(sweep_start(22), ((1, 6), (-1, -1)));
    assert_eq!(sweep_start(23), ((5, 0), (-1, 1)));
    assert_eq!(sweep_start(29), ((5, 6), (-1, 1)));
    assert_eq!(sweep_start(30), ((4, 0), (-1, 1)));
    assert_eq!(sweep_start(33), ((1, 0), (-1, 1)));
}

#[test]
fn test_connect4_cells_on_the_board() {
    let game = Connect4Game::from_state("X.....O", None, Player::X);
    assert_eq!(game.get_safe(0, 0), Some(Player::X));
    assert_eq!(game.get_safe(0, 5), Some(Player::Neutral));
    assert_eq!(game.get_safe(0, 6), Some(Player::O));
    assert_eq!(game.get_safe(5, 6), Some(Player::Neutral));
    for i in 0..6 {
        for j in 0..7 {
            assert_eq!(game.get_safe(i, j), Some(game.get(i as usize, j as usize)));
        }
    }
    assert_eq!(game.get_safe(-1, 0), None);
    assert_eq!(game.get_safe(0, -1), None);
    assert_eq!(game.get_safe(6, 0), None);
    assert_eq!(game.get_safe(0, 7), None);
    assert_eq!(game.get_safe(isize::MAX, isize::MIN), None);
}

#[test]
fn test_connect4_threats() {
    // No stones, no threats.
    let evaluation = Connect4Game::default().evaluate_score();
    assert_eq!(evaluation.score, 0);
    assert!(!evaluation.is_terminal);
    // Three in the bottom row with a free cell on either side: two threats,
    // found in the rows and so counted four times.
    let state = "
        .......
        .......
        .......
        .......
        .......
        .XXX...";
    let evaluation = Connect4Game::from_state(state, None, Player::O).evaluate_score();
    assert_eq!(evaluation.score, 80);
    assert!(!evaluation.is_terminal);
    // The same for the other side.
    let state = "
        .......
        .......
        .......
        .......
        .......
        .OOO...";
    assert_eq!(Connect4Game::from_state(state, None, Player::X).evaluate_score().score, -80);
    // Three in a column: one threat, found in the columns and so counted
    // three times.
    let state = "
        .......
        .......
        .......
        X......
        X......
        X......";
    assert_eq!(Connect4Game::from_state(state, None, Player::O).evaluate_score().score, 30);
}

#[test]
fn test_connect4_four_in_a_row() {
    let state = "
        .......
        .......
        O......
        O......
        O......
        O.XXX..";
    let evaluation = Connect4Game::from_state(state, None, Player::X).evaluate_score();
    assert_eq!(evaluation.score, -1000);
    assert!(evaluation.is_terminal);
    // Four in the bottom row that end in the last column.
    let state = "
        .......
        .......
        .......
        .......
        .......
        ...XXXX";
    let evaluation = Connect4Game::from_state(state, None, Player::O).evaluate_score();
    assert!(evaluation.is_terminal);
    assert_eq!(evaluation.score, 1000);
}

#[test]
fn test_numbers_and_moves_as_text() {
    let mut text = String::new();
    push_decimal(&mut text, 0);
    push_decimal(&mut text, 7);
    push_decimal(&mut text, 10);
    push_decimal(&mut text, u64::MAX);
    assert_eq!(text, "071018446744073709551615");
    let mut text = String::from("a");
    push_signed(&mut text, -1);
    push_signed(&mut text, i32::MIN);
    push_signed(&mut text, i32::MAX);
    push_signed(&mut text, 0);
    assert_eq!(text, "a-1-214748364821474836470");
    let mut text = String::new();
    push_move(&mut text, (12, 0));
    push_option_move(&mut text, None);
    push_option_move(&mut text, Some((3, 45)));
    assert_eq!(text, "(12, 0)NoneSome((3, 45))");
    let mut text = String::new();
    push_board(&mut text, &[Player::X, Player::O, Player::Neutral], 2);
    assert_eq!(text, "X O \n. ");
}

#[test]
fn test_connect4_four_in_the_last_column() {
    let state = "
        .......
        .......
        ......X
        ......X
        ......X
        ......X";
    let game = Connect4Game::from_state(state, Some((2, 6)), Player::O);
    let evaluation = game.evaluate_score();
    assert_eq!(evaluation.score, 1000);
    assert!(evaluation.is_terminal);
    assert_eq!(game.get_winner(), Player::X);
}

#[test]
fn test_connect4_four_on_the_diagonals_from_the_corners() {
    let rising = "
        .......
        .......
        ...X...
        ..X....
        .X.....
        X......";
    let evaluation = Connect4Game::from_state(rising, Some((2, 3)), Player::O).evaluate_score();
    assert_eq!(evaluation.score, 1000);
    assert!(evaluation.is_terminal);
    let falling = "
        .......
        .......
        ...O...
        ....O..
        .....O.
        ......O";
    let evaluation = Connect4Game::from_state(falling, Some((2, 3)), Player::X).evaluate_score();
    assert_eq!(evaluation.score, -1000);
    assert!(evaluation.is_terminal);
    let top = "
        ...XXXX
        .......
        .......
        .......
        .......
        .......";
    assert!(Connect4Game::from_state(top, None, Player::O).evaluate_score().is_terminal);
    let short = "
        .......
        .......
        .......
        ..X....
        .X.....
        X......";
    let evaluation = Connect4Game::from_state(short, None, Player::O).evaluate_score();
    assert!(!evaluation.is_terminal);
    // One threat, found on the rising diagonals, which are swept last.
    assert_eq!(evaluation.score, 10);
}

#[test]
fn test_connect4_every_four_is_final() {
    let steps: [(isize, isize); 4] = [(0, 1), (1, 0), (1, 1), (1, -1)];
    let mut fours = 0;
    for row in 0..6isize {
        for column in 0..7isize {
            for step in steps {
                let end = (row + 3 * step.0, column + 3 * step.1);
                if end.0 < 0 || end.0 >= 6 || end.1 < 0 || end.1 >= 7 {
                    continue;
                }
                let mut game = Connect4Game::default();
                for n in 0..4 {
                    let at = (row + n * step.0, column + n * step.1);
                    game.board[(at.0 * 7 + at.1) as usize] = Player::O;
                }
                let evaluation = game.evaluate_score();
                assert!(evaluation.is_terminal);
                assert_eq!(evaluation.score, -1000);
                game.board[(row * 7 + column) as usize] = Player::X;
                assert!(!game.evaluate_score().is_terminal);
                fours += 1;
            }
        }
    }
    assert_eq!(fours, 24 + 21 + 12 + 12);
}

#[test]
fn test_tictactoe_draw_is_final() {
    let game = TicTacToeGame::from_state("XOX XXO OXO", Player::X);
    let evaluation = game.evaluate_score();
    assert_eq!(evaluation.score, 0);
    assert!(evaluation.is_terminal);
    assert!(game.has_no_free_cell());
    let game = TicTacToeGame::from_state("XOX XXO OX.", Player::O);
    let evaluation = game.evaluate_score();
    assert_eq!(evaluation.score, 0);
    assert!(!evaluation.is_terminal);
    assert!(!game.has_no_free_cell());
}
