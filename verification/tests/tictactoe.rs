use minimax::game::{Move, Player};
use minimax::minimax::{Minimax, MinimaxDriver, MinimaxParams};
use minimax::tictactoe::TicTacToeGame;

fn play(game: TicTacToeGame) -> (TicTacToeGame, i32) {
    let mut moves = 0;
    let mut minimax = Minimax::new(MinimaxParams::default());
    let mut decision_node = minimax.minimax(&game);
    let mut new_game = game;
    while decision_node.best_move.is_some() {
        let next_move = decision_node.best_move.unwrap();
        new_game = new_game.apply_move(next_move);
        decision_node = decision_node.child(next_move).unwrap().clone();
        moves += 1;
    }
    (new_game, moves)
}

fn assert_winner_is_x(board_str: &str) {
    let game = TicTacToeGame::from_state(board_str, Player::O);
    assert_eq!(game.get_winner(), Player::X);
}

#[test]
fn test_winner_is_detected_row() {
    assert_winner_is_x(
        "
        XXX
        O.O
        ...",
    );
}

#[test]
fn test_winner_is_detected_anti_diagonal() {
    assert_winner_is_x(
        "
        X.X
        OXO
        X..",
    );
}

#[test]
fn test_winner_is_detected_diagonal() {
    assert_winner_is_x(
        "
        X.X
        OXO
        ..X",
    );
}

#[test]
fn test_winner_is_detected_column() {
    assert_winner_is_x(
        "
        OXO
        OXO
        .XX",
    );
}

#[test]
fn tictactoe_test_get_possible_moves() {
    let state = "
        X.X
        O.O
        X.O";
    let game = TicTacToeGame::from_state(state, Player::X);
    let mut actual: Vec<Move> = game.get_possible_moves();
    let mut expected = vec![(0, 1), (1, 1), (2, 1)];
    actual.sort();
    expected.sort();
    assert_eq!(actual, expected);
}

#[test]
fn test_winning_moves_one_turn() {
    let state = "
        X.X
        X.O
        O.O";
    let game = TicTacToeGame::from_state(state, Player::X);
    let mut minimax = Minimax::new(MinimaxParams::default());
    let node = minimax.minimax(&game);
    assert!([Some((0, 1)), Some((1, 1))].contains(&node.get_best_move()));
    assert_eq!(Some((0, 1)), node.get_best_move());

    let game = TicTacToeGame::from_state(state, Player::O);
    let mut minimax = Minimax::new(MinimaxParams::default());
    let node = minimax.minimax(&game);
    assert_eq!(Some((2, 1)), node.get_best_move());
}

#[test]
fn test_game_is_not_winnable() {
    let state = "
        ...
        ...
        ...";
    let game = TicTacToeGame::from_state(state, Player::X);
    assert_eq!(game.get_winner(), Player::Neutral);
    let (final_game, moves) = play(game);
    assert_eq!(final_game.get_winner(), Player::Neutral);
    assert_eq!(moves, 9);
}

#[test]
fn test_winning_moves_two_turns() {
    let state = "
        ...
        OXX
        ..O";
    let game = TicTacToeGame::from_state(state, Player::O);
    let (final_game, moves) = play(game);
    assert_eq!(moves, 3);
    assert_eq!(final_game.get_winner(), Player::O);
}

#[test]
fn test_winning_moves_three_turns() {
    let state = "
        X..
        .O.
        O.X";
    let game = TicTacToeGame::from_state(state, Player::X);
    let (final_game, moves) = play(game);
    assert_eq!(moves, 3);
    assert_eq!(final_game.get_winner(), Player::X);

    let state = "
        X.O
        .O.
        ..X";
    let game = TicTacToeGame::from_state(state, Player::X);
    let (final_game, moves) = play(game);
    assert_eq!(moves, 3);
    assert_eq!(final_game.get_winner(), Player::X);
}

#[test]
fn test_doesnt_make_noob_mistake() {
    let state = "
        X..
        .O.
        ..X";
    let game = TicTacToeGame::from_state(state, Player::O);
    let (final_game, _moves) = play(game);
    assert_eq!(final_game.get_winner(), Player::Neutral);
}

#[test]
fn test_punishes_noob_openings() {
    let state = "
        XO.
        ...
        ...";
    let game = TicTacToeGame::from_state(state, Player::X);
    let (final_game, moves) = play(game);
    assert_eq!(moves, 5);
    assert_eq!(final_game.get_winner(), Player::X);

    let state = "
        X..
        ...
        O..";
    let game = TicTacToeGame::from_state(state, Player::X);
    let (final_game, moves) = play(game);
    assert_eq!(moves, 5);
    assert_eq!(final_game.get_winner(), Player::X);
}

#[test]
fn test_fastest_win() {
    let state = "
        OOX
        O.X
        X..";
    let game = TicTacToeGame::from_state(state, Player::X);
    let (final_game, moves) = play(game);
    assert_eq!(moves, 1);
    assert_eq!(final_game.get_winner(), Player::X);
}

#[test]
fn test_best_moves_always_end_in_draw() {
    let state = "
        ...
        ...
        ...";
    let game = TicTacToeGame::from_state(state, Player::X);
    let (final_game, _moves) = play(game);
    assert_eq!(final_game.get_winner(), Player::Neutral);
}

#[test]
fn test_hash() {
    let state = "
        ...
        ...
        ...";
    let mut game = TicTacToeGame::from_state(state, Player::X);
    assert_eq!(game.get_hash(), 1);
    game.current_player = Player::O;
    assert_eq!(game.get_hash(), 2);

    let state = "
        X..
        ...
        ...";
    let mut game = TicTacToeGame::from_state(state, Player::X);
    assert_eq!(game.get_hash(), 5);
    game.current_player = Player::O;
    assert_eq!(game.get_hash(), 6);
}
