use minimax::connect4::Connect4Game;
use minimax::game::{Move, Player};
use minimax::minimax::{Minimax, MinimaxDriver, MinimaxParams};

fn play(game: Connect4Game, depth: u32) -> (Connect4Game, i32) {
    let mut moves = 0;
    let mut minimax = Minimax::new(MinimaxParams {
        max_depth: depth,
        ..Default::default()
    });
    let mut decision_node = minimax.minimax(&game);
    let mut new_game = game;
    while decision_node.best_move.is_some() {
        let next_move = decision_node.best_move.unwrap();
        new_game = new_game.apply_move(next_move);
        decision_node = decision_node.child(next_move).unwrap().clone();
        moves += 1;
    }
    (new_game, moves)
}

fn assert_winner_is_x(board_str: &str, last_move: Option<Move>) {
    let game = Connect4Game::from_state(board_str, last_move, Player::O);
    assert_eq!(game.get_winner(), Player::X);
}

#[test]
fn test_winner_is_detected_in_a_row() {
    assert_winner_is_x(
        "
        .......
        .......
        .......
        .......
        .......
        .XXXX..",
        Some((5, 3)),
    );
}

#[test]
fn test_winner_is_detected_in_a_column() {
    assert_winner_is_x(
        "
        .......
        .......
        .X.....
        .X.....
        .X.....
        .XOOO..",
        Some((2, 1)),
    );
}

#[test]
fn test_winner_is_detected_up_a_diagonal() {
    assert_winner_is_x(
        "
        .......
        .......
        ....X..
        .X.XO..
        .XXOO..
        .XOOO..",
        Some((3, 3)),
    );
}

#[test]
fn test_winner_is_detected_down_a_diagonal() {
    assert_winner_is_x(
        "
        .......
        .......
        .X.....
        .OX....
        .OXX...
        .OOXX..",
        Some((4, 3)),
    );
}

#[test]
fn test_winner_is_detected_with_spaces() {
    assert_winner_is_x(
        "
        . . . . . . .
        O . . . . . .
        X . . . . . .
        X X . . . . .
        X X X O X . O
        O O O X X O O",
        Some((4, 2)),
    );
}

#[test]
fn test_possible_moves() {
    let state = "
        .......
        .O.X...
        .XOO...
        .OXOX..
        .OXOXX.
        .OOXXO.";
    let game = Connect4Game::from_state(state, Some((4, 5)), Player::O);
    let mut actual: Vec<Move> = game.get_possible_moves();
    let mut expected = vec![(5, 0), (0, 1), (1, 2), (0, 3), (2, 4), (3, 5), (5, 6)];
    actual.sort();
    expected.sort();
    assert_eq!(actual, expected);
}

#[test]
fn test_win_in_one() {
    let mut minimax = Minimax::new(MinimaxParams {
        max_depth: 1,
        ..Default::default()
    });
    let state = "
        .......
        .O.X...
        .XOO...
        .OXOX..
        .OXOXX.
        .OOXXO.";
    let game = Connect4Game::from_state(state, Some((4, 5)), Player::X);
    let node = minimax.minimax(&game);
    assert_eq!(node.get_best_move(), Some((2, 4)));
}

#[test]
fn test_win_in_two() {
    let state = "
        .......
        .......
        .......
        XX.....
        XX.OX.O
        OOOXXOO";
    let game = Connect4Game::from_state(state, None, Player::X);
    let (final_game, moves) = play(game, 7);
    assert_eq!(final_game.get_winner(), Player::X);
    assert_eq!(moves, 3);
}

#[test]
fn test_win_in_three() {
    let state = "
        .......
        .......
        ..X....
        X.O....
        O.X....
        XXOOOXO";
    let game = Connect4Game::from_state(state, None, Player::X);
    let (final_game, _moves) = play(game, 7);
    assert_eq!(final_game.get_winner(), Player::X);
}

#[test]
fn test_win_in_four() {
    let state = "
        .......
        .......
        .......
        .O..OXO
        OX.XXXO
        XO.OXOX";
    let game = Connect4Game::from_state(state, None, Player::X);
    let (final_game, _moves) = play(game, 9);
    assert_eq!(final_game.get_winner(), Player::X);
}

#[test]
fn test_win_in_five() {
    let state = "
        .......
        .......
        .......
        .....X.
        .XOOXO.
        .XXOOXO";
    let game = Connect4Game::from_state(state, None, Player::X);
    let (final_game, moves) = play(game, 9);
    assert_eq!(final_game.get_winner(), Player::X);
    assert_eq!(moves, 9);
}

#[test]
fn test_score() {
    let state = "
        . . . . . . .
        O . . . . . .
        X . . . . . .
        X X . . . . .
        X X X O X . O
        O O O X X O O";
    let game = Connect4Game::from_state(state, Some((4, 5)), Player::X);
    let score = game.evaluate_score();
    assert_eq!(score.score, 1000);
}

#[test]
fn test_pruning_visits_no_more_nodes_of_connect4() {
    let state = "
        .......
        .......
        ..X....
        X.O....
        O.X....
        XXOOOXO";
    for depth in [0, 1, 2, 3, 4] {
        let game = Connect4Game::from_state(state, None, Player::X);
        let mut pruned = Minimax::new(MinimaxParams { max_depth: depth, ..Default::default() });
        let mut full = Minimax::new(MinimaxParams {
            max_depth: depth,
            pruning: false,
            ..Default::default()
        });
        let one = pruned.minimax(&game);
        let other = full.minimax(&game);
        assert!(pruned.get_internal_stats().1 <= full.get_internal_stats().1);
        assert!(one.moves.len() <= other.moves.len());
        assert!(one.can_be_walked_from(&game));
        assert!(other.can_be_walked_from(&game));
    }
}

#[test]
fn test_full_tree_of_connect4_has_every_move() {
    let game = Connect4Game::default();
    let mut full = Minimax::new(MinimaxParams { max_depth: 3, pruning: false, ..Default::default() });
    let node = full.minimax(&game);
    assert_eq!(node.moves.len(), 7);
    // 1 + 7 + 49 positions are expanded, 343 more are looked at.
    assert_eq!(full.get_internal_stats().0, 57);
    let second = full.minimax(&game);
    assert_eq!(second.score, node.score);
    assert_eq!(full.get_internal_stats().0, 57);
    assert_eq!(full.get_internal_stats().1, 0);
}

#[test]
fn test_connect4_win_on_the_spot_is_taken() {
    let row = "
        .......
        .......
        .......
        .......
        OOO....
        XXX....";
    let column = "
        .......
        .......
        .......
        O......
        O.X....
        O.XX...";
    // Either side completes its four, whatever the weight of the other
    // moves.
    for weight in [0, 1, 2, 3, 4] {
        let params = MinimaxParams {
            max_depth: 3,
            weight_suboptimal: minimax::minimax::Fraction { numerator: weight, denominator: 4 },
            ..Default::default()
        };
        let game = Connect4Game::from_state(row, None, Player::X);
        let node = Minimax::new(params).minimax(&game);
        assert_eq!(node.best_move, Some((5, 3)));
        assert!(game.apply_move((5, 3)).evaluate_score().is_terminal);
        let game = Connect4Game::from_state(column, None, Player::O);
        let node = Minimax::new(params).minimax(&game);
        assert_eq!(node.best_move, Some((2, 0)));
        assert_eq!(game.apply_move((2, 0)).evaluate_score().score, -1000);
    }
}

#[test]
fn test_pruning_keeps_the_score_of_a_plain_search_of_connect4() {
    let states = [
        "",
        "....... ....... ....... ....... ...O... ..XX...",
        "....... ....... ..X.... X.O.... O.X.... XXOOOXO",
        "....... ....... ....... .....X. .XOOXO. .XXOOXO",
    ];
    for state in states {
        for depth in [1, 2, 3, 4] {
            let plain = MinimaxParams {
                max_depth: depth,
                depth_factor: minimax::minimax::Fraction { numerator: 7, denominator: 7 },
                ..Default::default()
            };
            let game = Connect4Game::from_state(state, None, Player::X);
            let pruned = Minimax::new(plain).minimax(&game);
            let full = Minimax::new(MinimaxParams { pruning: false, ..plain }).minimax(&game);
            assert_eq!(pruned.score, full.score);
        }
    }
}
