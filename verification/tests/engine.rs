use std::rc::Rc;

use minimax::game::Player;
use minimax::minimax::{
    DecisionTreeNode, Fraction, Minimax, MinimaxDriver, MinimaxParams, DECISIVE_SCORE,
};
use minimax::tictactoe::TicTacToeGame;

const ONE_MOVE_FROM_A_WIN: &str = "
    X.X
    X.O
    O.O";

fn params(max_depth: u32, weight: (u16, u16), pruning: bool) -> MinimaxParams {
    MinimaxParams {
        max_depth,
        depth_factor: Fraction { numerator: 99, denominator: 100 },
        weight_suboptimal: Fraction { numerator: weight.0, denominator: weight.1 },
        pruning,
    }
}

#[test]
fn test_default_params() {
    let params = MinimaxParams::default();
    assert_eq!(params.max_depth, 12);
    assert_eq!(params.depth_factor.numerator, 99);
    assert_eq!(params.depth_factor.denominator, 100);
    assert_eq!(params.weight_suboptimal.numerator, 0);
    assert!(params.pruning);
    assert!(params.is_well_formed());
}

#[test]
fn test_params_out_of_range() {
    assert!(!params(3, (2, 1), true).is_well_formed());
    assert!(!params(3, (0, 0), true).is_well_formed());
    let mut zero_factor = MinimaxParams::default();
    zero_factor.depth_factor = Fraction { numerator: 0, denominator: 100 };
    assert!(!zero_factor.is_well_formed());
    let mut large_factor = MinimaxParams::default();
    large_factor.depth_factor = Fraction { numerator: 101, denominator: 100 };
    assert!(!large_factor.is_well_formed());
}

#[test]
fn test_default_node_is_a_leaf() {
    let node = DecisionTreeNode::default();
    assert_eq!(node.score, 0);
    assert_eq!(node.get_best_move(), None);
    assert!(node.moves.is_empty());
    assert!(node.child((0, 0)).is_none());
}

#[test]
fn test_terminal_position_gives_a_leaf() {
    let game = TicTacToeGame::from_state("XXX OO. ...", Player::O);
    assert!(game.evaluate_score().is_terminal);
    let mut engine = Minimax::new(MinimaxParams::default());
    let node = engine.minimax(&game);
    assert_eq!(node.score, DECISIVE_SCORE);
    assert_eq!(node.best_move, None);
    assert!(node.moves.is_empty());
    assert_eq!(engine.get_internal_stats(), (0, 0, 1));

    let game = TicTacToeGame::from_state("OOO XX. X..", Player::X);
    let node = Minimax::new(MinimaxParams::default()).minimax(&game);
    assert_eq!(node.score, -DECISIVE_SCORE);
    assert_eq!(node.best_move, None);
    assert!(node.moves.is_empty());
}

#[test]
fn test_best_move_is_a_legal_move() {
    let boards = ["", "X", "XO", "X...O", "XOX OXO ...", ONE_MOVE_FROM_A_WIN];
    for board in boards {
        for player in [Player::X, Player::O] {
            let game = TicTacToeGame::from_state(board, player);
            let node = Minimax::new(params(4, (1, 3), true)).minimax(&game);
            let best = node.best_move.unwrap();
            assert!(game.get_possible_moves().contains(&best));
            assert!(node.child(best).is_some());
        }
    }
}

#[test]
fn test_depth_zero_gives_the_static_score() {
    let game = TicTacToeGame::from_state(ONE_MOVE_FROM_A_WIN, Player::X);
    let mut engine = Minimax::new(params(0, (0, 1), true));
    let node = engine.minimax(&game);
    assert_eq!(node.score, game.evaluate_score().score);
    assert_eq!(node.score, 0);
    assert_eq!(node.best_move, None);
    assert!(node.moves.is_empty());
    assert_eq!(engine.get_internal_stats(), (0, 0, 1));
}

#[test]
fn test_pruning_visits_no_more_nodes() {
    let boards = ["", "X...O", "XOX .O.", ONE_MOVE_FROM_A_WIN];
    for board in boards {
        for depth in [1, 2, 3, 5, 9] {
            let game = TicTacToeGame::from_state(board, Player::X);
            let mut pruned = Minimax::new(params(depth, (0, 1), true));
            let mut full = Minimax::new(params(depth, (0, 1), false));
            pruned.minimax(&game);
            full.minimax(&game);
            assert!(pruned.get_internal_stats().1 <= full.get_internal_stats().1);
        }
    }
}

#[test]
fn test_node_counts_with_and_without_pruning() {
    let game = TicTacToeGame::from_state(ONE_MOVE_FROM_A_WIN, Player::X);
    let mut pruned = Minimax::new(params(12, (0, 1), true));
    pruned.minimax(&game);
    // The root, and below each of the two moves that do not win two nodes:
    // the move itself and the reply that does not win. The drawn board that
    // follows is a leaf, and so is the win of the first move.
    assert_eq!(pruned.get_internal_stats(), (5, 5, 7));
    let mut full = Minimax::new(params(12, (0, 1), false));
    let node = full.minimax(&game);
    // Without pruning the second replies are looked at too: one wins on the
    // spot and is a leaf, the other is followed by a win and is a node.
    assert_eq!(full.get_internal_stats(), (6, 6, 10));
    assert_eq!(node.moves.len(), 3);
    assert_eq!(node.child((1, 1)).unwrap().moves.len(), 2);
    assert_eq!(node.child((2, 1)).unwrap().moves.len(), 2);
}

#[test]
fn test_search_is_deterministic() {
    let first = TicTacToeGame::from_state("X...O", Player::X);
    let second = TicTacToeGame::from_state("X..\n.O.\n...", Player::X);
    let one = Minimax::new(MinimaxParams::default()).minimax(&first);
    let mut busy = Minimax::new(MinimaxParams::default());
    busy.minimax(&TicTacToeGame::default());
    let other = busy.minimax(&second);
    assert_eq!(one.score, other.score);
    assert_eq!(one.best_move, other.best_move);
    assert_eq!(one.describe(), other.describe());
}

#[test]
fn test_one_move_from_a_win() {
    let game = TicTacToeGame::from_state(ONE_MOVE_FROM_A_WIN, Player::X);
    let node = Minimax::new(params(u32::MAX, (0, 1), true)).minimax(&game);
    let best = node.best_move.unwrap();
    assert!(best == (0, 1) || best == (1, 1) || best == (2, 1));
    assert_eq!(game.apply_move(best).get_winner(), Player::X);
    assert_eq!(node.score, 990);
    assert_eq!(node.alfa, 1000);
    assert_eq!(node.beta, i32::MAX);
}

#[test]
fn test_immediate_win_whatever_the_weight() {
    for weight in [(0, 1), (1, 4), (1, 2), (3, 4), (1, 1)] {
        let game = TicTacToeGame::from_state(ONE_MOVE_FROM_A_WIN, Player::X);
        let node = Minimax::new(params(12, weight, true)).minimax(&game);
        assert_eq!(node.best_move, Some((0, 1)));
        let game = TicTacToeGame::from_state(ONE_MOVE_FROM_A_WIN, Player::O);
        let node = Minimax::new(params(12, weight, true)).minimax(&game);
        assert_eq!(node.best_move, Some((2, 1)));
    }
}

#[test]
fn test_second_search_is_answered_from_the_cache() {
    let game = TicTacToeGame::from_state("X...O", Player::X);
    let mut engine = Minimax::new(MinimaxParams::default());
    let first = engine.minimax(&game);
    let (total, last_run, cache_size) = engine.get_internal_stats();
    assert!(last_run > 0);
    assert_eq!(total, last_run);
    let second = engine.minimax(&game);
    assert_eq!(first.score, second.score);
    assert_eq!(first.best_move, second.best_move);
    assert!(Rc::ptr_eq(&first, &second));
    assert_eq!(engine.get_internal_stats(), (total, 0, cache_size));
}

#[test]
fn test_total_adds_up_over_searches() {
    let mut engine = Minimax::new(params(2, (0, 1), true));
    engine.minimax(&TicTacToeGame::from_state(ONE_MOVE_FROM_A_WIN, Player::X));
    let first = engine.get_internal_stats();
    assert_eq!((first.0, first.1), (3, 3));
    engine.minimax(&TicTacToeGame::from_state(ONE_MOVE_FROM_A_WIN, Player::O));
    let second = engine.get_internal_stats();
    assert_eq!(second.0, first.0 + second.1);
    assert!(second.2 > first.2);
}

#[test]
fn test_blend_of_best_and_mean() {
    // One ply deep the three moves score 1000, 0 and 0. With half the weight
    // on the mean: (1000 / 2 + (1000 / 3) / 2) * 99 / 100 = 660.
    let game = TicTacToeGame::from_state(ONE_MOVE_FROM_A_WIN, Player::X);
    let node = Minimax::new(params(1, (1, 2), true)).minimax(&game);
    assert_eq!(node.moves.len(), 3);
    assert_eq!(node.score, 660);
    // For the other side the moves score 0, 0 and -1000.
    let game = TicTacToeGame::from_state(ONE_MOVE_FROM_A_WIN, Player::O);
    let node = Minimax::new(params(1, (1, 2), true)).minimax(&game);
    assert_eq!(node.score, -660);
    // All the weight on the mean: (1000 / 3) * 99 / 100 = 330.
    let game = TicTacToeGame::from_state(ONE_MOVE_FROM_A_WIN, Player::X);
    let node = Minimax::new(params(1, (1, 1), true)).minimax(&game);
    assert_eq!(node.score, 330);
    // A quarter of it: (750 + 333.33.. / 4) * 99 / 100 = 825.
    let node = Minimax::new(params(1, (1, 4), true)).minimax(&game);
    assert_eq!(node.score, 825);
}

#[test]
fn test_score_rounds_towards_zero() {
    let mut seventh = MinimaxParams::default();
    seventh.depth_factor = Fraction { numerator: 1, denominator: 7 };
    let game = TicTacToeGame::from_state(ONE_MOVE_FROM_A_WIN, Player::X);
    assert_eq!(Minimax::new(seventh).minimax(&game).score, 142);
    let game = TicTacToeGame::from_state(ONE_MOVE_FROM_A_WIN, Player::O);
    assert_eq!(Minimax::new(seventh).minimax(&game).score, -142);
}

#[test]
fn test_score_shrinks_with_each_ply() {
    // X wins in three plies whatever O replies: 1000 * 0.99^3, rounded
    // towards zero at each ply.
    let game = TicTacToeGame::from_state("X.. .O. O.X", Player::X);
    let node = Minimax::new(MinimaxParams::default()).minimax(&game);
    assert_eq!(node.score, 970);
}

#[test]
fn test_drawn_board_gives_a_leaf() {
    let game = TicTacToeGame::from_state("XOX XOO OXX", Player::X);
    assert!(game.evaluate_score().is_terminal);
    assert!(game.get_possible_moves().is_empty());
    let mut engine = Minimax::new(MinimaxParams::default());
    let node = engine.minimax(&game);
    assert_eq!(node.score, 0);
    assert_eq!(node.best_move, None);
    assert!(node.moves.is_empty());
    assert_eq!(engine.get_internal_stats(), (0, 0, 1));
}

#[test]
fn test_later_move_wins_a_tie() {
    // Every first move of the empty board leads to a draw: the last one is
    // kept.
    let node = Minimax::new(MinimaxParams::default()).minimax(&TicTacToeGame::default());
    assert_eq!(node.score, 0);
    assert_eq!(node.best_move, Some((2, 2)));
}

#[test]
fn test_nobody_to_move() {
    let game = TicTacToeGame::from_state(ONE_MOVE_FROM_A_WIN, Player::Neutral);
    let node = Minimax::new(params(1, (0, 1), true)).minimax(&game);
    assert_eq!(node.best_move, Some((2, 1)));
    assert_eq!(node.score, 0);
}

#[test]
fn test_child_lookup() {
    let game = TicTacToeGame::from_state(ONE_MOVE_FROM_A_WIN, Player::X);
    let node = Minimax::new(MinimaxParams::default()).minimax(&game);
    assert_eq!(node.child((0, 1)).unwrap().score, 1000);
    assert_eq!(node.child((1, 1)).unwrap().score, 0);
    assert!(node.child((0, 0)).is_none());
    assert!(node.child((7, 7)).is_none());
}

#[test]
fn test_node_as_text() {
    let game = TicTacToeGame::from_state(ONE_MOVE_FROM_A_WIN, Player::X);
    let node = Minimax::new(MinimaxParams::default()).minimax(&game);
    assert_eq!(
        node.describe(),
        "DecisionTreeNode { score: 990, best_move: Some((0, 1)), moves: [(0, 1), (1, 1), (2, 1)] }"
    );
    let game = TicTacToeGame::from_state("OOO XX. X..", Player::X);
    let node = Minimax::new(MinimaxParams::default()).minimax(&game);
    assert_eq!(node.describe(), "DecisionTreeNode { score: -1000, best_move: None, moves: [] }");
}

#[test]
fn test_pruning_keeps_the_score_of_a_plain_search() {
    let boards = ["", "X", "XO", "X...O", "XOX .O.", "O.X .X.", ONE_MOVE_FROM_A_WIN, "XX. OO. ..."];
    for board in boards {
        for player in [Player::X, Player::O] {
            for depth in [1, 2, 3, 4, 9] {
                let plain = MinimaxParams {
                    max_depth: depth,
                    depth_factor: Fraction { numerator: 1, denominator: 1 },
                    weight_suboptimal: Fraction { numerator: 0, denominator: 5 },
                    pruning: true,
                };
                let game = TicTacToeGame::from_state(board, player);
                let pruned = Minimax::new(plain).minimax(&game);
                let full = Minimax::new(MinimaxParams { pruning: false, ..plain }).minimax(&game);
                assert_eq!(pruned.score, full.score);
            }
        }
    }
}

#[test]
fn test_value_of_the_empty_board() {
    // Tic-tac-toe is a draw: searched to the end, with or without pruning,
    // the empty board is worth nothing to either side.
    for pruning in [true, false] {
        let params = MinimaxParams {
            max_depth: 9,
            depth_factor: Fraction { numerator: 1, denominator: 1 },
            pruning,
            ..Default::default()
        };
        let node = Minimax::new(params).minimax(&TicTacToeGame::default());
        assert_eq!(node.score, 0);
        assert_eq!(node.moves.len(), 9);
        for (_, child) in node.moves.iter() {
            assert!(child.score <= 0);
        }
    }
}
