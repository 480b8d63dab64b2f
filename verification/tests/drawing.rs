use std::rc::Rc;

use graphviz_rust::dot_structures::{
    Attribute, Edge, EdgeTy, Graph, GraphAttributes, Id, Node, NodeId, Stmt, Vertex,
};
use minimax::drawing::{
    add_edge, add_node, alternatives_at, get_player_color, graph_node, graph_tree, make_graph,
    node_label, node_name, ALL_ALTERNATIVES, DRAW_ALL_AT_DEPTH,
};
use minimax::game::{Move, Player};
use minimax::minimax::{
    contains_move, minimax, DecisionTreeNode, Minimax, MinimaxDriver, MinimaxParams, NodeType,
};
use minimax::tictactoe::TicTacToeGame;

const ONE_MOVE_FROM_A_WIN: &str = "
    X.X
    X.O
    O.O";

fn plain(name: &str, value: &str) -> Attribute {
    Attribute(Id::Plain(name.to_string()), Id::Plain(value.to_string()))
}

fn opening() -> Vec<Stmt> {
    vec![
        Stmt::Attribute(plain("fontname", "\"Courier,FreeMono\"")),
        Stmt::GAttribute(GraphAttributes::Node(vec![
            plain("fontname", "\"Courier,FreeMono\""),
            plain("width", "1.5"),
        ])),
    ]
}

fn node(name: &str, label: &str, color: &str) -> Stmt {
    Stmt::Node(Node::new(
        NodeId(Id::Plain(name.to_string()), None),
        vec![
            Attribute(Id::Plain("label".to_string()), Id::Escaped(format!("\"{}\"", label))),
            plain("shape", "box"),
            plain("color", color),
        ],
    ))
}

fn edge(from: &str, to: &str, color: &str, is_heavy: bool) -> Stmt {
    let mut attributes = vec![plain("color", color)];
    if is_heavy {
        attributes.push(plain("weight", "10"));
        attributes.push(plain("penwidth", "2"));
    }
    Stmt::Edge(Edge {
        ty: EdgeTy::Pair(
            Vertex::N(NodeId(Id::Plain(from.to_string()), None)),
            Vertex::N(NodeId(Id::Plain(to.to_string()), None)),
        ),
        attributes,
    })
}

fn statements(graph: &Graph) -> Vec<Stmt> {
    match graph {
        Graph::DiGraph { stmts, .. } => stmts.clone(),
        Graph::Graph { .. } => panic!("the drawing is a directed graph"),
    }
}

fn leaf(score: i32) -> NodeType {
    Rc::new(DecisionTreeNode { score, ..Default::default() })
}

fn moves_of(picks: &[(Move, NodeType)]) -> Vec<Move> {
    picks.iter().map(|pick| pick.0).collect()
}

#[test]
fn test_make_graph() {
    let graph = make_graph();
    assert_eq!(
        graph,
        Graph::DiGraph {
            id: Id::Plain("decision_tree".to_string()),
            strict: true,
            stmts: opening(),
        }
    );
}

#[test]
fn test_add_node() {
    let mut graph = make_graph();
    add_node(&mut graph, "node_1_2", "sc: 3", "blue");
    let mut expected = opening();
    expected.push(node("node_1_2", "sc: 3", "blue"));
    assert_eq!(statements(&graph), expected);
}

#[test]
fn test_add_edge() {
    let mut graph = make_graph();
    add_edge(&mut graph, "a", "b", "red", true);
    add_edge(&mut graph, "b", "c", "black", false);
    let mut expected = opening();
    expected.push(edge("a", "b", "red", true));
    expected.push(edge("b", "c", "black", false));
    assert_eq!(statements(&graph), expected);
}

#[test]
fn test_player_colors() {
    assert_eq!(get_player_color(Player::X), "red");
    assert_eq!(get_player_color(Player::O), "blue");
    assert_eq!(get_player_color(Player::Neutral), "black");
}

#[test]
fn test_node_names_and_labels() {
    assert_eq!(node_name(0, 0), "node_0_0");
    assert_eq!(node_name(12, 345), "node_12_345");
    assert_eq!(node_name(-1, -20), "node_-1_-20");
    let node = DecisionTreeNode { score: -990, alfa: i32::MIN, beta: 7, ..Default::default() };
    assert_eq!(node_label(&node, 3, "X . \nnext: O"), "sc: -990 de: 3\nX . \nnext: O\na: -2147483648 b: 7");
}

#[test]
fn test_alternatives_at() {
    assert_eq!(ALL_ALTERNATIVES, 1000);
    assert_eq!(DRAW_ALL_AT_DEPTH, 4);
    assert_eq!(alternatives_at(4, 4, 2), 1000);
    assert_eq!(alternatives_at(3, 4, 2), 2);
    assert_eq!(alternatives_at(0, -1, 0), 0);
}

#[test]
fn test_moves_to_draw_brings_the_best_move_to_the_front() {
    let node = DecisionTreeNode {
        score: 5,
        moves: vec![((0, 0), leaf(5)), ((0, 1), leaf(5)), ((0, 2), leaf(3)), ((1, 0), leaf(1))],
        best_move: Some((0, 1)),
        alfa: 0,
        beta: 0,
    };
    // By falling score: (0, 0), (0, 1), (0, 2), (1, 0). The last one goes to
    // the front and then changes places with the best move.
    assert_eq!(moves_of(&node.moves_to_draw(1, 9)), vec![(0, 1), (0, 0), (1, 0), (0, 2)]);
    assert_eq!(moves_of(&node.moves_to_draw(1, 3)), vec![(0, 1), (0, 0), (1, 0), (0, 2)]);
    assert_eq!(moves_of(&node.moves_to_draw(1, 1)), vec![(0, 1), (0, 0)]);
    assert_eq!(moves_of(&node.moves_to_draw(1, 0)), vec![(0, 1)]);
    assert_eq!(moves_of(&node.moves_to_draw(1, usize::MAX)).len(), 4);
    let picks = node.moves_to_draw(1, 9);
    assert_eq!(picks[2].1.score, 1);
    assert_eq!(picks[3].1.score, 3);
}

#[test]
fn test_moves_to_draw_for_the_other_side() {
    let mut node = DecisionTreeNode {
        score: 1,
        moves: vec![((0, 0), leaf(5)), ((0, 1), leaf(5)), ((0, 2), leaf(3)), ((1, 0), leaf(1))],
        best_move: Some((1, 0)),
        alfa: 0,
        beta: 0,
    };
    // By rising score, the best move in front already.
    assert_eq!(moves_of(&node.moves_to_draw(-1, 9)), vec![(1, 0), (0, 2), (0, 0), (0, 1)]);
    // The best move in the last place comes to the front, the others follow.
    node.best_move = Some((0, 1));
    assert_eq!(moves_of(&node.moves_to_draw(-1, 9)), vec![(0, 1), (1, 0), (0, 2), (0, 0)]);
    // With nobody to move all keys are equal and the order is kept.
    node.best_move = Some((0, 0));
    assert_eq!(moves_of(&node.moves_to_draw(0, 9)), vec![(0, 0), (0, 1), (0, 2), (1, 0)]);
    // A best move that is not among the moves changes nothing.
    node.best_move = Some((2, 2));
    assert_eq!(moves_of(&node.moves_to_draw(1, 9)), vec![(0, 0), (0, 1), (0, 2), (1, 0)]);
    node.best_move = None;
    assert_eq!(moves_of(&node.moves_to_draw(1, 9)), vec![(0, 0), (0, 1), (0, 2), (1, 0)]);
}

#[test]
fn test_moves_to_draw_of_a_leaf() {
    assert!(leaf(3).moves_to_draw(1, 5).is_empty());
}

#[test]
fn test_graph_of_a_leaf() {
    let game = TicTacToeGame::from_state("XXX OO. ...", Player::O);
    let tree = minimax(&game);
    let mut graph = make_graph();
    graph_tree(&mut graph, &tree, &game, 5, 2);
    let mut expected = opening();
    expected.push(node(
        "node_0_0",
        "sc: 1000 de: 0\nX X X \nO O . \n. . . \nnext: O\na: 0 b: 0",
        "red",
    ));
    assert_eq!(statements(&graph), expected);
}

#[test]
fn test_graph_of_the_best_move() {
    let game = TicTacToeGame::from_state(ONE_MOVE_FROM_A_WIN, Player::X);
    let tree = minimax(&game);
    let mut graph = make_graph();
    graph_tree(&mut graph, &tree, &game, 1, 0);
    let mut expected = opening();
    expected.push(node(
        "node_0_0",
        "sc: 990 de: 0\nX . X \nX . O \nO . O \nnext: X\na: 1000 b: 2147483647",
        "black",
    ));
    expected.push(node(
        "node_1_0",
        "sc: 1000 de: 1\nX X X \nX . O \nO . O \nnext: O\na: 0 b: 0",
        "red",
    ));
    expected.push(edge("node_0_0", "node_1_0", "red", true));
    assert_eq!(statements(&graph), expected);
}

#[test]
fn test_graph_with_alternatives() {
    let game = TicTacToeGame::from_state(ONE_MOVE_FROM_A_WIN, Player::X);
    let tree = Minimax::new(MinimaxParams { max_depth: 1, ..Default::default() }).minimax(&game);
    let mut graph = make_graph();
    let mut node_id = 7;
    let name = graph_node(&mut graph, &tree, &game, 0, 3, &mut node_id, 1, 9);
    assert_eq!(name, Some("node_0_7".to_string()));
    assert_eq!(node_id, 9);
    let mut expected = opening();
    expected.push(node(
        "node_0_7",
        "sc: 990 de: 0\nX . X \nX . O \nO . O \nnext: X\na: 1000 b: 2147483647",
        "black",
    ));
    expected.push(node(
        "node_1_7",
        "sc: 1000 de: 1\nX X X \nX . O \nO . O \nnext: O\na: 0 b: 0",
        "red",
    ));
    expected.push(edge("node_0_7", "node_1_7", "red", true));
    expected.push(node(
        "node_1_8",
        "sc: 0 de: 1\nX . X \nX X O \nO . O \nnext: O\na: 0 b: 0",
        "black",
    ));
    expected.push(edge("node_0_7", "node_1_8", "black", false));
    assert_eq!(statements(&graph), expected);
}

#[test]
fn test_graph_below_the_depth_limit() {
    let game = TicTacToeGame::from_state(ONE_MOVE_FROM_A_WIN, Player::X);
    let tree = minimax(&game);
    // Nothing is drawn below the limit.
    let mut graph = make_graph();
    let mut node_id = 0;
    assert_eq!(graph_node(&mut graph, &tree, &game, 1, 0, &mut node_id, 5, 4), None);
    assert_eq!(node_id, 0);
    assert_eq!(statements(&graph), opening());
    // At the limit the moves take their numbers, but are not drawn.
    let mut graph = make_graph();
    let mut node_id = 0;
    let name = graph_node(&mut graph, &tree, &game, 0, 0, &mut node_id, 5, 4);
    assert_eq!(name, Some("node_0_0".to_string()));
    assert_eq!(node_id, 3);
    assert_eq!(statements(&graph).len(), 3);
    // The numbers stop at the last one.
    let mut graph = make_graph();
    let mut node_id = i32::MAX - 1;
    graph_node(&mut graph, &tree, &game, 0, 0, &mut node_id, 5, 4);
    assert_eq!(node_id, i32::MAX);
}

#[test]
fn test_graph_draws_all_moves_at_one_depth() {
    let game = TicTacToeGame::from_state(ONE_MOVE_FROM_A_WIN, Player::X);
    let tree = minimax(&game);
    let mut graph = make_graph();
    let mut node_id = 0;
    graph_node(&mut graph, &tree, &game, 0, 1, &mut node_id, 0, 0);
    // The root, three moves and three edges.
    assert_eq!(statements(&graph).len(), 2 + 1 + 3 + 3);
    // Each of the three moves takes a number, and so does the best reply to
    // either of the two that do not end the game.
    assert_eq!(node_id, 5);
}

#[test]
fn test_tree_can_be_walked() {
    let game = TicTacToeGame::from_state(ONE_MOVE_FROM_A_WIN, Player::X);
    let tree = minimax(&game);
    assert!(tree.can_be_walked_from(&game));
    assert!(tree.child((1, 1)).unwrap().can_be_walked_from(&game.apply_move((1, 1))));
    // From a position in which a move of the tree is taken it cannot.
    let other = TicTacToeGame::from_state("XOX X.O O.O", Player::X);
    assert!(!tree.can_be_walked_from(&other));
    assert!(!tree.can_be_walked_from(&game.apply_move((1, 1))));
    assert!(leaf(0).can_be_walked_from(&other));
}

#[test]
fn test_contains_move() {
    let moves = vec![(0, 1), (2, 2)];
    assert!(contains_move(&moves, (0, 1)));
    assert!(contains_move(&moves, (2, 2)));
    assert!(!contains_move(&moves, (1, 0)));
    assert!(!contains_move(&moves, (0, 2)));
    assert!(!contains_move(&Vec::new(), (0, 0)));
}

#[test]
fn test_search_with_the_standard_parameters() {
    let game = TicTacToeGame::from_state("X...O", Player::X);
    let node = minimax(&game);
    let other = Minimax::new(MinimaxParams::default()).minimax(&game);
    assert_eq!(node.describe(), other.describe());
    assert_eq!(node.score, other.score);
    assert!(game.get_possible_moves().contains(&node.best_move.unwrap()));
}
