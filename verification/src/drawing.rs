//! The drawing of a decision tree as a graph: which moves of a node are
//! drawn, in which order, with which names, labels and colors, and the
//! statements of the graph that say so.

use graphviz_rust::dot_structures::{
    Attribute, Edge, EdgeTy, Graph, GraphAttributes, Id, Node, NodeId, Stmt, Vertex,
};
use vstd::prelude::*;
use vstd::string::StringExecFns;

use crate::game::{Move, Player};
use crate::minimax::{share, trees_of, DecisionTreeNode, MinimaxDriver, NodeType};
use crate::search::{can_be_walked, DecisionTree};
use crate::text::{push_signed, push_word, signed_decimal};

verus! {

/// A graph in the structures of the DOT language. What it holds goes by the
/// names [`statements`] and [`heading`].
#[verifier::external_type_specification]
#[verifier::external_body]
pub struct ExGraph(Graph);

/// An attribute as text: its name and its value.
pub type AttributeText = (Seq<char>, Seq<char>);

/// What a statement of a graph says.
pub enum Statement {
    /// An attribute of the graph.
    Attribute { name: Seq<char>, value: Seq<char> },
    /// Attributes that all nodes have unless they say otherwise.
    NodeDefaults { attributes: Seq<AttributeText> },
    /// A node: its name, the attribute whose value is written as quoted
    /// text, and its other attributes.
    Node { name: Seq<char>, quoted: AttributeText, attributes: Seq<AttributeText> },
    /// An edge between two nodes, given by their names, with its
    /// attributes.
    Edge { from: Seq<char>, to: Seq<char>, attributes: Seq<AttributeText> },
}

/// The statements of a graph, in their order.
pub uninterp spec fn statements(graph: Graph) -> Seq<Statement>;

/// The heading of a graph: its name, whether it is strict, and whether it
/// is directed.
pub uninterp spec fn heading(graph: Graph) -> (Seq<char>, bool, bool);

/// A list of attributes as text.
pub open spec fn texts_of(attributes: Seq<(String, String)>) -> Seq<AttributeText> {
    Seq::new(attributes.len(), |i: int| (attributes[i].0@, attributes[i].1@))
}

/// A directed graph without statements.
///
/// Builds the variant `Graph::DiGraph` with the given name as a plain
/// identifier, the given strictness and an empty list of statements.
#[verifier::external_body]
fn new_digraph(name: String, strict: bool) -> (graph: Graph)
    ensures
        statements(graph) == Seq::<Statement>::empty(),
        heading(graph) == (name@, strict, true),
{
    Graph::DiGraph { id: Id::Plain(name), strict, stmts: Vec::new() }
}

/// Adds an attribute of the graph.
///
/// Wraps `Graph::add_stmt`, which pushes the statement to the end of the
/// graph's statements, here a `Stmt::Attribute` of two plain identifiers.
#[verifier::external_body]
fn push_attribute(graph: &mut Graph, name: String, value: String)
    ensures
        statements(*final(graph)) == statements(*old(graph)).push(
            Statement::Attribute { name: name@, value: value@ },
        ),
        heading(*final(graph)) == heading(*old(graph)),
{
    graph.add_stmt(Stmt::Attribute(Attribute(Id::Plain(name), Id::Plain(value))))
}

/// Adds attributes for all nodes.
///
/// Wraps `Graph::add_stmt`, which pushes the statement to the end of the
/// graph's statements, here a `Stmt::GAttribute` for nodes whose attributes
/// are pairs of plain identifiers.
#[verifier::external_body]
fn push_node_defaults(graph: &mut Graph, attributes: Vec<(String, String)>)
    ensures
        statements(*final(graph)) == statements(*old(graph)).push(
            Statement::NodeDefaults { attributes: texts_of(attributes@) },
        ),
        heading(*final(graph)) == heading(*old(graph)),
{
    let attributes = attributes.into_iter().map(|(n, v)| Attribute(Id::Plain(n), Id::Plain(v)));
    graph.add_stmt(Stmt::GAttribute(GraphAttributes::Node(attributes.collect())))
}

/// Adds a node.
///
/// Wraps `Graph::add_stmt`, which pushes the statement to the end of the
/// graph's statements, here a `Stmt::Node` whose name is a plain identifier
/// without a port. Its first attribute is `quoted`, the value of which is an
/// escaped identifier; the others are pairs of plain identifiers.
#[verifier::external_body]
fn push_node(
    graph: &mut Graph,
    name: String,
    quoted: (String, String),
    attributes: Vec<(String, String)>,
)
    ensures
        statements(*final(graph)) == statements(*old(graph)).push(
            Statement::Node {
                name: name@,
                quoted: (quoted.0@, quoted.1@),
                attributes: texts_of(attributes@),
            },
        ),
        heading(*final(graph)) == heading(*old(graph)),
{
    let mut all = vec![Attribute(Id::Plain(quoted.0), Id::Escaped(quoted.1))];
    all.extend(attributes.into_iter().map(|(n, v)| Attribute(Id::Plain(n), Id::Plain(v))));
    graph.add_stmt(Stmt::Node(Node::new(NodeId(Id::Plain(name), None), all)))
}

/// Adds an edge.
///
/// Wraps `Graph::add_stmt`, which pushes the statement to the end of the
/// graph's statements, here a `Stmt::Edge` for the pair of the two nodes,
/// named by plain identifiers without ports, whose attributes are pairs of
/// plain identifiers.
#[verifier::external_body]
fn push_edge(graph: &mut Graph, from: String, to: String, attributes: Vec<(String, String)>)
    ensures
        statements(*final(graph)) == statements(*old(graph)).push(
            Statement::Edge { from: from@, to: to@, attributes: texts_of(attributes@) },
        ),
        heading(*final(graph)) == heading(*old(graph)),
{
    let from = Vertex::N(NodeId(Id::Plain(from), None));
    let to = Vertex::N(NodeId(Id::Plain(to), None));
    let attributes = attributes.into_iter().map(|(n, v)| Attribute(Id::Plain(n), Id::Plain(v)));
    graph.add_stmt(Stmt::Edge(Edge { ty: EdgeTy::Pair(from, to), attributes: attributes.collect() }))
}

/// An attribute from two words.
fn attribute(name: &str, value: &str) -> (pair: (String, String))
    ensures
        pair.0@ == name@,
        pair.1@ == value@,
{
    (String::from_str(name), String::from_str(value))
}

/// The statements that every drawing begins with: the font of the graph,
/// and the font and the width of all nodes.
pub open spec fn opening() -> Seq<Statement> {
    seq![
        Statement::Attribute { name: "fontname"@, value: "\"Courier,FreeMono\""@ },
        Statement::NodeDefaults {
            attributes: seq![("fontname"@, "\"Courier,FreeMono\""@), ("width"@, "1.5"@)],
        },
    ]
}

/// The statement that draws a node as a box with the given name, label and
/// color. The label is written in quotes.
pub open spec fn node_statement(name: Seq<char>, label: Seq<char>, color: Seq<char>) -> Statement {
    Statement::Node {
        name,
        quoted: ("label"@, "\""@ + label + "\""@),
        attributes: seq![("shape"@, "box"@), ("color"@, color)],
    }
}

/// The statement that draws an edge between two nodes in the given color;
/// a heavy edge is drawn thicker and pulls its nodes together.
pub open spec fn edge_statement(from: Seq<char>, to: Seq<char>, color: Seq<char>, is_heavy: bool) -> Statement {
    Statement::Edge {
        from,
        to,
        attributes: if is_heavy {
            seq![("color"@, color), ("weight"@, "10"@), ("penwidth"@, "2"@)]
        } else {
            seq![("color"@, color)]
        },
    }
}

/// An empty drawing: a strict directed graph by the name of
/// `decision_tree` with the opening statements.
pub fn make_graph() -> (graph: Graph)
    ensures
        statements(graph) == opening(),
        heading(graph) == ("decision_tree"@, true, true),
{
    let mut graph = new_digraph(String::from_str("decision_tree"), true);
    push_attribute(
        &mut graph,
        String::from_str("fontname"),
        String::from_str("\"Courier,FreeMono\""),
    );
    let mut defaults: Vec<(String, String)> = Vec::new();
    defaults.push(attribute("fontname", "\"Courier,FreeMono\""));
    defaults.push(attribute("width", "1.5"));
    assert(texts_of(defaults@) =~= seq![
        ("fontname"@, "\"Courier,FreeMono\""@),
        ("width"@, "1.5"@),
    ]);
    push_node_defaults(&mut graph, defaults);
    assert(statements(graph) =~= opening());
    graph
}

/// Draws a node as a box with the given name, label and color.
pub fn add_node(graph: &mut Graph, node_id: &str, label: &str, color: &str)
    ensures
        statements(*final(graph)) == statements(*old(graph)).push(
            node_statement(node_id@, label@, color@),
        ),
        heading(*final(graph)) == heading(*old(graph)),
{
    let mut quoted = String::from_str("\"");
    push_word(&mut quoted, label);
    push_word(&mut quoted, "\"");
    let mut attributes: Vec<(String, String)> = Vec::new();
    attributes.push(attribute("shape", "box"));
    attributes.push(attribute("color", color));
    assert(texts_of(attributes@) =~= seq![("shape"@, "box"@), ("color"@, color@)]);
    push_node(
        graph,
        String::from_str(node_id),
        (String::from_str("label"), quoted),
        attributes,
    );
}

/// Draws an edge between two nodes in the given color; a heavy edge is
/// drawn thicker and pulls its nodes together.
pub fn add_edge(graph: &mut Graph, node1: &str, node2: &str, color: &str, is_heavy: bool)
    ensures
        statements(*final(graph)) == statements(*old(graph)).push(
            edge_statement(node1@, node2@, color@, is_heavy),
        ),
        heading(*final(graph)) == heading(*old(graph)),
{
    let mut attributes: Vec<(String, String)> = Vec::new();
    attributes.push(attribute("color", color));
    if is_heavy {
        attributes.push(attribute("weight", "10"));
        attributes.push(attribute("penwidth", "2"));
        assert(texts_of(attributes@) =~= seq![
            ("color"@, color@),
            ("weight"@, "10"@),
            ("penwidth"@, "2"@),
        ]);
    } else {
        assert(texts_of(attributes@) =~= seq![("color"@, color@)]);
    }
    push_edge(graph, String::from_str(node1), String::from_str(node2), attributes);
}

/// The number of moves that are drawn besides the best one at the depth at
/// which all moves are to be drawn.
pub const ALL_ALTERNATIVES: usize = 1000;

/// The color in which a player is drawn.
pub open spec fn color_of(player: Player) -> Seq<char> {
    match player {
        Player::X => "red"@,
        Player::O => "blue"@,
        Player::Neutral => "black"@,
    }
}

/// The color in which a player is drawn: red for `X`, blue for `O`, black
/// for nobody.
pub fn get_player_color(player: Player) -> (color: &'static str)
    ensures
        color@ == color_of(player),
{
    match player {
        Player::X => "red",
        Player::O => "blue",
        Player::Neutral => "black",
    }
}

/// The name of the node that is drawn as number `id` at the given depth.
pub open spec fn name_of(depth: int, id: int) -> Seq<char> {
    "node_"@ + signed_decimal(depth) + "_"@ + signed_decimal(id)
}

/// The name of the node that is drawn as number `id` at the given depth.
pub fn node_name(depth: i32, id: i32) -> (name: String)
    ensures
        name@ == name_of(depth as int, id as int),
{
    let mut name = String::new();
    push_word(&mut name, "node_");
    push_signed(&mut name, depth);
    push_word(&mut name, "_");
    push_signed(&mut name, id);
    assert(name@ =~= name_of(depth as int, id as int));
    name
}

/// The label of a node at the given depth, for a position that reads
/// `position`: the score and the depth, the position, and the window.
pub open spec fn label_of(tree: DecisionTree, depth: int, position: Seq<char>) -> Seq<char> {
    "sc: "@ + signed_decimal(tree.score) + " de: "@ + signed_decimal(depth) + "\n"@ + position
        + "\na: "@ + signed_decimal(tree.alpha) + " b: "@ + signed_decimal(tree.beta)
}

/// The label of a node at the given depth, for a position that reads
/// `position`: the score and the depth, the position, and the window.
pub fn node_label(node: &DecisionTreeNode, depth: i32, position: &str) -> (label: String)
    ensures
        label@ == label_of(node@, depth as int, position@),
{
    let mut label = String::new();
    push_word(&mut label, "sc: ");
    push_signed(&mut label, node.score);
    push_word(&mut label, " de: ");
    push_signed(&mut label, depth);
    push_word(&mut label, "\n");
    push_word(&mut label, position);
    push_word(&mut label, "\na: ");
    push_signed(&mut label, node.alfa);
    push_word(&mut label, " b: ");
    push_signed(&mut label, node.beta);
    assert(label@ =~= label_of(node@, depth as int, position@));
    label
}

/// The number of moves of a node at `depth` that are drawn besides the first
/// one: `ALL_ALTERNATIVES` at the depth `draw_all_at_depth`, `alternatives`
/// elsewhere.
pub fn alternatives_at(depth: i32, draw_all_at_depth: i32, alternatives: usize) -> (count: usize)
    ensures
        count == if draw_all_at_depth == depth {
            ALL_ALTERNATIVES
        } else {
            alternatives
        },
{
    if draw_all_at_depth == depth {
        ALL_ALTERNATIVES
    } else {
        alternatives
    }
}

/// The key by which the moves of a node are ordered for drawing: the lower
/// it is, the better the move is for the side with the given factor.
pub open spec fn draw_key(score: int, factor: int) -> int {
    -score * factor
}

/// The place at which a move with the key `key` goes into `sorted`: behind
/// every move whose key is not higher.
pub open spec fn place_for(sorted: Seq<(Move, DecisionTree)>, factor: int, key: int) -> int
    decreases sorted.len(),
{
    if sorted.len() == 0 || draw_key(sorted.last().1.score, factor) <= key {
        sorted.len() as int
    } else {
        place_for(sorted.drop_last(), factor, key)
    }
}

/// The first `count` of `children` by rising key, those of one key in their
/// order.
pub open spec fn sorted_by_key(children: Seq<(Move, DecisionTree)>, factor: int, count: nat) -> Seq<
    (Move, DecisionTree),
>
    decreases count,
{
    if count == 0 {
        Seq::empty()
    } else {
        let before = sorted_by_key(children, factor, (count - 1) as nat);
        let next = children[count - 1];
        before.insert(place_for(before, factor, draw_key(next.1.score, factor)), next)
    }
}

/// The first place of the move `sought` among the first `count` of
/// `children`.
pub open spec fn first_place_of(children: Seq<(Move, DecisionTree)>, sought: Move, count: nat) -> Option<
    int,
>
    decreases count,
{
    if count == 0 {
        None
    } else {
        match first_place_of(children, sought, (count - 1) as nat) {
            Some(place) => Some(place),
            None => if children[count - 1].0 == sought {
                Some(count - 1)
            } else {
                None
            },
        }
    }
}

/// `children` with the last one moved to the front.
pub open spec fn rotated(children: Seq<(Move, DecisionTree)>) -> Seq<(Move, DecisionTree)> {
    seq![children.last()] + children.drop_last()
}

/// `children` with those at the places `first` and `second` exchanged.
pub open spec fn exchanged(children: Seq<(Move, DecisionTree)>, first: int, second: int) -> Seq<
    (Move, DecisionTree),
> {
    children.update(first, children[second]).update(second, children[first])
}

/// The order in which the moves of a node are drawn: by rising key, with the
/// best move brought to the front. Where the best move is not in front
/// already, the last move is moved to the front and then changes places with
/// the best move.
pub open spec fn drawing_order(tree: DecisionTree, factor: int) -> Seq<(Move, DecisionTree)> {
    let sorted = sorted_by_key(tree.moves, factor, tree.moves.len());
    match tree.best_move {
        Some(best) => match first_place_of(sorted, best, sorted.len()) {
            Some(place) => if place == 0 {
                sorted
            } else {
                exchanged(rotated(sorted), 0, (place + 1) % (sorted.len() as int))
            },
            None => sorted,
        },
        None => sorted,
    }
}

/// The moves of a node that are drawn: the first `1 + alternatives` in the
/// order of drawing, or all of them if there are fewer.
pub open spec fn drawn_moves(tree: DecisionTree, factor: int, alternatives: nat) -> Seq<
    (Move, DecisionTree),
> {
    let order = drawing_order(tree, factor);
    if order.len() <= 1 + alternatives {
        order
    } else {
        order.take(1 + alternatives as int)
    }
}

/// Sorting keeps the number of moves.
pub proof fn lemma_sorted_by_key_len(children: Seq<(Move, DecisionTree)>, factor: int, count: nat)
    requires
        count <= children.len(),
    ensures
        sorted_by_key(children, factor, count).len() == count,
    decreases count,
{
    if count > 0 {
        lemma_sorted_by_key_len(children, factor, (count - 1) as nat);
        lemma_place_for(
            sorted_by_key(children, factor, (count - 1) as nat),
            factor,
            draw_key(children[count - 1].1.score, factor),
        );
    }
}

/// The place for a key lies within the list or at its end; the moves from
/// there on have higher keys, the move before it has none.
pub proof fn lemma_place_for(sorted: Seq<(Move, DecisionTree)>, factor: int, key: int)
    ensures
        0 <= place_for(sorted, factor, key) <= sorted.len(),
        forall|i: int|
            place_for(sorted, factor, key) <= i < sorted.len() ==> draw_key(
                (#[trigger] sorted[i]).1.score,
                factor,
            ) > key,
        place_for(sorted, factor, key) > 0 ==> draw_key(
            sorted[place_for(sorted, factor, key) - 1].1.score,
            factor,
        ) <= key,
    decreases sorted.len(),
{
    if sorted.len() == 0 || draw_key(sorted.last().1.score, factor) <= key {
    } else {
        lemma_place_for(sorted.drop_last(), factor, key);
        assert forall|i: int| place_for(sorted, factor, key) <= i < sorted.len() implies draw_key(
            (#[trigger] sorted[i]).1.score,
            factor,
        ) > key by {
            if i < sorted.len() - 1 {
                assert(sorted.drop_last()[i] == sorted[i]);
            }
        }
    }
}

/// The key by which a move with the given score is ordered for drawing.
fn key_of(score: i32, factor: i32) -> (key: i64)
    ensures
        key == draw_key(score as int, factor as int),
{
    assert(-0x4000_0000_0000_0000 <= (-(score as int)) * (factor as int) <= 0x4000_0000_0000_0000)
        by (nonlinear_arith)
        requires
            -0x8000_0000 <= score <= 0x7fff_ffff,
            -0x8000_0000 <= factor <= 0x7fff_ffff,
    ;
    -(score as i64) * (factor as i64)
}

impl DecisionTreeNode {
    /// The moves of the node that are drawn, for a side to move with the
    /// given factor: at most `1 + alternatives`, the best move first, the
    /// others by falling value for that side.
    pub fn moves_to_draw(&self, score_factor: i32, alternatives: usize) -> (moves: Vec<
        (Move, NodeType),
    >)
        ensures
            trees_of(moves@) == drawn_moves(self@, score_factor as int, alternatives as nat),
    {
        let ghost factor = score_factor as int;
        let mut sorted: Vec<(Move, NodeType)> = Vec::new();
        let mut k: usize = 0;
        assert(trees_of(sorted@) =~= sorted_by_key(self@.moves, factor, 0));
        while k < self.moves.len()
            invariant
                k <= self.moves@.len(),
                self@.moves.len() == self.moves@.len(),
                factor == score_factor,
                sorted@.len() == k,
                trees_of(sorted@) == sorted_by_key(self@.moves, factor, k as nat),
            decreases self.moves@.len() - k,
        {
            let entry = &self.moves[k];
            let next: (Move, NodeType) = (entry.0, share(&entry.1));
            let key: i64 = key_of(next.1.score, score_factor);
            let ghost before = trees_of(sorted@);
            let mut place: usize = sorted.len();
            assert(before.take(place as int) =~= before);
            while place > 0 && key_of(sorted[place - 1].1.score, score_factor) > key
                invariant
                    place <= sorted@.len(),
                    before == trees_of(sorted@),
                    factor == score_factor,
                    place_for(before, factor, key as int) == place_for(
                        before.take(place as int),
                        factor,
                        key as int,
                    ),
                decreases place,
            {
                proof {
                    let head = before.take(place as int);
                    assert(head.last() == before[place - 1]);
                    assert(head.drop_last() =~= before.take(place - 1));
                }
                place = place - 1;
            }
            proof {
                let head = before.take(place as int);
                if place > 0 {
                    assert(head.last() == before[place - 1]);
                }
                assert(place_for(before, factor, key as int) == place);
                assert(self@.moves[k as int] == (next.0, next.1@));
            }
            sorted.insert(place, next);
            assert(trees_of(sorted@) =~= before.insert(place as int, (next.0, next.1@)));
            k = k + 1;
        }
        let ghost in_order = trees_of(sorted@);
        let count = sorted.len();
        match self.best_move {
            Some(best) => {
                let mut place: usize = 0;
                let mut found = false;
                while place < count && !found
                    invariant
                        place <= count,
                        count == sorted@.len(),
                        in_order == trees_of(sorted@),
                        !found ==> first_place_of(in_order, best, place as nat) is None,
                        found ==> place < count && first_place_of(in_order, best, count as nat)
                            == Some(place as int),
                    decreases
                            if found {
                                0int
                            } else {
                                1int
                            },
                            count - place,
                {
                    assert(in_order[place as int].0 == sorted@[place as int].0);
                    if sorted[place].0.0 == best.0 && sorted[place].0.1 == best.1 {
                        found = true;
                        proof {
                            lemma_first_place_stays(in_order, best, (place + 1) as nat, count as nat);
                        }
                    } else {
                        place = place + 1;
                    }
                }
                if found && place != 0 {
                    let last = sorted.pop().unwrap();
                    sorted.insert(0, last);
                    assert(trees_of(sorted@) =~= rotated(in_order));
                    let other: usize = if place + 1 == count {
                        0
                    } else {
                        place + 1
                    };
                    assert(other == (place + 1) % (count as int)) by (nonlinear_arith)
                        requires
                            0 < place < count,
                            other == if place + 1 == count {
                                0
                            } else {
                                place + 1
                            },
                    ;
                    if other != 0 {
                        let moved = sorted.remove(other);
                        let front = sorted.remove(0);
                        sorted.insert(0, moved);
                        sorted.insert(other, front);
                    }
                    assert(trees_of(sorted@) =~= exchanged(rotated(in_order), 0, other as int));
                }
            },
            None => {},
        }
        proof {
            lemma_sorted_by_key_len(self@.moves, factor, self@.moves.len());
        }
        let ghost order = trees_of(sorted@);
        assert(order == drawing_order(self@, factor));
        if alternatives < count {
            sorted.truncate(alternatives + 1);
            assert(trees_of(sorted@) =~= order.take(1 + alternatives));
        }
        sorted
    }
}

/// The first place of a move among the first moves of a list, once there is
/// one, is its first place among more of them.
pub proof fn lemma_first_place_stays(
    children: Seq<(Move, DecisionTree)>,
    sought: Move,
    count: nat,
    more: nat,
)
    requires
        first_place_of(children, sought, count) is Some,
        count <= more,
    ensures
        first_place_of(children, sought, more) == first_place_of(children, sought, count),
    decreases more,
{
    if count < more {
        lemma_first_place_stays(children, sought, count, (more - 1) as nat);
    }
}

/// The depth at which all moves of a node are drawn in a drawing made by
/// [`graph_tree`].
pub const DRAW_ALL_AT_DEPTH: i32 = 4;

/// How much of a tree is drawn.
pub struct DrawingRules {
    /// The depth below which nothing is drawn.
    pub max_depth: int,
    /// The number of moves of a node that are drawn besides the first one.
    pub alternatives: nat,
    /// The depth at which all moves of a node are drawn.
    pub draw_all_at_depth: int,
}

/// What the drawing of a node and of what lies below it comes to.
pub struct Drawn {
    /// The statements that draw it.
    pub statements: Seq<Statement>,
    /// The number that the next node gets.
    pub next_id: int,
    /// The name of the node, if it was drawn.
    pub name: Option<Seq<char>>,
}

/// The number after `id`, as far as the numbers go.
pub open spec fn number_after(id: int) -> int {
    if id < i32::MAX {
        id + 1
    } else {
        id
    }
}

/// The drawing of the node `tree` of the position `game` at `depth`, when
/// `id` is the number of the next node.
///
/// Nothing is drawn below the depth limit. A node is drawn as a box in the
/// color of the winner, labelled with its score, its depth, the position and
/// its window, and after it the moves that [`drawn_moves`] picks, see
/// [`drawn_children`].
pub open spec fn drawn_node<G: MinimaxDriver>(
    tree: DecisionTree,
    game: G,
    depth: int,
    id: int,
    rules: DrawingRules,
) -> Drawn
    decreases rules.max_depth - depth + 1, 1nat, 0nat,
{
    if depth > rules.max_depth {
        Drawn { statements: Seq::empty(), next_id: id, name: None }
    } else {
        let name = name_of(depth, id);
        let node = node_statement(
            name,
            label_of(tree, depth, game.spec_text()),
            color_of(game.spec_winner()),
        );
        if tree.moves.len() == 0 {
            Drawn { statements: seq![node], next_id: id, name: Some(name) }
        } else {
            let picks = drawn_moves(
                tree,
                game.spec_current_player().spec_score_multiplier() as int,
                if rules.draw_all_at_depth == depth {
                    ALL_ALTERNATIVES as nat
                } else {
                    rules.alternatives
                },
            );
            let below = drawn_children(tree, game, picks, 0, depth, id, name, rules);
            Drawn {
                statements: seq![node] + below.statements,
                next_id: below.next_id,
                name: Some(name),
            }
        }
    }
}

/// The drawing of the moves `picks` of the node `tree`, from the one of
/// index `from` on, when `id` is the number of the next node and `parent` is
/// the name of the node.
///
/// Each move is drawn as the node it leads to, one level deeper, and an edge
/// to that node if it was drawn: heavy and in the color of the side to move
/// for the best move, black for any other. Each move takes a number, drawn
/// or not.
pub open spec fn drawn_children<G: MinimaxDriver>(
    tree: DecisionTree,
    game: G,
    picks: Seq<(Move, DecisionTree)>,
    from: nat,
    depth: int,
    id: int,
    parent: Seq<char>,
    rules: DrawingRules,
) -> Drawn
    decreases rules.max_depth - depth + 1, 0nat, picks.len() - from,
{
    if depth > rules.max_depth || from >= picks.len() {
        Drawn { statements: Seq::empty(), next_id: id, name: None }
    } else {
        let (next_move, child) = picks[from as int];
        let below = drawn_node(child, game.spec_apply_move(next_move), depth + 1, id, rules);
        let is_best = tree.best_move == Some(next_move);
        let edge = match below.name {
            Some(to) => seq![
                edge_statement(
                    parent,
                    to,
                    if is_best {
                        color_of(game.spec_current_player())
                    } else {
                        "black"@
                    },
                    is_best,
                ),
            ],
            None => Seq::empty(),
        };
        let rest = drawn_children(
            tree,
            game,
            picks,
            from + 1,
            depth,
            number_after(below.next_id),
            parent,
            rules,
        );
        Drawn {
            statements: below.statements + edge + rest.statements,
            next_id: rest.next_id,
            name: None,
        }
    }
}

/// Each of the first moves of a list that are sorted is one of those moves.
pub proof fn lemma_sorted_are_children(
    children: Seq<(Move, DecisionTree)>,
    factor: int,
    count: nat,
)
    requires
        count <= children.len(),
    ensures
        forall|k: int|
            0 <= k < sorted_by_key(children, factor, count).len() ==> children.contains(
                #[trigger] sorted_by_key(children, factor, count)[k],
            ),
    decreases count,
{
    if count > 0 {
        let before = sorted_by_key(children, factor, (count - 1) as nat);
        let next = children[count - 1];
        let place = place_for(before, factor, draw_key(next.1.score, factor));
        lemma_sorted_are_children(children, factor, (count - 1) as nat);
        lemma_place_for(before, factor, draw_key(next.1.score, factor));
        let after = before.insert(place, next);
        assert forall|k: int| 0 <= k < after.len() implies children.contains(
            #[trigger] after[k],
        ) by {
            if k < place {
                assert(after[k] == before[k]);
            } else if k == place {
                assert(after[k] == children[count - 1]);
            } else {
                assert(after[k] == before[k - 1]);
            }
        }
    }
}

/// Each move that is drawn is one of the moves of the node, with the tree
/// that it leads to.
pub proof fn lemma_drawn_moves_are_children(tree: DecisionTree, factor: int, alternatives: nat)
    ensures
        forall|k: int|
            0 <= k < drawn_moves(tree, factor, alternatives).len() ==> tree.moves.contains(
                #[trigger] drawn_moves(tree, factor, alternatives)[k],
            ),
{
    let sorted = sorted_by_key(tree.moves, factor, tree.moves.len());
    lemma_sorted_are_children(tree.moves, factor, tree.moves.len());
    lemma_sorted_by_key_len(tree.moves, factor, tree.moves.len());
    let order = drawing_order(tree, factor);
    assert forall|k: int| 0 <= k < order.len() implies tree.moves.contains(#[trigger] order[k]) by {
        if order != sorted {
            let best = tree.best_move->0;
            let place = first_place_of(sorted, best, sorted.len())->0;
            let turned = rotated(sorted);
            let other = (place + 1) % (sorted.len() as int);
            assert(0 <= other < sorted.len()) by (nonlinear_arith)
                requires
                    other == (place + 1) % (sorted.len() as int),
                    sorted.len() > 0,
            ;
            assert forall|n: int| 0 <= n < turned.len() implies tree.moves.contains(
                #[trigger] turned[n],
            ) by {
                if n == 0 {
                    assert(turned[n] == sorted[sorted.len() - 1]);
                } else {
                    assert(turned[n] == sorted[n - 1]);
                }
            }
            if k == 0 {
                assert(order[k] == turned[other]);
            } else if k == other {
                assert(order[k] == turned[0]);
            } else {
                assert(order[k] == turned[k]);
            }
        }
    }
    let picks = drawn_moves(tree, factor, alternatives);
    assert forall|k: int| 0 <= k < picks.len() implies tree.moves.contains(#[trigger] picks[k]) by {
        assert(picks[k] == order[k]);
    }
}

/// Draws the node `decision_tree` of the position `game` at `depth`, and
/// what lies below it, into `graph`, and returns the name of the node if it
/// was drawn. The nodes are numbered from `node_id` on.
pub fn graph_node<G: MinimaxDriver>(
    graph: &mut Graph,
    decision_tree: &NodeType,
    game: &G,
    depth: i32,
    max_depth: i32,
    node_id: &mut i32,
    alternatives_to_draw: usize,
    draw_all_at_depth: i32,
) -> (name: Option<String>)
    requires
        can_be_walked(decision_tree@, *game),
    ensures
        ({
            let drawing = drawn_node(
                decision_tree@,
                *game,
                depth as int,
                *old(node_id) as int,
                DrawingRules {
                    max_depth: max_depth as int,
                    alternatives: alternatives_to_draw as nat,
                    draw_all_at_depth: draw_all_at_depth as int,
                },
            );
            &&& statements(*final(graph)) == statements(*old(graph)) + drawing.statements
            &&& heading(*final(graph)) == heading(*old(graph))
            &&& *final(node_id) == drawing.next_id
            &&& match name {
                Some(name) => drawing.name == Some(name@),
                None => drawing.name is None,
            }
        }),
    decreases max_depth - depth,
{
    let ghost rules = DrawingRules {
        max_depth: max_depth as int,
        alternatives: alternatives_to_draw as nat,
        draw_all_at_depth: draw_all_at_depth as int,
    };
    let ghost tree = decision_tree@;
    let ghost first_id = *node_id as int;
    let ghost before = statements(*graph);
    if depth > max_depth {
        assert(statements(*graph) =~= before + Seq::<Statement>::empty());
        return None;
    }
    let color_node = get_player_color(game.get_winner());
    let name = node_name(depth, *node_id);
    let position = game.describe();
    let label = node_label(decision_tree, depth, position.as_str());
    add_node(graph, name.as_str(), label.as_str(), color_node);
    let ghost node = node_statement(name@, label@, color_node@);
    if decision_tree.moves.len() == 0 {
        assert(tree.moves.len() == 0);
        assert(statements(*graph) =~= before + seq![node]);
        return Some(name);
    }
    assert(tree.moves.len() == decision_tree.moves@.len());
    let score_factor = game.get_current_player().score_multiplier();
    let picks = decision_tree.moves_to_draw(
        score_factor,
        alternatives_at(depth, draw_all_at_depth, alternatives_to_draw),
    );
    let ghost picked = trees_of(picks@);
    let ghost all = drawn_children(tree, *game, picked, 0, depth as int, first_id, name@, rules);
    let ghost mut done: Seq<Statement> = Seq::empty();
    proof {
        lemma_drawn_moves_are_children(
            tree,
            score_factor as int,
            if draw_all_at_depth == depth {
                ALL_ALTERNATIVES as nat
            } else {
                alternatives_to_draw as nat
            },
        );
        assert(statements(*graph) =~= before + seq![node] + done);
    }
    let mut k: usize = 0;
    while k < picks.len()
        invariant
            k <= picks@.len(),
            depth <= max_depth,
            picked == trees_of(picks@),
            forall|n: int| 0 <= n < picked.len() ==> tree.moves.contains(#[trigger] picked[n]),
            tree == decision_tree@,
            can_be_walked(tree, *game),
            rules == (DrawingRules {
                max_depth: max_depth as int,
                alternatives: alternatives_to_draw as nat,
                draw_all_at_depth: draw_all_at_depth as int,
            }),
            statements(*graph) == before + seq![node] + done,
            heading(*graph) == heading(*old(graph)),
            all.statements == done + drawn_children(
                tree,
                *game,
                picked,
                k as nat,
                depth as int,
                *node_id as int,
                name@,
                rules,
            ).statements,
            all.next_id == drawn_children(
                tree,
                *game,
                picked,
                k as nat,
                depth as int,
                *node_id as int,
                name@,
                rules,
            ).next_id,
        decreases picks@.len() - k,
    {
        let next_move: Move = picks[k].0;
        let ghost child = picked[k as int].1;
        let ghost id_here = *node_id as int;
        let ghost graph_here = statements(*graph);
        proof {
            assert(picked[k as int] == (next_move, picks@[k as int].1@));
            assert(tree.moves.contains(picked[k as int]));
            let i = choose|i: int| 0 <= i < tree.moves.len() && tree.moves[i] == picked[k as int];
            assert(game.spec_possible_moves().contains(tree.moves[i].0));
            assert(can_be_walked(child, game.spec_apply_move(next_move)));
        }
        let is_best = match decision_tree.best_move {
            Some(best) => best.0 == next_move.0 && best.1 == next_move.1,
            None => false,
        };
        let ghost below = drawn_node(
            child,
            game.spec_apply_move(next_move),
            depth + 1,
            id_here,
            rules,
        );
        let child_name = if depth < max_depth {
            let new_game = game.apply_move(next_move);
            graph_node(
                graph,
                &picks[k].1,
                &new_game,
                depth + 1,
                max_depth,
                node_id,
                alternatives_to_draw,
                draw_all_at_depth,
            )
        } else {
            assert(statements(*graph) =~= graph_here + below.statements);
            None
        };
        let ghost edge: Seq<Statement> = match below.name {
            Some(to) => seq![
                edge_statement(
                    name@,
                    to,
                    if is_best {
                        color_of(game.spec_current_player())
                    } else {
                        "black"@
                    },
                    is_best,
                ),
            ],
            None => Seq::empty(),
        };
        match child_name {
            Some(child_name) => {
                let color_edge = if is_best {
                    get_player_color(game.get_current_player())
                } else {
                    "black"
                };
                add_edge(graph, name.as_str(), child_name.as_str(), color_edge, is_best);
            },
            None => {},
        }
        if *node_id < i32::MAX {
            *node_id = *node_id + 1;
        }
        proof {
            assert(statements(*graph) =~= before + seq![node] + (done + below.statements + edge));
            done = done + below.statements + edge;
        }
        k = k + 1;
    }
    proof {
        assert(all.statements =~= done);
        assert(statements(*graph) =~= before + (seq![node] + all.statements));
    }
    Some(name)
}

/// Draws the decision tree `decision_tree` of the position `game` into
/// `graph`: down to the depth `max_depth`, of each node the best move and
/// `alternatives_to_draw` more, and all moves at the depth
/// `DRAW_ALL_AT_DEPTH`.
pub fn graph_tree<G: MinimaxDriver>(
    graph: &mut Graph,
    decision_tree: &NodeType,
    game: &G,
    max_depth: i32,
    alternatives_to_draw: usize,
)
    requires
        can_be_walked(decision_tree@, *game),
    ensures
        statements(*final(graph)) == statements(*old(graph)) + drawn_node(
            decision_tree@,
            *game,
            0,
            0,
            DrawingRules {
                max_depth: max_depth as int,
                alternatives: alternatives_to_draw as nat,
                draw_all_at_depth: DRAW_ALL_AT_DEPTH as int,
            },
        ).statements,
        heading(*final(graph)) == heading(*old(graph)),
{
    let mut node_id: i32 = 0;
    graph_node(
        graph,
        decision_tree,
        game,
        0,
        max_depth,
        &mut node_id,
        alternatives_to_draw,
        DRAW_ALL_AT_DEPTH,
    );
}

} // verus!
