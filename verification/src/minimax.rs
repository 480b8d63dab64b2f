//! The search engine: the contract a game has to meet, the decision tree
//! that a search returns, and the engine with its cache and counters.

use std::collections::HashMap;
use std::rc::Rc;
use vstd::prelude::*;

use crate::game::{Move, Player};
use crate::search::{
    blend_score, can_be_walked, child_among, expand, leaf, moves_text, search, search_root,
    CachedTree, DecisionTree, Expansion,
};
use crate::text::{push_move, push_option_move, push_signed, push_word};

verus! {

/// The fingerprint of a position: an integer that tells positions apart.
pub type GameHash = u128;

/// The value of a position. Positive is good for `X`, negative for `O`.
pub type Score = i32;

/// The score of a game that `X` has won; a game that `O` has won has the
/// negative of it.
pub const DECISIVE_SCORE: Score = 1000;

/// A decision tree node that its parent and the engine's cache share.
pub type NodeType = Rc<DecisionTreeNode>;

/// What a game says of one of its positions.
#[derive(Clone, Copy, Debug)]
pub struct EvaluationScore {
    /// The value of the position.
    pub score: Score,
    /// Whether the game is over, so that `score` is final.
    pub is_terminal: bool,
}

/// What a game has to offer to be searched.
///
/// Every executable method has a specification function of the same
/// meaning, and the search is defined over those. A game promises that two
/// positions with one fingerprint are the same to the search.
pub trait MinimaxDriver: Sized {
    /// Whether the position can be played from.
    spec fn well_formed(&self) -> bool;

    /// The side that has won, `Player::Neutral` if none has.
    spec fn spec_winner(&self) -> Player;

    /// The evaluation of the position.
    spec fn spec_evaluate_score(&self) -> EvaluationScore;

    /// The moves that can be played, in the order in which they are tried.
    spec fn spec_possible_moves(&self) -> Seq<Move>;

    /// The position after `next_move`.
    spec fn spec_apply_move(&self, next_move: Move) -> Self;

    /// The fingerprint of the position.
    spec fn spec_hash(&self) -> GameHash;

    /// The side to move.
    spec fn spec_current_player(&self) -> Player;

    /// The position as text, for a reader.
    spec fn spec_text(&self) -> Seq<char>;

    /// A move that can be played leads to a position that can be played
    /// from.
    proof fn lemma_move_keeps_well_formed(&self, next_move: Move)
        requires
            self.well_formed(),
            self.spec_possible_moves().contains(next_move),
        ensures
            self.spec_apply_move(next_move).well_formed(),
    ;

    /// Two positions with one fingerprint have the same evaluation, the same
    /// moves and the same side to move, and each move leads them to
    /// positions that again have one fingerprint.
    proof fn lemma_fingerprint_decides(&self, other: &Self)
        requires
            self.well_formed(),
            other.well_formed(),
            self.spec_hash() == other.spec_hash(),
        ensures
            self.spec_evaluate_score() == other.spec_evaluate_score(),
            self.spec_possible_moves() == other.spec_possible_moves(),
            self.spec_current_player() == other.spec_current_player(),
            forall|next_move: Move| #[trigger]
                self.spec_possible_moves().contains(next_move) ==> self.spec_apply_move(
                    next_move,
                ).spec_hash() == other.spec_apply_move(next_move).spec_hash(),
    ;

    /// Whether the position can be played from.
    fn is_well_formed(&self) -> (valid: bool)
        ensures
            valid == self.well_formed(),
    ;

    /// The side that has won, `Player::Neutral` if none has.
    fn get_winner(&self) -> (winner: Player)
        requires
            self.well_formed(),
        ensures
            winner == self.spec_winner(),
    ;

    /// The score of the position, and whether it is final.
    fn evaluate_score(&self) -> (evaluation: EvaluationScore)
        requires
            self.well_formed(),
        ensures
            evaluation == self.spec_evaluate_score(),
    ;

    /// The moves that can be played, in the order in which they are tried.
    fn get_possible_moves(&self) -> (moves: Vec<Move>)
        requires
            self.well_formed(),
        ensures
            moves@ == self.spec_possible_moves(),
    ;

    /// The position after `next_move`, which is one of the moves that can be
    /// played.
    fn apply_move(&self, next_move: Move) -> (next: Self)
        requires
            self.well_formed(),
            self.spec_possible_moves().contains(next_move),
        ensures
            next == self.spec_apply_move(next_move),
    ;

    /// The fingerprint of the position.
    fn get_hash(&self) -> (fingerprint: GameHash)
        requires
            self.well_formed(),
        ensures
            fingerprint == self.spec_hash(),
    ;

    /// The side to move.
    fn get_current_player(&self) -> (player: Player)
        ensures
            player == self.spec_current_player(),
    ;

    /// The position as text, for a reader.
    fn describe(&self) -> (text: String)
        ensures
            text@ == self.spec_text(),
    ;

    /// Whether play has come to an end: a side has won or no move is left.
    fn has_ended(&self) -> (ended: bool)
        requires
            self.well_formed(),
        ensures
            ended == (self.spec_winner() != Player::Neutral || self.spec_possible_moves().len()
                == 0),
    ;
}

/// A part of a whole, `numerator / denominator`.
#[derive(Clone, Copy, Debug)]
pub struct Fraction {
    pub numerator: u16,
    pub denominator: u16,
}

impl Fraction {
    /// Whether the fraction lies between zero and one, both included.
    pub open spec fn is_proper(&self) -> bool {
        0 < self.denominator && self.numerator <= self.denominator
    }
}

/// How the engine searches.
#[derive(Clone, Copy, Debug)]
pub struct MinimaxParams {
    /// The number of plies below the root at which positions are no longer
    /// expanded.
    pub max_depth: u32,
    /// The factor by which a node's score shrinks on its way up, per ply: of
    /// two wins the nearer one counts more. In `(0, 1]`.
    pub depth_factor: Fraction,
    /// The weight of the mean of all examined moves in a node's score, the
    /// rest being the weight of the best move. In `[0, 1]`. With a weight
    /// above zero a score is no longer the exact value of the game: a move
    /// counts for more if the moves around it are good too, which pays when
    /// the other side errs.
    pub weight_suboptimal: Fraction,
    /// Whether a node stops examining moves once its window has closed.
    pub pruning: bool,
}

impl MinimaxParams {
    /// Whether the two fractions lie in their ranges: the depth factor above
    /// zero and up to one, the weight from zero to one.
    pub open spec fn well_formed(&self) -> bool {
        &&& self.depth_factor.is_proper()
        &&& self.depth_factor.numerator > 0
        &&& self.weight_suboptimal.is_proper()
    }

    /// The parameters that an engine has unless others are given: twelve
    /// plies deep, each ply taking a hundredth off the score, the best move
    /// alone deciding a node's score, with pruning.
    pub open spec fn standard() -> MinimaxParams {
        MinimaxParams {
            max_depth: 12,
            depth_factor: Fraction { numerator: 99, denominator: 100 },
            weight_suboptimal: Fraction { numerator: 0, denominator: 1 },
            pruning: true,
        }
    }

    /// Whether the two fractions lie in their ranges.
    pub fn is_well_formed(&self) -> (valid: bool)
        ensures
            valid == self.well_formed(),
    {
        self.depth_factor.denominator > 0 && self.depth_factor.numerator
            <= self.depth_factor.denominator && self.depth_factor.numerator > 0
            && self.weight_suboptimal.denominator > 0 && self.weight_suboptimal.numerator
            <= self.weight_suboptimal.denominator
    }
}

impl Default for MinimaxParams {
    /// Twelve plies deep, each ply taking a hundredth off the score, the
    /// best move alone deciding a node's score, with pruning.
    fn default() -> (params: Self)
        ensures
            params == Self::standard(),
    {
        MinimaxParams {
            max_depth: 12,
            depth_factor: Fraction { numerator: 99, denominator: 100 },
            weight_suboptimal: Fraction { numerator: 0, denominator: 1 },
            pruning: true,
        }
    }
}

/// The result of searching one position.
pub struct DecisionTreeNode {
    /// The value of the position.
    pub score: Score,
    /// The moves that were examined, in the order of their examination, each
    /// with the node of the position it leads to. The order is part of the
    /// result: of the best moves the last one is the best move. A move that
    /// was examined twice is looked up at its last examination, see
    /// [`DecisionTreeNode::child`].
    pub moves: Vec<(Move, NodeType)>,
    /// The move to play, if any was examined.
    pub best_move: Option<Move>,
    /// The lower bound of the window when the node was finished.
    pub alfa: Score,
    /// The upper bound of the window when the node was finished.
    pub beta: Score,
}

/// The tree that `node` stands for.
pub open spec fn tree_of(node: DecisionTreeNode) -> DecisionTree
    decreases node,
{
    DecisionTree {
        score: node.score as int,
        moves: Seq::new(
            node.moves@.len(),
            |i: int|
                if 0 <= i < node.moves@.len() {
                    (node.moves@[i].0, tree_of(*node.moves@[i].1))
                } else {
                    arbitrary()
                },
        ),
        best_move: node.best_move,
        alpha: node.alfa as int,
        beta: node.beta as int,
    }
}

impl View for DecisionTreeNode {
    type V = DecisionTree;

    open spec fn view(&self) -> DecisionTree {
        tree_of(*self)
    }
}

impl Default for DecisionTreeNode {
    /// A leaf with the score zero.
    fn default() -> (node: Self)
        ensures
            node@ == leaf(0),
    {
        let node = DecisionTreeNode {
            score: 0,
            moves: Vec::new(),
            best_move: None,
            alfa: 0,
            beta: 0,
        };
        assert(node@.moves =~= Seq::empty());
        node
    }
}

impl DecisionTreeNode {
    /// The move to play, if any was examined.
    pub fn get_best_move(&self) -> (best_move: Option<Move>)
        ensures
            best_move == self@.best_move,
    {
        self.best_move
    }

    /// The node as text: its score, its best move, and the moves that it has
    /// examined. The nodes that the moves lead to are left out, so the text
    /// stays short however deep the tree is.
    pub fn describe(&self) -> (text: String)
        ensures
            text@ == self@.text(),
    {
        let mut text = String::new();
        push_word(&mut text, "DecisionTreeNode { score: ");
        push_signed(&mut text, self.score);
        push_word(&mut text, ", best_move: ");
        push_option_move(&mut text, self.best_move);
        push_word(&mut text, ", moves: [");
        let ghost head = text@;
        let mut k: usize = 0;
        assert(text@ =~= head + moves_text(self@.moves, 0));
        while k < self.moves.len()
            invariant
                k <= self.moves@.len(),
                self@.moves.len() == self.moves@.len(),
                text@ == head + moves_text(self@.moves, k as nat),
            decreases self.moves@.len() - k,
        {
            if k > 0 {
                push_word(&mut text, ", ");
            }
            assert(self@.moves[k as int].0 == self.moves@[k as int].0);
            push_move(&mut text, self.moves[k].0);
            k = k + 1;
            assert(text@ =~= head + moves_text(self@.moves, k as nat));
        }
        push_word(&mut text, "] }");
        assert(text@ =~= self@.text());
        text
    }

    /// Whether the tree below the node can be walked from `game`: each of
    /// its moves can be played in the position that it is made in.
    pub fn can_be_walked_from<G: MinimaxDriver>(&self, game: &G) -> (walkable: bool)
        ensures
            walkable == can_be_walked(self@, *game),
        decreases self,
    {
        if !game.is_well_formed() {
            return false;
        }
        let moves = game.get_possible_moves();
        let mut k: usize = 0;
        while k < self.moves.len()
            invariant
                k <= self.moves@.len(),
                self@.moves.len() == self.moves@.len(),
                game.well_formed(),
                moves@ == game.spec_possible_moves(),
                forall|i: int|
                    0 <= i < k ==> {
                        &&& game.spec_possible_moves().contains((#[trigger] self@.moves[i]).0)
                        &&& can_be_walked(self@.moves[i].1, game.spec_apply_move(self@.moves[i].0))
                    },
            decreases self.moves@.len() - k,
        {
            let entry = &self.moves[k];
            assert(self@.moves[k as int] == (entry.0, entry.1@));
            if !contains_move(&moves, entry.0) {
                return false;
            }
            let next = game.apply_move(entry.0);
            if !entry.1.can_be_walked_from(&next) {
                return false;
            }
            k = k + 1;
        }
        true
    }

    /// The node that the move `next_move` leads to: that of its last
    /// examination, if it was examined at all.
    pub fn child(&self, next_move: Move) -> (node: Option<&NodeType>)
        ensures
            match node {
                Some(node) => self@.child(next_move) == Some(node@),
                None => self@.child(next_move) is None,
            },
    {
        let mut i: usize = self.moves.len();
        assert(self@.moves.take(i as int) =~= self@.moves);
        while i > 0
            invariant
                i <= self.moves@.len(),
                self@.moves.len() == self.moves@.len(),
                self@.child(next_move) == child_among(self@.moves.take(i as int), next_move),
            decreases i,
        {
            i = i - 1;
            let entry = &self.moves[i];
            proof {
                let seen = self@.moves.take(i + 1);
                assert(seen.drop_last() =~= self@.moves.take(i as int));
                assert(seen.last() == (entry.0, entry.1@));
            }
            if entry.0.0 == next_move.0 && entry.0.1 == next_move.1 {
                return Some(&entry.1);
            }
        }
        None
    }
}

/// Whether `sought` is one of `moves`.
pub fn contains_move(moves: &Vec<Move>, sought: Move) -> (found: bool)
    ensures
        found == moves@.contains(sought),
{
    let mut k: usize = 0;
    while k < moves.len()
        invariant
            k <= moves@.len(),
            forall|i: int| 0 <= i < k ==> moves@[i] != sought,
        decreases moves@.len() - k,
    {
        if moves[k].0 == sought.0 && moves[k].1 == sought.1 {
            return true;
        }
        k = k + 1;
    }
    false
}

/// The trees that a list of children stands for, move by move.
pub open spec fn trees_of(children: Seq<(Move, NodeType)>) -> Seq<(Move, DecisionTree)> {
    Seq::new(children.len(), |i: int| (children[i].0, children[i].1@))
}

/// A second handle on a shared value.
///
/// Wraps `Rc::clone`, which returns a pointer to the same allocation: the
/// value behind the new handle is the value behind the old one.
#[verifier::external_body]
pub(crate) fn share<T>(handle: &Rc<T>) -> (other: Rc<T>)
    ensures
        other == *handle,
{
    Rc::clone(handle)
}

/// `count`, or the largest `u128` if `count` is larger than that.
pub open spec fn saturated(count: int) -> u128 {
    if count > u128::MAX {
        u128::MAX
    } else {
        count as u128
    }
}

/// What the cache holds for one fingerprint: the node, the depth at which
/// its position was searched, and that position.
struct CacheEntry<G> {
    node: NodeType,
    depth: u32,
    origin: Ghost<G>,
}

/// The search engine: its parameters, its cache and its counters.
///
/// The cache takes the node of every position that a search looks at. It
/// is consulted for the root of a search only, where the window is always the
/// full one, and answers only with a node that was itself the root of a
/// search. A node that was found under a narrower window, or nearer to the
/// depth limit, is therefore never taken for the value of a position.
pub struct Minimax<G: MinimaxDriver> {
    params: MinimaxParams,
    cache: HashMap<GameHash, CacheEntry<G>>,
    nodes_examined_total: u128,
    nodes_examined_last_run: u128,
}

impl<G: MinimaxDriver> Minimax<G> {
    /// The parameters that the engine was made with.
    pub closed spec fn params(&self) -> MinimaxParams {
        self.params
    }

    /// The number of internal nodes visited since the engine was made.
    pub closed spec fn total(&self) -> u128 {
        self.nodes_examined_total
    }

    /// The number of internal nodes visited by the latest search.
    pub closed spec fn last_run(&self) -> u128 {
        self.nodes_examined_last_run
    }

    /// What the cache holds: for each fingerprint the depth and the tree of
    /// the position last looked at under it.
    pub closed spec fn cached(&self) -> Map<GameHash, CachedTree> {
        Map::new(
            |k: GameHash| self.cache@.contains_key(k),
            |k: GameHash| CachedTree { depth: self.cache@[k].depth as nat, node: self.cache@[k].node@ },
        )
    }

    /// Whether the cache can answer a search that starts at a position with
    /// the given fingerprint.
    pub open spec fn knows_root(&self, fingerprint: GameHash) -> bool {
        self.cached().contains_key(fingerprint) && self.cached()[fingerprint].depth == 0
    }

    /// The invariant of the engine: its parameters are in range, and each
    /// entry of the cache that a search may be answered with is the result of
    /// a search from a position with the entry's fingerprint.
    pub closed spec fn well_formed(&self) -> bool {
        &&& self.params.well_formed()
        &&& self.cache@.dom().finite()
        &&& forall|k: GameHash| #[trigger]
            self.cache@.contains_key(k) && self.cache@[k].depth == 0 ==> {
                let entry = self.cache@[k];
                &&& entry.origin@.well_formed()
                &&& entry.origin@.spec_hash() == k
                &&& entry.node@ == search_root(entry.origin@, self.params).node
            }
    }

    /// What one call of [`Minimax::minimax`] on `game` does: it takes the
    /// engine from `before` to `after` and returns `node`.
    ///
    /// The node is the tree of the search from `game`, whatever the cache
    /// held. If the cache knew the root, nothing is visited and the cache
    /// stays as it was. Otherwise the counters grow by the number of internal
    /// nodes of the tree, and the cache takes what the search wrote.
    pub open spec fn searched(before: Self, game: G, after: Self, node: DecisionTreeNode) -> bool {
        let outcome = search_root(game, before.params());
        let hit = before.knows_root(game.spec_hash());
        &&& after.params() == before.params()
        &&& node@ == outcome.node
        &&& after.knows_root(game.spec_hash())
        &&& after.cached()[game.spec_hash()].node == outcome.node
        &&& after.last_run() == if hit {
            0
        } else {
            saturated(outcome.visited as int)
        }
        &&& after.total() == saturated(before.total() + after.last_run())
        &&& after.cached() == if hit {
            before.cached()
        } else {
            before.cached().union_prefer_right(outcome.cached)
        }
    }
}

/// The bounds that keep the arithmetic of [`blend`] within `i128`, and its
/// result within `i32`.
proof fn lemma_blend_in_range(best: int, sum: int, n: int, wn: int, wd: int, fnum: int, fd: int)
    requires
        0 <= wn <= wd <= 0xffff,
        0 < wd,
        0 < fnum <= fd <= 0xffff,
        1 <= n <= 0xffff_ffff_ffff_ffff,
        -0x8000_0000 <= best <= 0x7fff_ffff,
        -0x8000_0000 * n <= sum <= 0x7fff_ffff * n,
    ensures
        -0x8000_0000 * 0xffff <= best * (wd - wn) <= 0x8000_0000 * 0xffff,
        -0x8000_0000 * 0xffff * 0xffff_ffff_ffff_ffff <= best * (wd - wn) * n <= 0x8000_0000
            * 0xffff * 0xffff_ffff_ffff_ffff,
        -0x8000_0000 * 0xffff * 0xffff_ffff_ffff_ffff <= sum * wn <= 0x8000_0000 * 0xffff
            * 0xffff_ffff_ffff_ffff,
        -0x8000_0000 * 0xffff * 0xffff_ffff_ffff_ffff <= best * (wd - wn) * n + sum * wn
            <= 0x8000_0000 * 0xffff * 0xffff_ffff_ffff_ffff,
        -0x8000_0000 * 0xffff * 0xffff_ffff_ffff_ffff * 0xffff <= (best * (wd - wn) * n + sum
            * wn) * fnum <= 0x8000_0000 * 0xffff * 0xffff_ffff_ffff_ffff * 0xffff,
        0 < wd * n <= 0xffff * 0xffff_ffff_ffff_ffff,
        0 < wd * n * fd <= 0xffff * 0xffff_ffff_ffff_ffff * 0xffff,
        -0x8000_0000 <= crate::search::truncating_div(
            (best * (wd - wn) * n + sum * wn) * fnum,
            wd * n * fd,
        ) <= 0x7fff_ffff,
{
    let rest = wd - wn;
    let first = best * rest;
    assert(-0x8000_0000 * rest <= first <= 0x7fff_ffff * rest) by (nonlinear_arith)
        requires
            first == best * rest,
            0 <= rest,
            -0x8000_0000 <= best <= 0x7fff_ffff,
    ;
    assert(-0x8000_0000 * 0xffff <= first <= 0x8000_0000 * 0xffff) by (nonlinear_arith)
        requires
            -0x8000_0000 * rest <= first <= 0x7fff_ffff * rest,
            0 <= rest <= 0xffff,
    ;
    let rest_n = rest * n;
    let wn_n = wn * n;
    let wd_n = wd * n;
    assert(rest_n + wn_n == wd_n && 0 <= rest_n && 0 <= wn_n && 0 < wd_n && wd_n <= 0xffff
        * 0xffff_ffff_ffff_ffff) by (nonlinear_arith)
        requires
            rest_n == rest * n,
            wn_n == wn * n,
            wd_n == wd * n,
            rest == wd - wn,
            0 <= wn <= wd <= 0xffff,
            0 < wd,
            1 <= n <= 0xffff_ffff_ffff_ffff,
    ;
    let second = first * n;
    assert(second == best * rest_n) by (nonlinear_arith)
        requires
            second == first * n,
            first == best * rest,
            rest_n == rest * n,
    ;
    assert(-0x8000_0000 * rest_n <= second <= 0x7fff_ffff * rest_n) by (nonlinear_arith)
        requires
            second == best * rest_n,
            0 <= rest_n,
            -0x8000_0000 <= best <= 0x7fff_ffff,
    ;
    let third = sum * wn;
    assert(-0x8000_0000 * wn_n <= third <= 0x7fff_ffff * wn_n) by (nonlinear_arith)
        requires
            third == sum * wn,
            wn_n == wn * n,
            0 <= wn,
            -0x8000_0000 * n <= sum <= 0x7fff_ffff * n,
    ;
    let mixed = second + third;
    assert(-0x8000_0000 * wd_n <= mixed <= 0x7fff_ffff * wd_n) by (nonlinear_arith)
        requires
            mixed == second + third,
            -0x8000_0000 * rest_n <= second <= 0x7fff_ffff * rest_n,
            -0x8000_0000 * wn_n <= third <= 0x7fff_ffff * wn_n,
            rest_n + wn_n == wd_n,
    ;
    assert(-0x8000_0000 * 0xffff * 0xffff_ffff_ffff_ffff <= second <= 0x8000_0000 * 0xffff
        * 0xffff_ffff_ffff_ffff) by (nonlinear_arith)
        requires
            -0x8000_0000 * rest_n <= second <= 0x7fff_ffff * rest_n,
            0 <= rest_n <= wd_n,
            wd_n <= 0xffff * 0xffff_ffff_ffff_ffff,
    ;
    assert(-0x8000_0000 * 0xffff * 0xffff_ffff_ffff_ffff <= third <= 0x8000_0000 * 0xffff
        * 0xffff_ffff_ffff_ffff) by (nonlinear_arith)
        requires
            -0x8000_0000 * wn_n <= third <= 0x7fff_ffff * wn_n,
            0 <= wn_n <= wd_n,
            wd_n <= 0xffff * 0xffff_ffff_ffff_ffff,
    ;
    assert(-0x8000_0000 * 0xffff * 0xffff_ffff_ffff_ffff <= mixed <= 0x8000_0000 * 0xffff
        * 0xffff_ffff_ffff_ffff) by (nonlinear_arith)
        requires
            -0x8000_0000 * wd_n <= mixed <= 0x7fff_ffff * wd_n,
            0 < wd_n <= 0xffff * 0xffff_ffff_ffff_ffff,
    ;
    let top = mixed * fnum;
    let bottom = wd_n * fd;
    assert(0 < bottom <= 0xffff * 0xffff_ffff_ffff_ffff * 0xffff) by (nonlinear_arith)
        requires
            bottom == wd_n * fd,
            0 < wd_n <= 0xffff * 0xffff_ffff_ffff_ffff,
            0 < fd <= 0xffff,
    ;
    assert(-0x8000_0000 * bottom <= top <= 0x7fff_ffff * bottom) by (nonlinear_arith)
        requires
            top == mixed * fnum,
            bottom == wd_n * fd,
            -0x8000_0000 * wd_n <= mixed <= 0x7fff_ffff * wd_n,
            0 < fnum <= fd,
            0 < wd_n,
    ;
    assert(-0x8000_0000 * 0xffff * 0xffff_ffff_ffff_ffff * 0xffff <= top <= 0x8000_0000
        * 0xffff * 0xffff_ffff_ffff_ffff * 0xffff) by (nonlinear_arith)
        requires
            -0x8000_0000 * bottom <= top <= 0x7fff_ffff * bottom,
            0 < bottom <= 0xffff * 0xffff_ffff_ffff_ffff * 0xffff,
    ;
    if top >= 0 {
        assert(top / bottom <= 0x7fff_ffff) by (nonlinear_arith)
            requires
                0 <= top <= 0x7fff_ffff * bottom,
                0 < bottom,
        ;
        assert(0 <= top / bottom) by (nonlinear_arith)
            requires
                0 <= top,
                0 < bottom,
        ;
    } else {
        assert((-top) / bottom <= 0x8000_0000) by (nonlinear_arith)
            requires
                0 <= -top <= 0x8000_0000 * bottom,
                0 < bottom,
        ;
        assert(0 <= (-top) / bottom) by (nonlinear_arith)
            requires
                0 <= -top,
                0 < bottom,
        ;
    }
}

/// The score of a node from its best child's score, the sum of its
/// children's scores and their number.
fn blend(best: i64, sum: i128, count: usize, params: &MinimaxParams) -> (score: Score)
    requires
        params.well_formed(),
        count > 0,
        i32::MIN <= best <= i32::MAX,
        i32::MIN * count <= sum <= i32::MAX * count,
    ensures
        score == blend_score(best as int, sum as int, count as int, *params),
{
    let wn: i128 = params.weight_suboptimal.numerator as i128;
    let wd: i128 = params.weight_suboptimal.denominator as i128;
    let fnum: i128 = params.depth_factor.numerator as i128;
    let fd: i128 = params.depth_factor.denominator as i128;
    let n: i128 = count as i128;
    proof {
        lemma_blend_in_range(
            best as int,
            sum as int,
            n as int,
            wn as int,
            wd as int,
            fnum as int,
            fd as int,
        );
    }
    let top: i128 = (best as i128 * (wd - wn) * n + sum * wn) * fnum;
    let bottom: i128 = wd * n * fd;
    let quotient: i128 = top / bottom;
    quotient as i32
}

impl<G: MinimaxDriver> Minimax<G> {
    /// An engine with the given parameters, an empty cache and counters at
    /// zero.
    pub fn new(params: MinimaxParams) -> (engine: Self)
        requires
            params.well_formed(),
        ensures
            engine.well_formed(),
            engine.params() == params,
            engine.total() == 0,
            engine.last_run() == 0,
            engine.cached() == Map::<GameHash, CachedTree>::empty(),
    {
        let engine = Minimax {
            params,
            cache: HashMap::new(),
            nodes_examined_total: 0,
            nodes_examined_last_run: 0,
        };
        assert(engine.cached() =~= Map::<GameHash, CachedTree>::empty());
        engine
    }

    /// The internal nodes visited since the engine was made, those visited
    /// by the latest search, and the number of fingerprints in the cache.
    pub fn get_internal_stats(&self) -> (stats: (u128, u128, usize))
        requires
            self.well_formed(),
        ensures
            stats.0 == self.total(),
            stats.1 == self.last_run(),
            stats.2 == self.cached().len(),
    {
        broadcast use vstd::std_specs::hash::group_hash_axioms;

        assert(self.cached().dom() =~= self.cache@.dom());
        (self.nodes_examined_total, self.nodes_examined_last_run, self.cache.len())
    }

    /// Searches from `game` and returns the root of its decision tree.
    ///
    /// A position whose evaluation is final, and any position when the depth
    /// limit is zero, gives a leaf with the static score. Otherwise the best
    /// move of the root, if there is one, is one of the moves of `game`. The
    /// tree can be walked from `game`: each move in it can be played in the
    /// position that it is made in.
    pub fn minimax(&mut self, game: &G) -> (node: NodeType)
        requires
            old(self).well_formed(),
            game.well_formed(),
        ensures
            final(self).well_formed(),
            Self::searched(*old(self), *game, *final(self), *node),
            ({
                let evaluation = game.spec_evaluate_score();
                let moves = game.spec_possible_moves();
                let expanded = !evaluation.is_terminal && old(self).params().max_depth > 0;
                &&& !expanded ==> node@ == leaf(evaluation.score as int)
                &&& expanded && moves.len() > 0 ==> node@.best_move is Some
                &&& node@.best_move matches Some(best) ==> moves.contains(best) && node@.child(
                    best,
                ) is Some
            }),
            can_be_walked(node@, *game),
    {
        broadcast use vstd::std_specs::hash::group_hash_axioms;

        proof {
            crate::search::lemma_search_shape(
                *game,
                self.params,
                0,
                i32::MIN as int,
                i32::MAX as int,
            );
            crate::search::lemma_search_can_be_walked(
                *game,
                self.params,
                0,
                i32::MIN as int,
                i32::MAX as int,
            );
        }
        let fingerprint = game.get_hash();
        match self.cache.get(&fingerprint) {
            Some(entry) => {
                if entry.depth == 0 {
                    let node = share(&entry.node);
                    proof {
                        entry.origin@.lemma_fingerprint_decides(game);
                        crate::search::lemma_fingerprint_decides_search(
                            entry.origin@,
                            *game,
                            self.params,
                            0,
                            i32::MIN as int,
                            i32::MAX as int,
                        );
                    }
                    self.nodes_examined_last_run = 0;
                    return node;
                }
            },
            None => {},
        }
        self.nodes_examined_last_run = 0;
        let ghost before = *self;
        let node = self._minimax(game, 0, Score::MIN, Score::MAX);
        proof {
            let outcome = search_root(*game, self.params);
            crate::search::lemma_search_caches_root(*game, self.params, 0, i32::MIN as int, i32::MAX as int);
            assert(self.cached() =~= before.cached().union_prefer_right(outcome.cached));
            assert(before.cached() =~= old(self).cached());
        }
        node
    }

    /// Two searches from one position with the same parameters give the same
    /// tree, whatever the two engines had searched before: the same score and
    /// the same best move.
    pub proof fn lemma_search_is_repeatable(
        first: (Self, Self),
        first_node: DecisionTreeNode,
        second: (Self, Self),
        second_node: DecisionTreeNode,
        game: G,
    )
        requires
            Self::searched(first.0, game, first.1, first_node),
            Self::searched(second.0, game, second.1, second_node),
            first.0.params() == second.0.params(),
        ensures
            first_node@ == second_node@,
            first_node@.score == second_node@.score,
            first_node@.best_move == second_node@.best_move,
    {
    }

    /// A search with pruning visits no more internal nodes than a search from
    /// the same position without, on an engine with the same parameters
    /// otherwise, unless the search without pruning is answered from the
    /// cache.
    pub proof fn lemma_pruning_visits_no_more(
        pruned: (Self, Self),
        pruned_node: DecisionTreeNode,
        full: (Self, Self),
        full_node: DecisionTreeNode,
        game: G,
    )
        requires
            Self::searched(pruned.0, game, pruned.1, pruned_node),
            Self::searched(full.0, game, full.1, full_node),
            pruned.0.params() == (MinimaxParams { pruning: true, ..full.0.params() }),
            full.0.params() == (MinimaxParams { pruning: false, ..pruned.0.params() }),
            !full.0.knows_root(game.spec_hash()),
        ensures
            pruned.1.last_run() <= full.1.last_run(),
    {
        crate::search::lemma_pruning_visits_no_more(
            game,
            full.0.params(),
            0,
            (i32::MIN as int, i32::MAX as int),
            (i32::MIN as int, i32::MAX as int),
        );
    }

    /// In a plain search, where the best move alone decides a node's score
    /// and a score does not shrink on its way up, a search with pruning gives
    /// the root the score that a search without pruning gives it.
    pub proof fn lemma_pruning_keeps_score(
        pruned: (Self, Self),
        pruned_node: DecisionTreeNode,
        full: (Self, Self),
        full_node: DecisionTreeNode,
        game: G,
    )
        requires
            Self::searched(pruned.0, game, pruned.1, pruned_node),
            Self::searched(full.0, game, full.1, full_node),
            pruned.0.params().well_formed(),
            crate::search::is_plain(pruned.0.params()),
            pruned.0.params() == (MinimaxParams { pruning: true, ..full.0.params() }),
            full.0.params() == (MinimaxParams { pruning: false, ..pruned.0.params() }),
        ensures
            pruned_node@.score == full_node@.score,
    {
        crate::search::lemma_pruning_keeps_root_score(game, pruned.0.params());
    }

    /// A second search from the same position on the same engine is answered
    /// from the cache: it gives the same tree, visits no node, and leaves the
    /// cache and the total as they were.
    pub proof fn lemma_second_search_hits_cache(
        before: Self,
        between: Self,
        after: Self,
        first_node: DecisionTreeNode,
        second_node: DecisionTreeNode,
        game: G,
    )
        requires
            Self::searched(before, game, between, first_node),
            Self::searched(between, game, after, second_node),
        ensures
            second_node@ == first_node@,
            second_node@.score == first_node@.score,
            second_node@.best_move == first_node@.best_move,
            after.last_run() == 0,
            after.total() == between.total(),
            after.cached() == between.cached(),
    {
    }

    /// Searches from `game`, `current_depth` plies below the root, with the
    /// window `(alfa, beta)`: the recursive step of [`Minimax::minimax`].
    fn _minimax(&mut self, game: &G, current_depth: u32, alfa: Score, beta: Score) -> (node:
        NodeType)
        requires
            old(self).well_formed(),
            game.well_formed(),
            current_depth == 0 ==> alfa == i32::MIN && beta == i32::MAX,
        ensures
            final(self).well_formed(),
            final(self).params == old(self).params,
            ({
                let outcome = search(
                    *game,
                    old(self).params,
                    current_depth as nat,
                    alfa as int,
                    beta as int,
                );
                &&& node@ == outcome.node
                &&& final(self).cached() == old(self).cached().union_prefer_right(outcome.cached)
                &&& final(self).nodes_examined_total == saturated(
                    old(self).nodes_examined_total + outcome.visited,
                )
                &&& final(self).nodes_examined_last_run == saturated(
                    old(self).nodes_examined_last_run + outcome.visited,
                )
            }),
        decreases old(self).params.max_depth - current_depth,
    {
        broadcast use vstd::std_specs::hash::group_hash_axioms;

        let ghost params = self.params;
        let ghost cache_before = self.cached();
        let ghost total_before = self.nodes_examined_total;
        let ghost last_before = self.nodes_examined_last_run;
        let cache_key = game.get_hash();
        let score_eval = game.evaluate_score();
        if score_eval.is_terminal || current_depth >= self.params.max_depth {
            let node = Rc::new(
                DecisionTreeNode {
                    score: score_eval.score,
                    moves: Vec::new(),
                    best_move: None,
                    alfa: 0,
                    beta: 0,
                },
            );
            assert(node@ =~= leaf(score_eval.score as int)) by {
                assert(node@.moves =~= Seq::empty());
            }
            self.cache.insert(
                cache_key,
                CacheEntry { node: share(&node), depth: current_depth, origin: Ghost(*game) },
            );
            proof {
                let outcome = search(*game, params, current_depth as nat, alfa as int, beta as int);
                assert(self.cached() =~= cache_before.union_prefer_right(outcome.cached));
            }
            return node;
        }
        let moves = game.get_possible_moves();
        let multiplier = game.get_current_player().score_multiplier();
        let mut best_move: Option<Move> = None;
        let mut best_value: i64 = 0;
        let mut sum: i128 = 0;
        let mut alfa = alfa;
        let mut beta = beta;
        let mut children: Vec<(Move, NodeType)> = Vec::new();
        let mut i: usize = 0;
        let mut closed = false;
        let ghost start = Expansion::start(alfa as int, beta as int);
        let ghost target = expand(*game, params, current_depth as nat, 0, start);
        let ghost mut state = start;
        let ghost mut best_score: int = 0;
        proof {
            assert(trees_of(children@) =~= state.children);
            assert(self.cached() =~= cache_before.union_prefer_right(state.cached));
        }
        while i < moves.len() && !closed
            invariant
                i <= moves.len(),
                moves@ == game.spec_possible_moves(),
                game.well_formed(),
                self.well_formed(),
                self.params == params,
                params == old(self).params,
                current_depth < params.max_depth,
                multiplier == game.spec_current_player().spec_score_multiplier(),
                children@.len() == i,
                state.children == trees_of(children@),
                state.best_move == best_move,
                state.best_value == best_value,
                state.sum == sum,
                state.alpha == alfa,
                state.beta == beta,
                best_value == best_score * multiplier,
                i32::MIN <= best_score <= i32::MAX,
                i32::MIN * i <= sum <= i32::MAX * i,
                self.cached() == cache_before.union_prefer_right(state.cached),
                self.nodes_examined_total == saturated(total_before + state.visited),
                self.nodes_examined_last_run == saturated(last_before + state.visited),
                target == if closed {
                    state
                } else {
                    expand(*game, params, current_depth as nat, i as nat, state)
                },
            decreases moves.len() - i, if closed { 0int } else { 1int },
        {
            let next_move = moves[i];
            assert(game.spec_possible_moves().contains(next_move)) by {
                assert(moves@[i as int] == next_move);
            }
            let child_game = game.apply_move(next_move);
            proof {
                game.lemma_move_keeps_well_formed(next_move);
            }
            let ghost cache_mid = self.cached();
            let child = self._minimax(&child_game, current_depth + 1, alfa, beta);
            let ghost outcome = search(
                child_game,
                params,
                (current_depth + 1) as nat,
                alfa as int,
                beta as int,
            );
            let child_score: Score = child.score;
            let value: i64 = child_score as i64 * multiplier as i64;
            if value >= best_value || best_move.is_none() {
                best_move = Some(next_move);
                best_value = value;
                proof {
                    best_score = child_score as int;
                }
            }
            assert(i32::MIN * (i + 1) <= sum + child_score <= i32::MAX * (i + 1)) by (nonlinear_arith)
                requires
                    i32::MIN * i <= sum <= i32::MAX * i,
                    i32::MIN <= child_score <= i32::MAX,
            ;
            sum = sum + child_score as i128;
            if multiplier > 0 {
                if child_score > alfa {
                    alfa = child_score;
                }
            } else {
                if child_score < beta {
                    beta = child_score;
                }
            }
            let ghost before_push = children@;
            children.push((next_move, child));
            proof {
                let after = state.absorb(multiplier as int, next_move, outcome);
                assert(trees_of(children@) =~= trees_of(before_push).push((next_move, child@)));
                assert(self.cached() =~= cache_before.union_prefer_right(after.cached));
                state = after;
            }
            i = i + 1;
            if self.params.pruning && beta <= alfa {
                closed = true;
            }
        }
        let count = children.len();
        let score_final = if count == 0 {
            score_eval.score
        } else {
            proof {
                assert(best_value * multiplier == best_score * multiplier * multiplier) by (nonlinear_arith)
                    requires
                        best_value == best_score * multiplier,
                ;
                assert(i32::MIN <= best_score * multiplier * multiplier <= i32::MAX) by (nonlinear_arith)
                    requires
                        i32::MIN <= best_score <= i32::MAX,
                        -1 <= multiplier <= 1,
                ;
            }
            blend(best_value * multiplier as i64, sum, count, &self.params)
        };
        if self.nodes_examined_total < u128::MAX {
            self.nodes_examined_total = self.nodes_examined_total + 1;
        }
        if self.nodes_examined_last_run < u128::MAX {
            self.nodes_examined_last_run = self.nodes_examined_last_run + 1;
        }
        let node = Rc::new(
            DecisionTreeNode { score: score_final, moves: children, best_move, alfa, beta },
        );
        proof {
            let outcome = search(*game, params, current_depth as nat, start.alpha, start.beta);
            assert(target == state);
            assert(node@.moves =~= state.children);
            assert(node@ == outcome.node);
            assert(self.cached() =~= cache_before.union_prefer_right(state.cached));
            assert(outcome.cached == state.cached.insert(
                cache_key,
                CachedTree { depth: current_depth as nat, node: node@ },
            ));
        }
        let ghost cache_mid = self.cached();
        self.cache.insert(
            cache_key,
            CacheEntry { node: share(&node), depth: current_depth, origin: Ghost(*game) },
        );
        proof {
            let outcome = search(*game, params, current_depth as nat, start.alpha, start.beta);
            let written = CachedTree { depth: current_depth as nat, node: node@ };
            assert(self.cached() =~= cache_mid.insert(cache_key, written));
            assert(cache_mid.insert(cache_key, written) =~= cache_before.union_prefer_right(
                state.cached.insert(cache_key, written),
            ));
        }
        node
    }
}

/// Searches from `game` with the standard parameters and a fresh engine,
/// and returns the root of the decision tree.
pub fn minimax<G: MinimaxDriver>(game: &G) -> (node: NodeType)
    requires
        game.well_formed(),
    ensures
        node@ == search_root(*game, MinimaxParams::standard()).node,
        can_be_walked(node@, *game),
        node@.best_move matches Some(best) ==> game.spec_possible_moves().contains(best),
{
    let mut engine = Minimax::new(MinimaxParams::default());
    engine.minimax(game)
}

} // verus!
