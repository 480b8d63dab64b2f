//! The mathematical model of the search: what the engine computes, stated
//! as functions on game states, and the laws that follow from it.

use vstd::prelude::*;

use crate::game::Move;
use crate::minimax::{GameHash, MinimaxDriver, MinimaxParams};
use crate::text::{move_text, option_move_text, signed_decimal};

verus! {

/// A decision tree as a mathematical value: the view of a
/// [`crate::minimax::DecisionTreeNode`].
pub struct DecisionTree {
    /// The value of the position.
    pub score: int,
    /// The moves that were examined, in the order of their examination, each
    /// with the tree of the position it leads to.
    pub moves: Seq<(Move, DecisionTree)>,
    /// The move to play, if any was examined.
    pub best_move: Option<Move>,
    /// The lower bound of the window when the node was finished.
    pub alpha: int,
    /// The upper bound of the window when the node was finished.
    pub beta: int,
}

/// The first `count` moves of some children as text, with a comma and a
/// space between one and the next.
pub open spec fn moves_text(children: Seq<(Move, DecisionTree)>, count: nat) -> Seq<char>
    decreases count,
{
    if count == 0 {
        Seq::empty()
    } else if count == 1 {
        move_text(children[0].0)
    } else {
        moves_text(children, (count - 1) as nat) + ", "@ + move_text(children[count - 1].0)
    }
}

impl DecisionTree {
    /// The node as text: its score, its best move, and the moves that it has
    /// examined, without the trees that they lead to.
    pub open spec fn text(self) -> Seq<char> {
        "DecisionTreeNode { score: "@ + signed_decimal(self.score) + ", best_move: "@
            + option_move_text(self.best_move) + ", moves: ["@ + moves_text(
            self.moves,
            self.moves.len(),
        ) + "] }"@
    }

    /// The tree that the move `next_move` leads to: that of its last
    /// examination, if it was examined at all.
    pub open spec fn child(self, next_move: Move) -> Option<DecisionTree> {
        child_among(self.moves, next_move)
    }
}

/// The tree that goes with the last occurrence of `next_move` in `moves`.
pub open spec fn child_among(moves: Seq<(Move, DecisionTree)>, next_move: Move) -> Option<
    DecisionTree,
>
    decreases moves.len(),
{
    if moves.len() == 0 {
        None
    } else if moves.last().0 == next_move {
        Some(moves.last().1)
    } else {
        child_among(moves.drop_last(), next_move)
    }
}

/// What one search of a position yields.
pub struct SearchOutcome {
    /// The decision tree of the position.
    pub node: DecisionTree,
    /// The number of internal nodes of that tree: positions that were
    /// expanded rather than scored on the spot.
    pub visited: nat,
    /// What the search wrote to the cache: for the fingerprint of each
    /// position that was looked at, leaves included, the depth and the tree
    /// of the position that was last looked at under that fingerprint.
    pub cached: Map<GameHash, CachedTree>,
}

/// What the cache holds for one fingerprint.
pub struct CachedTree {
    /// The depth below the root at which the position was searched.
    pub depth: nat,
    /// The tree that the search gave.
    pub node: DecisionTree,
}

/// The running state of the expansion of one node, between two moves.
pub struct Expansion {
    /// The moves examined so far, each with the tree it leads to.
    pub children: Seq<(Move, DecisionTree)>,
    /// The best move so far.
    pub best_move: Option<Move>,
    /// The value of `best_move` for the side to move.
    pub best_value: int,
    /// The sum of the scores of `children`.
    pub sum: int,
    /// The window's lower bound.
    pub alpha: int,
    /// The window's upper bound.
    pub beta: int,
    /// The internal nodes visited below the moves examined so far.
    pub visited: nat,
    /// What the searches below those moves wrote to the cache.
    pub cached: Map<GameHash, CachedTree>,
}

/// `a / b` rounded towards zero, for a positive `b`.
pub open spec fn truncating_div(a: int, b: int) -> int {
    if a >= 0 {
        a / b
    } else {
        -((-a) / b)
    }
}

/// The score of a node with `count > 0` examined children, of which the
/// best has the score `best` and all together have the sum `sum`:
///
/// `(best * (1 - w) + (sum / count) * w) * f`, rounded towards zero,
///
/// where `w` is `params.weight_suboptimal` and `f` is `params.depth_factor`.
/// The arithmetic is exact: the one rounding is the last step. The weight is
/// a matter of choice: the more of it, the less the score is the value of the
/// game and the more it is the worth of a position in which the other side
/// may err.
pub open spec fn blend_score(best: int, sum: int, count: int, params: MinimaxParams) -> int {
    let w = params.weight_suboptimal;
    let f = params.depth_factor;
    truncating_div(
        (best * (w.denominator - w.numerator) * count + sum * w.numerator) * f.numerator,
        w.denominator * count * f.denominator,
    )
}

/// The tree of a position that is not expanded.
pub open spec fn leaf(score: int) -> DecisionTree {
    DecisionTree { score, moves: Seq::empty(), best_move: None, alpha: 0, beta: 0 }
}

impl Expansion {
    /// The state before the first move, with the window `(alpha, beta)`.
    pub open spec fn start(alpha: int, beta: int) -> Expansion {
        Expansion {
            children: Seq::empty(),
            best_move: None,
            best_value: 0,
            sum: 0,
            alpha,
            beta,
            visited: 0,
            cached: Map::empty(),
        }
    }

    /// The state after the move `next_move`, whose position was searched
    /// with the outcome `child`, for a side to move with the given
    /// `multiplier`.
    ///
    /// The move becomes the best one if nothing is better so far: of two
    /// moves of equal value the later one is kept. The maximizing side raises
    /// `alpha` to the child's score, every other side lowers `beta` to it.
    pub open spec fn absorb(self, multiplier: int, next_move: Move, child: SearchOutcome) -> Expansion {
        let value = child.node.score * multiplier;
        let better = value >= self.best_value || self.best_move is None;
        Expansion {
            children: self.children.push((next_move, child.node)),
            best_move: if better {
                Some(next_move)
            } else {
                self.best_move
            },
            best_value: if better {
                value
            } else {
                self.best_value
            },
            sum: self.sum + child.node.score,
            alpha: if multiplier > 0 && child.node.score > self.alpha {
                child.node.score
            } else {
                self.alpha
            },
            beta: if multiplier <= 0 && child.node.score < self.beta {
                child.node.score
            } else {
                self.beta
            },
            visited: self.visited + child.visited,
            cached: self.cached.union_prefer_right(child.cached),
        }
    }

    /// Whether the window has closed, so that no further move of the node can
    /// matter.
    pub open spec fn closed(self) -> bool {
        self.beta <= self.alpha
    }

    /// The outcome of the node whose expansion ended in this state.
    ///
    /// With no move examined the score is the static one. Otherwise it is
    /// the blend of the best child's score with the mean of all the
    /// children's scores, see [`blend_score`].
    pub open spec fn finish(
        self,
        multiplier: int,
        static_score: int,
        fingerprint: GameHash,
        depth: nat,
        params: MinimaxParams,
    ) -> SearchOutcome {
        let node = DecisionTree {
                score: if self.children.len() == 0 {
                    static_score
                } else {
                    blend_score(
                        self.best_value * multiplier,
                        self.sum,
                        self.children.len() as int,
                        params,
                    )
                },
                moves: self.children,
                best_move: self.best_move,
                alpha: self.alpha,
                beta: self.beta,
            };
        SearchOutcome {
            node,
            visited: self.visited + 1,
            cached: self.cached.insert(fingerprint, CachedTree { depth, node }),
        }
    }
}

/// The outcome of searching `game` at `depth` plies below the root with the
/// window `(alpha, beta)`.
///
/// A position whose evaluation is final, or one at the depth limit, is a
/// leaf with its static score. Any other position is expanded move by move,
/// see [`expand`].
pub open spec fn search<G: MinimaxDriver>(
    game: G,
    params: MinimaxParams,
    depth: nat,
    alpha: int,
    beta: int,
) -> SearchOutcome
    decreases params.max_depth - depth, 1nat, 0nat,
{
    let evaluation = game.spec_evaluate_score();
    if evaluation.is_terminal || depth >= params.max_depth {
        let node = leaf(evaluation.score as int);
        SearchOutcome {
            node,
            visited: 0,
            cached: Map::empty().insert(game.spec_hash(), CachedTree { depth, node }),
        }
    } else {
        expand(game, params, depth, 0, Expansion::start(alpha, beta)).finish(
            game.spec_current_player().spec_score_multiplier() as int,
            evaluation.score as int,
            game.spec_hash(),
            depth,
            params,
        )
    }
}

/// The state of the expansion of `game` after its last move, when `state`
/// is the state before the move of index `from`.
///
/// The moves are taken in the order of `game.spec_possible_moves()`, each
/// searched one ply deeper with the window that the moves before it have
/// left. With `params.pruning` the expansion stops after the move that
/// closes the window.
pub open spec fn expand<G: MinimaxDriver>(
    game: G,
    params: MinimaxParams,
    depth: nat,
    from: nat,
    state: Expansion,
) -> Expansion
    decreases params.max_depth - depth, 0nat, game.spec_possible_moves().len() - from,
{
    let moves = game.spec_possible_moves();
    if depth >= params.max_depth || from >= moves.len() {
        state
    } else {
        let next_move = moves[from as int];
        let child = search(
            game.spec_apply_move(next_move),
            params,
            depth + 1,
            state.alpha,
            state.beta,
        );
        let after = state.absorb(
            game.spec_current_player().spec_score_multiplier() as int,
            next_move,
            child,
        );
        if params.pruning && after.closed() {
            after
        } else {
            expand(game, params, depth, from + 1, after)
        }
    }
}

/// The outcome of a search that starts at `game`: depth zero and the full
/// window.
pub open spec fn search_root<G: MinimaxDriver>(game: G, params: MinimaxParams) -> SearchOutcome {
    search(game, params, 0, i32::MIN as int, i32::MAX as int)
}

/// Two positions with one fingerprint have the same search outcome.
pub proof fn lemma_fingerprint_decides_search<G: MinimaxDriver>(
    first: G,
    second: G,
    params: MinimaxParams,
    depth: nat,
    alpha: int,
    beta: int,
)
    requires
        first.well_formed(),
        second.well_formed(),
        first.spec_hash() == second.spec_hash(),
    ensures
        search(first, params, depth, alpha, beta) == search(second, params, depth, alpha, beta),
    decreases params.max_depth - depth, 1nat, 0nat,
{
    first.lemma_fingerprint_decides(&second);
    let evaluation = first.spec_evaluate_score();
    if evaluation.is_terminal || depth >= params.max_depth {
    } else {
        lemma_fingerprint_decides_expansion(
            first,
            second,
            params,
            depth,
            0,
            Expansion::start(alpha, beta),
        );
    }
}

/// Two positions with one fingerprint are expanded alike.
pub proof fn lemma_fingerprint_decides_expansion<G: MinimaxDriver>(
    first: G,
    second: G,
    params: MinimaxParams,
    depth: nat,
    from: nat,
    state: Expansion,
)
    requires
        first.well_formed(),
        second.well_formed(),
        first.spec_hash() == second.spec_hash(),
    ensures
        expand(first, params, depth, from, state) == expand(second, params, depth, from, state),
    decreases params.max_depth - depth, 0nat, first.spec_possible_moves().len() - from,
{
    first.lemma_fingerprint_decides(&second);
    let moves = first.spec_possible_moves();
    if depth >= params.max_depth || from >= moves.len() {
    } else {
        let next_move = moves[from as int];
        assert(moves.contains(next_move));
        first.lemma_move_keeps_well_formed(next_move);
        second.lemma_move_keeps_well_formed(next_move);
        lemma_fingerprint_decides_search(
            first.spec_apply_move(next_move),
            second.spec_apply_move(next_move),
            params,
            depth + 1,
            state.alpha,
            state.beta,
        );
        let child = search(
            first.spec_apply_move(next_move),
            params,
            depth + 1,
            state.alpha,
            state.beta,
        );
        let after = state.absorb(
            first.spec_current_player().spec_score_multiplier() as int,
            next_move,
            child,
        );
        if params.pruning && after.closed() {
        } else {
            lemma_fingerprint_decides_expansion(first, second, params, depth, from + 1, after);
        }
    }
}

/// A search leaves its own position in the cache, with its depth and its
/// tree.
pub proof fn lemma_search_caches_root<G: MinimaxDriver>(
    game: G,
    params: MinimaxParams,
    depth: nat,
    alpha: int,
    beta: int,
)
    ensures
        ({
            let outcome = search(game, params, depth, alpha, beta);
            &&& outcome.cached.contains_key(game.spec_hash())
            &&& outcome.cached[game.spec_hash()] == CachedTree { depth, node: outcome.node }
        }),
{
}

/// Whether `children` are the first of `moves`, in their order.
pub open spec fn examines_first_of(children: Seq<(Move, DecisionTree)>, moves: Seq<Move>) -> bool {
    &&& children.len() <= moves.len()
    &&& forall|i: int| 0 <= i < children.len() ==> (#[trigger] children[i]).0 == moves[i]
}

/// Whether `best_move` is the last of the best among `children`, for a side
/// with the given multiplier, and `best_value` is its value: no child is
/// worth more, and every later one is worth less. Without children there is
/// no best move.
pub open spec fn is_last_best(
    children: Seq<(Move, DecisionTree)>,
    multiplier: int,
    best_move: Option<Move>,
    best_value: int,
) -> bool {
    match best_move {
        None => children.len() == 0,
        Some(best) => exists|i: int|
            {
                &&& 0 <= i < children.len()
                &&& (#[trigger] children[i]).0 == best
                &&& children[i].1.score * multiplier == best_value
                &&& forall|j: int|
                    0 <= j < children.len() ==> (#[trigger] children[j]).1.score * multiplier
                        <= best_value
                &&& forall|j: int|
                    i < j < children.len() ==> (#[trigger] children[j]).1.score * multiplier
                        < best_value
            },
    }
}

/// An expansion examines the moves in their order, never leaves the first
/// one out, examines them all where nothing is pruned, keeps the last of the
/// best as the best move, and visits no fewer nodes as it goes on.
pub proof fn lemma_expansion_shape<G: MinimaxDriver>(
    game: G,
    params: MinimaxParams,
    depth: nat,
    from: nat,
    state: Expansion,
)
    requires
        state.children.len() == from <= game.spec_possible_moves().len(),
        examines_first_of(state.children, game.spec_possible_moves()),
        is_last_best(
            state.children,
            game.spec_current_player().spec_score_multiplier() as int,
            state.best_move,
            state.best_value,
        ),
    ensures
        ({
            let moves = game.spec_possible_moves();
            let end = expand(game, params, depth, from, state);
            &&& examines_first_of(end.children, moves)
            &&& is_last_best(
                end.children,
                game.spec_current_player().spec_score_multiplier() as int,
                end.best_move,
                end.best_value,
            )
            &&& from <= end.children.len()
            &&& depth < params.max_depth && from < moves.len() ==> from < end.children.len()
            &&& depth < params.max_depth && !params.pruning ==> end.children.len() == moves.len()
            &&& state.visited <= end.visited
        }),
    decreases game.spec_possible_moves().len() - from,
{
    let moves = game.spec_possible_moves();
    let multiplier = game.spec_current_player().spec_score_multiplier() as int;
    if depth >= params.max_depth || from >= moves.len() {
    } else {
        let next_move = moves[from as int];
        let child = search(
            game.spec_apply_move(next_move),
            params,
            depth + 1,
            state.alpha,
            state.beta,
        );
        let after = state.absorb(multiplier, next_move, child);
        let value = child.node.score * multiplier;
        assert(after.children[from as int] == (next_move, child.node));
        assert forall|i: int| 0 <= i < after.children.len() implies (#[trigger] after.children[i]).0
            == moves[i] by {
            if i < from {
                assert(after.children[i] == state.children[i]);
            }
        }
        if value >= state.best_value || state.best_move is None {
            assert forall|j: int| 0 <= j < after.children.len() implies (
            #[trigger] after.children[j]).1.score * multiplier <= after.best_value by {
                if j < from {
                    assert(after.children[j] == state.children[j]);
                }
            }
            assert(is_last_best(after.children, multiplier, after.best_move, after.best_value));
        } else {
            let best = state.best_move->0;
            let i = choose|i: int|
                {
                    &&& 0 <= i < state.children.len()
                    &&& (#[trigger] state.children[i]).0 == best
                    &&& state.children[i].1.score * multiplier == state.best_value
                    &&& forall|j: int|
                        0 <= j < state.children.len() ==> (#[trigger] state.children[j]).1.score
                            * multiplier <= state.best_value
                    &&& forall|j: int|
                        i < j < state.children.len() ==> (#[trigger] state.children[j]).1.score
                            * multiplier < state.best_value
                };
            assert(after.children[i] == state.children[i]);
            assert forall|j: int| 0 <= j < after.children.len() implies (
            #[trigger] after.children[j]).1.score * multiplier <= after.best_value by {
                if j < from {
                    assert(after.children[j] == state.children[j]);
                }
            }
            assert forall|j: int| i < j < after.children.len() implies (
            #[trigger] after.children[j]).1.score * multiplier < after.best_value by {
                if j < from {
                    assert(after.children[j] == state.children[j]);
                }
            }
            assert(is_last_best(after.children, multiplier, after.best_move, after.best_value));
        }
        if params.pruning && after.closed() {
        } else {
            lemma_expansion_shape(game, params, depth, from + 1, after);
        }
    }
}

/// The shape of the tree that a search gives for a position.
///
/// A position whose evaluation is final, or one at the depth limit, gives a
/// leaf with the static score. Any other position gives a node that examines
/// the first of the position's moves in their order: at least one if there
/// is one, all of them where nothing is pruned. The node's best move is the
/// last of the best among the moves examined, so it is one of the position's
/// moves, and there is none only if no move was examined.
pub proof fn lemma_search_shape<G: MinimaxDriver>(
    game: G,
    params: MinimaxParams,
    depth: nat,
    alpha: int,
    beta: int,
)
    ensures
        ({
            let moves = game.spec_possible_moves();
            let evaluation = game.spec_evaluate_score();
            let node = search(game, params, depth, alpha, beta).node;
            let expanded = !evaluation.is_terminal && depth < params.max_depth;
            &&& !expanded ==> node == leaf(evaluation.score as int)
            &&& examines_first_of(node.moves, moves)
            &&& expanded && moves.len() > 0 ==> node.moves.len() > 0
            &&& expanded && !params.pruning ==> node.moves.len() == moves.len()
            &&& exists|best_value: int|
                is_last_best(
                    node.moves,
                    game.spec_current_player().spec_score_multiplier() as int,
                    node.best_move,
                    best_value,
                )
            &&& node.best_move matches Some(best) ==> moves.contains(best) && node.child(best)
                is Some
        }),
{
    let moves = game.spec_possible_moves();
    let evaluation = game.spec_evaluate_score();
    let multiplier = game.spec_current_player().spec_score_multiplier() as int;
    let node = search(game, params, depth, alpha, beta).node;
    if evaluation.is_terminal || depth >= params.max_depth {
        assert(is_last_best(node.moves, multiplier, node.best_move, 0));
    } else {
        let start = Expansion::start(alpha, beta);
        lemma_expansion_shape(game, params, depth, 0, start);
        let end = expand(game, params, depth, 0, start);
        assert(is_last_best(node.moves, multiplier, node.best_move, end.best_value));
        if node.best_move is Some {
            let best = node.best_move->0;
            lemma_last_best_is_child(node.moves, multiplier, node.best_move, end.best_value);
            let i = choose|i: int| 0 <= i < node.moves.len() && (#[trigger] node.moves[i]).0 == best;
            assert(moves[i] == best);
        }
    }
}

/// The last of the best among some children is one of them, and can be
/// looked up.
pub proof fn lemma_last_best_is_child(
    children: Seq<(Move, DecisionTree)>,
    multiplier: int,
    best_move: Option<Move>,
    best_value: int,
)
    requires
        is_last_best(children, multiplier, best_move, best_value),
        best_move is Some,
    ensures
        exists|i: int| 0 <= i < children.len() && (#[trigger] children[i]).0 == best_move->0,
        child_among(children, best_move->0) is Some,
{
    let best = best_move->0;
    let i = choose|i: int| 0 <= i < children.len() && (#[trigger] children[i]).0 == best;
    lemma_child_among_finds(children, best, i);
}

/// A move that occurs among some children can be looked up.
pub proof fn lemma_child_among_finds(children: Seq<(Move, DecisionTree)>, next_move: Move, at: int)
    requires
        0 <= at < children.len(),
        children[at].0 == next_move,
    ensures
        child_among(children, next_move) is Some,
    decreases children.len(),
{
    if children.last().0 != next_move {
        assert(children.drop_last()[at] == children[at]);
        lemma_child_among_finds(children.drop_last(), next_move, at);
    }
}

/// A search with pruning visits no more internal nodes than a search
/// without, from the same position at the same depth, whatever the two
/// windows are.
pub proof fn lemma_pruning_visits_no_more<G: MinimaxDriver>(
    game: G,
    params: MinimaxParams,
    depth: nat,
    pruned_window: (int, int),
    full_window: (int, int),
)
    ensures
        search(
            game,
            MinimaxParams { pruning: true, ..params },
            depth,
            pruned_window.0,
            pruned_window.1,
        ).visited <= search(
            game,
            MinimaxParams { pruning: false, ..params },
            depth,
            full_window.0,
            full_window.1,
        ).visited,
    decreases params.max_depth - depth, 1nat, 0nat,
{
    let evaluation = game.spec_evaluate_score();
    if evaluation.is_terminal || depth >= params.max_depth {
    } else {
        lemma_pruning_expands_no_more(
            game,
            params,
            depth,
            0,
            Expansion::start(pruned_window.0, pruned_window.1),
            Expansion::start(full_window.0, full_window.1),
        );
    }
}

/// An expansion with pruning visits no more internal nodes than one without
/// that is no fewer nodes ahead.
pub proof fn lemma_pruning_expands_no_more<G: MinimaxDriver>(
    game: G,
    params: MinimaxParams,
    depth: nat,
    from: nat,
    pruned: Expansion,
    full: Expansion,
)
    requires
        pruned.visited <= full.visited,
    ensures
        expand(game, MinimaxParams { pruning: true, ..params }, depth, from, pruned).visited
            <= expand(game, MinimaxParams { pruning: false, ..params }, depth, from, full).visited,
    decreases params.max_depth - depth, 0nat, game.spec_possible_moves().len() - from,
{
    let with = MinimaxParams { pruning: true, ..params };
    let without = MinimaxParams { pruning: false, ..params };
    let moves = game.spec_possible_moves();
    let multiplier = game.spec_current_player().spec_score_multiplier() as int;
    if depth >= params.max_depth || from >= moves.len() {
    } else {
        let next_move = moves[from as int];
        let next = game.spec_apply_move(next_move);
        lemma_pruning_visits_no_more(
            next,
            params,
            depth + 1,
            (pruned.alpha, pruned.beta),
            (full.alpha, full.beta),
        );
        let pruned_after = pruned.absorb(
            multiplier,
            next_move,
            search(next, with, depth + 1, pruned.alpha, pruned.beta),
        );
        let full_after = full.absorb(
            multiplier,
            next_move,
            search(next, without, depth + 1, full.alpha, full.beta),
        );
        if pruned_after.closed() {
            lemma_expansion_visits_grow(game, without, depth, from + 1, full_after);
        } else {
            lemma_pruning_expands_no_more(game, params, depth, from + 1, pruned_after, full_after);
        }
    }
}

/// An expansion ends with no fewer visited nodes than it began with.
pub proof fn lemma_expansion_visits_grow<G: MinimaxDriver>(
    game: G,
    params: MinimaxParams,
    depth: nat,
    from: nat,
    state: Expansion,
)
    ensures
        state.visited <= expand(game, params, depth, from, state).visited,
    decreases game.spec_possible_moves().len() - from,
{
    let moves = game.spec_possible_moves();
    if depth >= params.max_depth || from >= moves.len() {
    } else {
        let next_move = moves[from as int];
        let child = search(
            game.spec_apply_move(next_move),
            params,
            depth + 1,
            state.alpha,
            state.beta,
        );
        let after = state.absorb(
            game.spec_current_player().spec_score_multiplier() as int,
            next_move,
            child,
        );
        if params.pruning && after.closed() {
        } else {
            lemma_expansion_visits_grow(game, params, depth, from + 1, after);
        }
    }
}

/// Whether `tree` can be walked from `game`: each of its moves can be
/// played in the position that it is made in, and leads to a position from
/// which the rest of the tree can be walked.
pub open spec fn can_be_walked<G: MinimaxDriver>(tree: DecisionTree, game: G) -> bool
    decreases tree,
{
    &&& game.well_formed()
    &&& forall|i: int|
        0 <= i < tree.moves.len() ==> {
            &&& game.spec_possible_moves().contains((#[trigger] tree.moves[i]).0)
            &&& can_be_walked(tree.moves[i].1, game.spec_apply_move(tree.moves[i].0))
        }
}

/// Whether the `children` of a position can be walked from it.
pub open spec fn children_can_be_walked<G: MinimaxDriver>(
    children: Seq<(Move, DecisionTree)>,
    game: G,
) -> bool {
    forall|i: int|
        0 <= i < children.len() ==> {
            &&& game.spec_possible_moves().contains((#[trigger] children[i]).0)
            &&& can_be_walked(children[i].1, game.spec_apply_move(children[i].0))
        }
}

/// The tree that a search gives can be walked from the position that was
/// searched.
pub proof fn lemma_search_can_be_walked<G: MinimaxDriver>(
    game: G,
    params: MinimaxParams,
    depth: nat,
    alpha: int,
    beta: int,
)
    requires
        game.well_formed(),
    ensures
        can_be_walked(search(game, params, depth, alpha, beta).node, game),
    decreases params.max_depth - depth, 1nat, 0nat,
{
    let evaluation = game.spec_evaluate_score();
    if evaluation.is_terminal || depth >= params.max_depth {
    } else {
        lemma_expansion_can_be_walked(game, params, depth, 0, Expansion::start(alpha, beta));
    }
}

/// An expansion adds to children that can be walked only children that can
/// be walked.
pub proof fn lemma_expansion_can_be_walked<G: MinimaxDriver>(
    game: G,
    params: MinimaxParams,
    depth: nat,
    from: nat,
    state: Expansion,
)
    requires
        game.well_formed(),
        children_can_be_walked(state.children, game),
    ensures
        children_can_be_walked(expand(game, params, depth, from, state).children, game),
    decreases params.max_depth - depth, 0nat, game.spec_possible_moves().len() - from,
{
    let moves = game.spec_possible_moves();
    if depth >= params.max_depth || from >= moves.len() {
    } else {
        let next_move = moves[from as int];
        assert(moves.contains(next_move));
        game.lemma_move_keeps_well_formed(next_move);
        let next = game.spec_apply_move(next_move);
        lemma_search_can_be_walked(next, params, depth + 1, state.alpha, state.beta);
        let child = search(next, params, depth + 1, state.alpha, state.beta);
        let after = state.absorb(
            game.spec_current_player().spec_score_multiplier() as int,
            next_move,
            child,
        );
        assert forall|i: int| 0 <= i < after.children.len() implies {
            &&& game.spec_possible_moves().contains((#[trigger] after.children[i]).0)
            &&& can_be_walked(after.children[i].1, game.spec_apply_move(after.children[i].0))
        } by {
            if i < state.children.len() {
                assert(after.children[i] == state.children[i]);
            }
        }
        if params.pruning && after.closed() {
        } else {
            lemma_expansion_can_be_walked(game, params, depth, from + 1, after);
        }
    }
}

/// In a tree that can be walked, the tree behind a move can be walked from
/// the position after the move.
pub proof fn lemma_child_can_be_walked<G: MinimaxDriver>(
    tree: DecisionTree,
    game: G,
    next_move: Move,
)
    requires
        can_be_walked(tree, game),
        tree.child(next_move) is Some,
    ensures
        game.spec_possible_moves().contains(next_move),
        can_be_walked(tree.child(next_move)->0, game.spec_apply_move(next_move)),
{
    lemma_child_among_is_one(tree.moves, next_move);
}

/// The tree that a lookup gives goes with an occurrence of the move.
pub proof fn lemma_child_among_is_one(children: Seq<(Move, DecisionTree)>, next_move: Move)
    requires
        child_among(children, next_move) is Some,
    ensures
        exists|i: int|
            0 <= i < children.len() && #[trigger] children[i] == (
                next_move,
                child_among(children, next_move)->0,
            ),
    decreases children.len(),
{
    if children.last().0 == next_move {
        assert(children[children.len() - 1] == (next_move, child_among(children, next_move)->0));
    } else {
        lemma_child_among_is_one(children.drop_last(), next_move);
        let i = choose|i: int|
            0 <= i < children.drop_last().len() && #[trigger] children.drop_last()[i] == (
                next_move,
                child_among(children.drop_last(), next_move)->0,
            );
        assert(children[i] == children.drop_last()[i]);
    }
}

/// Whether no position of the game has a static score beyond `bound`,
/// the one way or the other.
pub open spec fn scores_within<G: MinimaxDriver>(bound: int) -> bool {
    forall|game: G|
        #![trigger game.spec_evaluate_score()]
        game.well_formed() ==> -bound <= game.spec_evaluate_score().score <= bound
}

/// A blend of scores within a bound lies within that bound.
pub proof fn lemma_blend_within(best: int, sum: int, count: int, params: MinimaxParams, bound: int)
    requires
        params.well_formed(),
        count >= 1,
        -bound <= best <= bound,
        -bound * count <= sum <= bound * count,
    ensures
        -bound <= blend_score(best, sum, count, params) <= bound,
{
    let wn = params.weight_suboptimal.numerator as int;
    let wd = params.weight_suboptimal.denominator as int;
    let fnum = params.depth_factor.numerator as int;
    let fd = params.depth_factor.denominator as int;
    let rest_n = (wd - wn) * count;
    let wn_n = wn * count;
    let wd_n = wd * count;
    assert(rest_n + wn_n == wd_n && 0 <= rest_n && 0 <= wn_n && 0 < wd_n) by (nonlinear_arith)
        requires
            rest_n == (wd - wn) * count,
            wn_n == wn * count,
            wd_n == wd * count,
            0 <= wn <= wd,
            0 < wd,
            1 <= count,
    ;
    let second = best * (wd - wn) * count;
    assert(-bound * rest_n <= second <= bound * rest_n) by (nonlinear_arith)
        requires
            second == best * (wd - wn) * count,
            rest_n == (wd - wn) * count,
            0 <= rest_n,
            -bound <= best <= bound,
    ;
    let third = sum * wn;
    assert(-bound * wn_n <= third <= bound * wn_n) by (nonlinear_arith)
        requires
            third == sum * wn,
            wn_n == wn * count,
            0 <= wn,
            -bound * count <= sum <= bound * count,
    ;
    let mixed = second + third;
    assert(-bound * wd_n <= mixed <= bound * wd_n) by (nonlinear_arith)
        requires
            mixed == second + third,
            -bound * rest_n <= second <= bound * rest_n,
            -bound * wn_n <= third <= bound * wn_n,
            rest_n + wn_n == wd_n,
    ;
    let top = mixed * fnum;
    let bottom = wd * count * fd;
    assert(0 <= bound) by (nonlinear_arith)
        requires
            -bound * wd_n <= bound * wd_n,
            0 < wd_n,
    ;
    assert(0 < bottom && -bound * bottom <= top <= bound * bottom) by (nonlinear_arith)
        requires
            top == mixed * fnum,
            bottom == wd * count * fd,
            wd_n == wd * count,
            -bound * wd_n <= mixed <= bound * wd_n,
            0 < fnum <= fd,
            0 < wd_n,
            0 <= bound,
    ;
    if top >= 0 {
        assert(0 <= top / bottom <= bound) by (nonlinear_arith)
            requires
                0 <= top <= bound * bottom,
                0 < bottom,
        ;
    } else {
        assert((-bound) * bottom == -(bound * bottom)) by (nonlinear_arith);
        assert(0 <= (-top) / bottom <= bound) by (nonlinear_arith)
            requires
                0 <= -top <= bound * bottom,
                0 < bottom,
        ;
    }
}

/// Whether an expansion has stayed within a bound so far: the scores of its
/// children, their sum, and the score of its best move.
pub open spec fn expansion_within(state: Expansion, multiplier: int, bound: int) -> bool {
    &&& forall|i: int|
        0 <= i < state.children.len() ==> -bound <= (#[trigger] state.children[i]).1.score
            <= bound
    &&& -bound * state.children.len() <= state.sum <= bound * state.children.len()
    &&& -bound <= state.best_value * multiplier <= bound
    &&& -bound <= state.best_value <= bound
}

/// Where no static score lies beyond a bound, no score of a search does.
pub proof fn lemma_search_scores_within<G: MinimaxDriver>(
    game: G,
    params: MinimaxParams,
    depth: nat,
    alpha: int,
    beta: int,
    bound: int,
)
    requires
        game.well_formed(),
        params.well_formed(),
        scores_within::<G>(bound),
    ensures
        -bound <= search(game, params, depth, alpha, beta).node.score <= bound,
    decreases params.max_depth - depth, 1nat, 0nat,
{
    let evaluation = game.spec_evaluate_score();
    let multiplier = game.spec_current_player().spec_score_multiplier() as int;
    if evaluation.is_terminal || depth >= params.max_depth {
    } else {
        let start = Expansion::start(alpha, beta);
        assert(0 <= bound);
        assert(expansion_within(start, multiplier, bound)) by (nonlinear_arith)
            requires
                start.children.len() == 0,
                start.sum == 0,
                start.best_value == 0,
                0 <= bound,
        ;
        lemma_expansion_scores_within(game, params, depth, 0, start, bound);
        let end = expand(game, params, depth, 0, start);
        if end.children.len() > 0 {
            lemma_blend_within(
                end.best_value * multiplier,
                end.sum,
                end.children.len() as int,
                params,
                bound,
            );
        }
    }
}

/// Where no static score lies beyond a bound, an expansion that has stayed
/// within it stays within it.
pub proof fn lemma_expansion_scores_within<G: MinimaxDriver>(
    game: G,
    params: MinimaxParams,
    depth: nat,
    from: nat,
    state: Expansion,
    bound: int,
)
    requires
        game.well_formed(),
        params.well_formed(),
        scores_within::<G>(bound),
        expansion_within(
            state,
            game.spec_current_player().spec_score_multiplier() as int,
            bound,
        ),
    ensures
        expansion_within(
            expand(game, params, depth, from, state),
            game.spec_current_player().spec_score_multiplier() as int,
            bound,
        ),
    decreases params.max_depth - depth, 0nat, game.spec_possible_moves().len() - from,
{
    let moves = game.spec_possible_moves();
    let multiplier = game.spec_current_player().spec_score_multiplier() as int;
    if depth >= params.max_depth || from >= moves.len() {
    } else {
        let next_move = moves[from as int];
        assert(moves.contains(next_move));
        game.lemma_move_keeps_well_formed(next_move);
        let next = game.spec_apply_move(next_move);
        lemma_search_scores_within(next, params, depth + 1, state.alpha, state.beta, bound);
        let child = search(next, params, depth + 1, state.alpha, state.beta);
        let after = state.absorb(multiplier, next_move, child);
        lemma_absorb_within(state, multiplier, next_move, child, bound);
        if params.pruning && after.closed() {
        } else {
            lemma_expansion_scores_within(game, params, depth, from + 1, after, bound);
        }
    }
}

/// An expansion within a bound that takes in a child within that bound
/// stays within it.
pub proof fn lemma_absorb_within(
    state: Expansion,
    multiplier: int,
    next_move: Move,
    child: SearchOutcome,
    bound: int,
)
    requires
        -1 <= multiplier <= 1,
        expansion_within(state, multiplier, bound),
        -bound <= child.node.score <= bound,
    ensures
        expansion_within(state.absorb(multiplier, next_move, child), multiplier, bound),
{
    let after = state.absorb(multiplier, next_move, child);
    let score = child.node.score;
    assert forall|i: int| 0 <= i < after.children.len() implies -bound <= (
    #[trigger] after.children[i]).1.score <= bound by {
        if i < state.children.len() {
            assert(after.children[i] == state.children[i]);
        }
    }
    assert(-bound * after.children.len() <= after.sum <= bound * after.children.len())
        by (nonlinear_arith)
        requires
            after.children.len() == state.children.len() + 1,
            after.sum == state.sum + score,
            -bound * state.children.len() <= state.sum <= bound * state.children.len(),
            -bound <= score <= bound,
    ;
    assert(-bound <= score * multiplier <= bound && -bound <= score * multiplier * multiplier
        <= bound) by (nonlinear_arith)
        requires
            -1 <= multiplier <= 1,
            -bound <= score <= bound,
    ;
}

/// Whether `tree` is what a search of `game` at `depth` gives under some
/// window.
pub open spec fn is_search_of<G: MinimaxDriver>(
    tree: DecisionTree,
    game: G,
    params: MinimaxParams,
    depth: nat,
) -> bool {
    exists|alpha: int, beta: int| tree == #[trigger] search(game, params, depth, alpha, beta).node
}

/// Whether each of the `children` of `game` is what a search of the position
/// after its move gives, one ply below `depth`.
pub open spec fn children_are_searches<G: MinimaxDriver>(
    children: Seq<(Move, DecisionTree)>,
    game: G,
    params: MinimaxParams,
    depth: nat,
) -> bool {
    forall|i: int|
        0 <= i < children.len() ==> is_search_of(
            (#[trigger] children[i]).1,
            game.spec_apply_move(children[i].0),
            params,
            depth + 1,
        )
}

/// The children that an expansion adds are searches of the positions after
/// their moves.
pub proof fn lemma_expansion_children_are_searches<G: MinimaxDriver>(
    game: G,
    params: MinimaxParams,
    depth: nat,
    from: nat,
    state: Expansion,
)
    requires
        children_are_searches(state.children, game, params, depth),
    ensures
        children_are_searches(expand(game, params, depth, from, state).children, game, params, depth),
    decreases game.spec_possible_moves().len() - from,
{
    let moves = game.spec_possible_moves();
    if depth >= params.max_depth || from >= moves.len() {
    } else {
        let next_move = moves[from as int];
        let next = game.spec_apply_move(next_move);
        let child = search(next, params, depth + 1, state.alpha, state.beta);
        let after = state.absorb(
            game.spec_current_player().spec_score_multiplier() as int,
            next_move,
            child,
        );
        assert forall|i: int| 0 <= i < after.children.len() implies is_search_of(
            (#[trigger] after.children[i]).1,
            game.spec_apply_move(after.children[i].0),
            params,
            depth + 1,
        ) by {
            if i < state.children.len() {
                assert(after.children[i] == state.children[i]);
            } else {
                assert(after.children[i].1 == search(
                    next,
                    params,
                    depth + 1,
                    state.alpha,
                    state.beta,
                ).node);
            }
        }
        if params.pruning && after.closed() {
        } else {
            lemma_expansion_children_are_searches(game, params, depth, from + 1, after);
        }
    }
}

/// The setting in which a win on the spot cannot be missed: no static score
/// lies beyond the score `decisive` of a win, which is positive and below the
/// highest score there is.
pub open spec fn wins_are_decisive<G: MinimaxDriver>(decisive: int) -> bool {
    &&& 0 < decisive < i32::MAX
    &&& scores_within::<G>(decisive)
}

/// Whether the window of an expansion is open for a win: a score of
/// `decisive` for the side to move lies within it, or on the bound that this
/// side moves.
pub open spec fn open_for_win(state: Expansion, multiplier: int, decisive: int) -> bool {
    &&& multiplier > 0 ==> state.alpha <= decisive < state.beta
    &&& multiplier < 0 ==> state.alpha < -decisive <= state.beta
}

/// An expansion whose window is open for a win, and which has a move that
/// wins on the spot, examines all moves and ends with the value of a win for
/// its best move.
pub proof fn lemma_expansion_finds_win<G: MinimaxDriver>(
    game: G,
    params: MinimaxParams,
    depth: nat,
    from: nat,
    state: Expansion,
    decisive: int,
    winning: int,
)
    requires
        game.well_formed(),
        params.well_formed(),
        depth < params.max_depth,
        wins_are_decisive::<G>(decisive),
        game.spec_current_player().spec_score_multiplier() != 0,
        0 <= winning < game.spec_possible_moves().len(),
        game.spec_apply_move(game.spec_possible_moves()[winning]).spec_evaluate_score().is_terminal,
        game.spec_apply_move(game.spec_possible_moves()[winning]).spec_evaluate_score().score
            * game.spec_current_player().spec_score_multiplier() == decisive,
        from <= game.spec_possible_moves().len(),
        expansion_within(
            state,
            game.spec_current_player().spec_score_multiplier() as int,
            decisive,
        ),
        open_for_win(state, game.spec_current_player().spec_score_multiplier() as int, decisive),
        from > winning ==> state.best_value == decisive && state.best_move is Some,
    ensures
        expand(game, params, depth, from, state).best_value == decisive,
    decreases game.spec_possible_moves().len() - from,
{
    let moves = game.spec_possible_moves();
    let multiplier = game.spec_current_player().spec_score_multiplier() as int;
    if from >= moves.len() {
    } else {
        let next_move = moves[from as int];
        assert(moves.contains(next_move));
        game.lemma_move_keeps_well_formed(next_move);
        let next = game.spec_apply_move(next_move);
        lemma_search_scores_within(next, params, depth + 1, state.alpha, state.beta, decisive);
        let child = search(next, params, depth + 1, state.alpha, state.beta);
        let after = state.absorb(multiplier, next_move, child);
        lemma_absorb_within(state, multiplier, next_move, child, decisive);
        let score = child.node.score;
        assert(-decisive <= score * multiplier <= decisive) by (nonlinear_arith)
            requires
                -1 <= multiplier <= 1,
                -decisive <= score <= decisive,
        ;
        if multiplier > 0 {
            assert(score * multiplier == score) by (nonlinear_arith)
                requires
                    multiplier == 1,
            ;
        } else {
            assert(score * multiplier == -score) by (nonlinear_arith)
                requires
                    multiplier == -1,
            ;
        }
        assert(open_for_win(after, multiplier, decisive));
        assert(!after.closed());
        if from == winning {
            assert(child.node == leaf(next.spec_evaluate_score().score as int));
            assert(score * multiplier == decisive);
        }
        assert(from + 1 > winning ==> after.best_value == decisive && after.best_move is Some);
        lemma_expansion_finds_win(game, params, depth, from + 1, after, decisive, winning);
    }
}

/// Where a win on the spot cannot be missed, a search from a position in
/// which the side to move has a move that wins on the spot takes a move that
/// is worth a win: whatever the weight of the other moves in a node's score,
/// and with or without pruning.
pub proof fn lemma_win_is_taken<G: MinimaxDriver>(
    game: G,
    params: MinimaxParams,
    decisive: int,
    winning: Move,
)
    requires
        game.well_formed(),
        params.well_formed(),
        params.max_depth > 0,
        wins_are_decisive::<G>(decisive),
        !game.spec_evaluate_score().is_terminal,
        game.spec_current_player().spec_score_multiplier() != 0,
        game.spec_possible_moves().contains(winning),
        game.spec_apply_move(winning).spec_evaluate_score().is_terminal,
        game.spec_apply_move(winning).spec_evaluate_score().score
            * game.spec_current_player().spec_score_multiplier() == decisive,
    ensures
        ({
            let root = search_root(game, params).node;
            let multiplier = game.spec_current_player().spec_score_multiplier() as int;
            &&& root.best_move is Some
            &&& game.spec_possible_moves().contains(root.best_move->0)
            &&& exists|i: int|
                0 <= i < root.moves.len() && (#[trigger] root.moves[i]).0 == root.best_move->0
                    && root.moves[i].1.score * multiplier == decisive
        }),
{
    let moves = game.spec_possible_moves();
    let multiplier = game.spec_current_player().spec_score_multiplier() as int;
    let at = choose|at: int| 0 <= at < moves.len() && moves[at] == winning;
    let start = Expansion::start(i32::MIN as int, i32::MAX as int);
    assert(expansion_within(start, multiplier, decisive)) by (nonlinear_arith)
        requires
            start.children.len() == 0,
            start.sum == 0,
            start.best_value == 0,
            0 <= decisive,
    ;
    lemma_expansion_finds_win(game, params, 0, 0, start, decisive, at);
    lemma_expansion_shape(game, params, 0, 0, start);
    lemma_search_shape(game, params, 0, i32::MIN as int, i32::MAX as int);
    let end = expand(game, params, 0, 0, start);
    let root = search_root(game, params).node;
    assert(root.moves == end.children);
    assert(root.best_move == end.best_move);
    assert(is_last_best(root.moves, multiplier, root.best_move, decisive));
}

/// Whether only a position whose evaluation is final has a static score as
/// high as `decisive`, the one way or the other.
pub open spec fn only_wins_are_decisive<G: MinimaxDriver>(decisive: int) -> bool {
    forall|game: G|
        #![trigger game.spec_evaluate_score()]
        game.well_formed() && !game.spec_evaluate_score().is_terminal ==> -decisive
            < game.spec_evaluate_score().score < decisive
}

/// With a depth factor below one, a blend of scores within a positive bound
/// lies strictly within that bound.
pub proof fn lemma_blend_below(best: int, sum: int, count: int, params: MinimaxParams, bound: int)
    requires
        params.well_formed(),
        params.depth_factor.numerator < params.depth_factor.denominator,
        count >= 1,
        0 < bound,
        -bound <= best <= bound,
        -bound * count <= sum <= bound * count,
    ensures
        -bound < blend_score(best, sum, count, params) < bound,
{
    let wn = params.weight_suboptimal.numerator as int;
    let wd = params.weight_suboptimal.denominator as int;
    let fnum = params.depth_factor.numerator as int;
    let fd = params.depth_factor.denominator as int;
    let rest_n = (wd - wn) * count;
    let wn_n = wn * count;
    let wd_n = wd * count;
    assert(rest_n + wn_n == wd_n && 0 <= rest_n && 0 <= wn_n && 0 < wd_n) by (nonlinear_arith)
        requires
            rest_n == (wd - wn) * count,
            wn_n == wn * count,
            wd_n == wd * count,
            0 <= wn <= wd,
            0 < wd,
            1 <= count,
    ;
    let second = best * (wd - wn) * count;
    assert(-bound * rest_n <= second <= bound * rest_n) by (nonlinear_arith)
        requires
            second == best * (wd - wn) * count,
            rest_n == (wd - wn) * count,
            0 <= rest_n,
            -bound <= best <= bound,
    ;
    let third = sum * wn;
    assert(-bound * wn_n <= third <= bound * wn_n) by (nonlinear_arith)
        requires
            third == sum * wn,
            wn_n == wn * count,
            0 <= wn,
            -bound * count <= sum <= bound * count,
    ;
    let mixed = second + third;
    assert(-bound * wd_n <= mixed <= bound * wd_n) by (nonlinear_arith)
        requires
            mixed == second + third,
            -bound * rest_n <= second <= bound * rest_n,
            -bound * wn_n <= third <= bound * wn_n,
            rest_n + wn_n == wd_n,
    ;
    let top = mixed * fnum;
    let bottom = wd * count * fd;
    assert(0 < bottom && -(bound * bottom) < top < bound * bottom) by (nonlinear_arith)
        requires
            top == mixed * fnum,
            bottom == wd * count * fd,
            wd_n == wd * count,
            -bound * wd_n <= mixed <= bound * wd_n,
            0 < fnum < fd,
            0 < wd_n,
            0 < bound,
    ;
    if top >= 0 {
        assert(0 <= top / bottom < bound) by (nonlinear_arith)
            requires
                0 <= top < bound * bottom,
                0 < bottom,
        ;
    } else {
        assert(0 <= (-top) / bottom < bound) by (nonlinear_arith)
            requires
                0 <= -top < bound * bottom,
                0 < bottom,
        ;
    }
}

/// With a depth factor below one, where only final positions have the score
/// of a win, a search from a position that is not final gives a score below
/// that of a win.
pub proof fn lemma_search_below_win<G: MinimaxDriver>(
    game: G,
    params: MinimaxParams,
    depth: nat,
    alpha: int,
    beta: int,
    decisive: int,
)
    requires
        game.well_formed(),
        params.well_formed(),
        params.depth_factor.numerator < params.depth_factor.denominator,
        wins_are_decisive::<G>(decisive),
        only_wins_are_decisive::<G>(decisive),
        !game.spec_evaluate_score().is_terminal,
    ensures
        -decisive < search(game, params, depth, alpha, beta).node.score < decisive,
{
    let multiplier = game.spec_current_player().spec_score_multiplier() as int;
    if depth >= params.max_depth {
    } else {
        let start = Expansion::start(alpha, beta);
        assert(expansion_within(start, multiplier, decisive)) by (nonlinear_arith)
            requires
                start.children.len() == 0,
                start.sum == 0,
                start.best_value == 0,
                0 <= decisive,
        ;
        lemma_expansion_scores_within(game, params, depth, 0, start, decisive);
        let end = expand(game, params, depth, 0, start);
        if end.children.len() > 0 {
            lemma_blend_below(
                end.best_value * multiplier,
                end.sum,
                end.children.len() as int,
                params,
                decisive,
            );
        }
    }
}

/// With a depth factor below one, where a win on the spot cannot be missed
/// and only final positions have the score of a win, a search from a position
/// in which the side to move has a move that wins on the spot takes such a
/// move: whatever the weight of the other moves in a node's score, and with or
/// without pruning.
pub proof fn lemma_win_on_the_spot_is_taken<G: MinimaxDriver>(
    game: G,
    params: MinimaxParams,
    decisive: int,
    winning: Move,
)
    requires
        game.well_formed(),
        params.well_formed(),
        params.max_depth > 0,
        params.depth_factor.numerator < params.depth_factor.denominator,
        wins_are_decisive::<G>(decisive),
        only_wins_are_decisive::<G>(decisive),
        !game.spec_evaluate_score().is_terminal,
        game.spec_current_player().spec_score_multiplier() != 0,
        game.spec_possible_moves().contains(winning),
        game.spec_apply_move(winning).spec_evaluate_score().is_terminal,
        game.spec_apply_move(winning).spec_evaluate_score().score
            * game.spec_current_player().spec_score_multiplier() == decisive,
    ensures
        ({
            let root = search_root(game, params).node;
            let multiplier = game.spec_current_player().spec_score_multiplier() as int;
            &&& root.best_move is Some
            &&& game.spec_possible_moves().contains(root.best_move->0)
            &&& game.spec_apply_move(root.best_move->0).spec_evaluate_score().is_terminal
            &&& game.spec_apply_move(root.best_move->0).spec_evaluate_score().score * multiplier
                == decisive
        }),
{
    let multiplier = game.spec_current_player().spec_score_multiplier() as int;
    lemma_win_is_taken(game, params, decisive, winning);
    let root = search_root(game, params).node;
    let best = root.best_move->0;
    let i = choose|i: int|
        0 <= i < root.moves.len() && (#[trigger] root.moves[i]).0 == best && root.moves[i].1.score
            * multiplier == decisive;
    let start = Expansion::start(i32::MIN as int, i32::MAX as int);
    assert(children_are_searches(start.children, game, params, 0));
    lemma_expansion_children_are_searches(game, params, 0, 0, start);
    let next = game.spec_apply_move(best);
    game.lemma_move_keeps_well_formed(best);
    assert(is_search_of(root.moves[i].1, next, params, 1));
    let (alpha, beta) = choose|alpha: int, beta: int|
        root.moves[i].1 == #[trigger] search(next, params, 1, alpha, beta).node;
    let score = root.moves[i].1.score;
    if multiplier > 0 {
        assert(score * multiplier == score) by (nonlinear_arith)
            requires
                multiplier == 1,
        ;
    } else {
        assert(score * multiplier == -score) by (nonlinear_arith)
            requires
                multiplier == -1,
        ;
    }
    if !next.spec_evaluate_score().is_terminal {
        lemma_search_below_win(next, params, 1, alpha, beta, decisive);
    }
}

/// Whether the parameters make the search a plain one: the best move alone
/// decides a node's score, and a score does not shrink on its way up.
pub open spec fn is_plain(params: MinimaxParams) -> bool {
    &&& params.weight_suboptimal.numerator == 0
    &&& params.depth_factor.numerator == params.depth_factor.denominator
}

/// In a plain search the score of a node is the score of its best child.
pub proof fn lemma_plain_blend(best: int, sum: int, count: int, params: MinimaxParams)
    requires
        params.well_formed(),
        is_plain(params),
        count >= 1,
    ensures
        blend_score(best, sum, count, params) == best,
{
    let wd = params.weight_suboptimal.denominator as int;
    let fd = params.depth_factor.denominator as int;
    let bottom = wd * count * fd;
    let top = (best * (wd - 0) * count + sum * 0) * fd;
    assert(0 < bottom && top == best * bottom && -top == (-best) * bottom) by (nonlinear_arith)
        requires
            bottom == wd * count * fd,
            top == (best * (wd - 0) * count + sum * 0) * fd,
            0 < wd,
            0 < fd,
            1 <= count,
    ;
    if top >= 0 {
        assert(top / bottom == best) by (nonlinear_arith)
            requires
                top == best * bottom,
                0 < bottom,
        ;
    } else {
        assert((-top) / bottom == -best) by (nonlinear_arith)
            requires
                -top == (-best) * bottom,
                0 < bottom,
        ;
    }
}

/// Whether a score found with pruning under the window `(alpha, beta)` says
/// of the true score what pruning leaves it to say: within the window it is
/// the true score, and where the true score lies on or beyond a bound of the
/// window, it lies on or beyond that bound too.
pub open spec fn agrees_within(pruned: int, full: int, alpha: int, beta: int) -> bool {
    &&& alpha < full < beta ==> pruned == full
    &&& full <= alpha ==> pruned <= alpha
    &&& full >= beta ==> pruned >= beta
}

/// Whether an expansion with pruning keeps track of one without, for a side
/// with the multiplier `1` or `-1` and a node with the window
/// `(alpha, beta)`. Seen from the side to move, the upper bound of the window
/// has stayed, the lower bound has risen to the best value so far, and that
/// value agrees with the best value of the expansion without pruning.
pub open spec fn keeps_track(
    pruned: Expansion,
    full: Expansion,
    multiplier: int,
    alpha: int,
    beta: int,
) -> bool {
    let low = if multiplier > 0 {
        alpha
    } else {
        -beta
    };
    let high = if multiplier > 0 {
        beta
    } else {
        -alpha
    };
    let now_low = if multiplier > 0 {
        pruned.alpha
    } else {
        -pruned.beta
    };
    let now_high = if multiplier > 0 {
        pruned.beta
    } else {
        -pruned.alpha
    };
    &&& now_high == high
    &&& pruned.best_move is None <==> full.best_move is None
    &&& pruned.best_move is None <==> pruned.children.len() == 0
    &&& full.best_move is None <==> full.children.len() == 0
    &&& pruned.best_move is None ==> now_low == low
    &&& pruned.best_move is Some ==> {
        &&& now_low == if low < pruned.best_value {
            pruned.best_value
        } else {
            low
        }
        &&& agrees_within(pruned.best_value, full.best_value, low, high)
    }
}

/// An expansion without pruning that has a best move keeps one, and its
/// best value does not fall.
pub proof fn lemma_best_value_grows<G: MinimaxDriver>(
    game: G,
    params: MinimaxParams,
    depth: nat,
    from: nat,
    state: Expansion,
)
    requires
        state.best_move is Some,
        state.children.len() > 0,
    ensures
        expand(game, params, depth, from, state).best_move is Some,
        expand(game, params, depth, from, state).children.len() > 0,
        expand(game, params, depth, from, state).best_value >= state.best_value,
    decreases game.spec_possible_moves().len() - from,
{
    let moves = game.spec_possible_moves();
    if depth >= params.max_depth || from >= moves.len() {
    } else {
        let next_move = moves[from as int];
        let child = search(
            game.spec_apply_move(next_move),
            params,
            depth + 1,
            state.alpha,
            state.beta,
        );
        let after = state.absorb(
            game.spec_current_player().spec_score_multiplier() as int,
            next_move,
            child,
        );
        if params.pruning && after.closed() {
        } else {
            lemma_best_value_grows(game, params, depth, from + 1, after);
        }
    }
}

/// In a plain search, pruning leaves the score of a position as it is
/// wherever the score lies within the window; a score on or beyond a bound of
/// the window is found on or beyond that bound.
pub proof fn lemma_pruned_score_agrees<G: MinimaxDriver>(
    game: G,
    params: MinimaxParams,
    depth: nat,
    alpha: int,
    beta: int,
    other_window: (int, int),
)
    requires
        params.well_formed(),
        is_plain(params),
        alpha < beta,
    ensures
        agrees_within(
            search(game, MinimaxParams { pruning: true, ..params }, depth, alpha, beta).node.score,
            search(
                game,
                MinimaxParams { pruning: false, ..params },
                depth,
                other_window.0,
                other_window.1,
            ).node.score,
            alpha,
            beta,
        ),
    decreases params.max_depth - depth, 1nat, 0nat,
{
    let with = MinimaxParams { pruning: true, ..params };
    let without = MinimaxParams { pruning: false, ..params };
    let evaluation = game.spec_evaluate_score();
    let multiplier = game.spec_current_player().spec_score_multiplier() as int;
    if evaluation.is_terminal || depth >= params.max_depth {
    } else {
        let pruned = Expansion::start(alpha, beta);
        let full = Expansion::start(other_window.0, other_window.1);
        lemma_expansion_shape(game, with, depth, 0, pruned);
        lemma_expansion_shape(game, without, depth, 0, full);
        let pruned_end = expand(game, with, depth, 0, pruned);
        let full_end = expand(game, without, depth, 0, full);
        if game.spec_possible_moves().len() > 0 {
            lemma_plain_blend(
                pruned_end.best_value * multiplier,
                pruned_end.sum,
                pruned_end.children.len() as int,
                with,
            );
            lemma_plain_blend(
                full_end.best_value * multiplier,
                full_end.sum,
                full_end.children.len() as int,
                without,
            );
            if multiplier != 0 {
                lemma_pruned_expansion_agrees(game, params, depth, 0, pruned, full, alpha, beta);
                if multiplier > 0 {
                    assert(pruned_end.best_value * multiplier == pruned_end.best_value)
                        by (nonlinear_arith)
                        requires
                            multiplier == 1,
                    ;
                    assert(full_end.best_value * multiplier == full_end.best_value)
                        by (nonlinear_arith)
                        requires
                            multiplier == 1,
                    ;
                } else {
                    assert(pruned_end.best_value * multiplier == -pruned_end.best_value)
                        by (nonlinear_arith)
                        requires
                            multiplier == -1,
                    ;
                    assert(full_end.best_value * multiplier == -full_end.best_value)
                        by (nonlinear_arith)
                        requires
                            multiplier == -1,
                    ;
                }
            } else {
                assert(pruned_end.best_value * multiplier == 0) by (nonlinear_arith)
                    requires
                        multiplier == 0,
                ;
                assert(full_end.best_value * multiplier == 0) by (nonlinear_arith)
                    requires
                        multiplier == 0,
                ;
            }
        }
    }
}

/// In a plain search, an expansion with pruning that keeps track of one
/// without ends with a best value that agrees with that of the other.
pub proof fn lemma_pruned_expansion_agrees<G: MinimaxDriver>(
    game: G,
    params: MinimaxParams,
    depth: nat,
    from: nat,
    pruned: Expansion,
    full: Expansion,
    alpha: int,
    beta: int,
)
    requires
        params.well_formed(),
        is_plain(params),
        depth < params.max_depth,
        alpha < beta,
        game.spec_current_player().spec_score_multiplier() != 0,
        keeps_track(
            pruned,
            full,
            game.spec_current_player().spec_score_multiplier() as int,
            alpha,
            beta,
        ),
        !pruned.closed(),
    ensures
        ({
            let multiplier = game.spec_current_player().spec_score_multiplier() as int;
            let pruned_end = expand(
                game,
                MinimaxParams { pruning: true, ..params },
                depth,
                from,
                pruned,
            );
            let full_end = expand(
                game,
                MinimaxParams { pruning: false, ..params },
                depth,
                from,
                full,
            );
            pruned_end.children.len() > 0 ==> agrees_within(
                pruned_end.best_value,
                full_end.best_value,
                if multiplier > 0 {
                    alpha
                } else {
                    -beta
                },
                if multiplier > 0 {
                    beta
                } else {
                    -alpha
                },
            )
        }),
    decreases params.max_depth - depth, 0nat, game.spec_possible_moves().len() - from,
{
    let with = MinimaxParams { pruning: true, ..params };
    let without = MinimaxParams { pruning: false, ..params };
    let moves = game.spec_possible_moves();
    let multiplier = game.spec_current_player().spec_score_multiplier() as int;
    if from >= moves.len() {
    } else {
        let next_move = moves[from as int];
        let next = game.spec_apply_move(next_move);
        lemma_pruned_score_agrees(
            next,
            params,
            depth + 1,
            pruned.alpha,
            pruned.beta,
            (full.alpha, full.beta),
        );
        let pruned_child = search(next, with, depth + 1, pruned.alpha, pruned.beta);
        let full_child = search(next, without, depth + 1, full.alpha, full.beta);
        let pruned_after = pruned.absorb(multiplier, next_move, pruned_child);
        let full_after = full.absorb(multiplier, next_move, full_child);
        if multiplier > 0 {
            assert(pruned_child.node.score * multiplier == pruned_child.node.score)
                by (nonlinear_arith)
                requires
                    multiplier == 1,
            ;
            assert(full_child.node.score * multiplier == full_child.node.score)
                by (nonlinear_arith)
                requires
                    multiplier == 1,
            ;
        } else {
            assert(pruned_child.node.score * multiplier == -pruned_child.node.score)
                by (nonlinear_arith)
                requires
                    multiplier == -1,
            ;
            assert(full_child.node.score * multiplier == -full_child.node.score)
                by (nonlinear_arith)
                requires
                    multiplier == -1,
            ;
        }
        assert(keeps_track(pruned_after, full_after, multiplier, alpha, beta));
        if pruned_after.closed() {
            lemma_best_value_grows(game, without, depth, from + 1, full_after);
        } else {
            lemma_pruned_expansion_agrees(
                game,
                params,
                depth,
                from + 1,
                pruned_after,
                full_after,
                alpha,
                beta,
            );
        }
    }
}

/// In a plain search, the score of the root is the same with pruning as
/// without.
pub proof fn lemma_pruning_keeps_root_score<G: MinimaxDriver>(game: G, params: MinimaxParams)
    requires
        params.well_formed(),
        is_plain(params),
    ensures
        search_root(game, MinimaxParams { pruning: true, ..params }).node.score == search_root(
            game,
            MinimaxParams { pruning: false, ..params },
        ).node.score,
{
    let with = MinimaxParams { pruning: true, ..params };
    let without = MinimaxParams { pruning: false, ..params };
    lemma_pruned_score_agrees(
        game,
        params,
        0,
        i32::MIN as int,
        i32::MAX as int,
        (i32::MIN as int, i32::MAX as int),
    );
    lemma_plain_score_in_range(game, with, 0, i32::MIN as int, i32::MAX as int);
    lemma_plain_score_in_range(game, without, 0, i32::MIN as int, i32::MAX as int);
}

/// In a plain search every score is a static score of some position, and so
/// a score that fits 32 bits.
pub proof fn lemma_plain_score_in_range<G: MinimaxDriver>(
    game: G,
    params: MinimaxParams,
    depth: nat,
    alpha: int,
    beta: int,
)
    requires
        params.well_formed(),
        is_plain(params),
    ensures
        i32::MIN <= search(game, params, depth, alpha, beta).node.score <= i32::MAX,
    decreases params.max_depth - depth, 1nat, 0nat,
{
    let evaluation = game.spec_evaluate_score();
    let multiplier = game.spec_current_player().spec_score_multiplier() as int;
    if evaluation.is_terminal || depth >= params.max_depth {
    } else {
        let start = Expansion::start(alpha, beta);
        assert(start.best_value * multiplier == 0) by (nonlinear_arith)
            requires
                start.best_value == 0,
        ;
        lemma_plain_expansion_in_range(game, params, depth, 0, start);
        let end = expand(game, params, depth, 0, start);
        if end.children.len() > 0 {
            lemma_plain_blend(
                end.best_value * multiplier,
                end.sum,
                end.children.len() as int,
                params,
            );
        }
    }
}

/// In a plain search the score of the best move of an expansion fits 32
/// bits.
pub proof fn lemma_plain_expansion_in_range<G: MinimaxDriver>(
    game: G,
    params: MinimaxParams,
    depth: nat,
    from: nat,
    state: Expansion,
)
    requires
        params.well_formed(),
        is_plain(params),
        i32::MIN <= state.best_value * game.spec_current_player().spec_score_multiplier()
            <= i32::MAX,
    ensures
        i32::MIN <= expand(game, params, depth, from, state).best_value
            * game.spec_current_player().spec_score_multiplier() <= i32::MAX,
    decreases params.max_depth - depth, 0nat, game.spec_possible_moves().len() - from,
{
    let moves = game.spec_possible_moves();
    let multiplier = game.spec_current_player().spec_score_multiplier() as int;
    if depth >= params.max_depth || from >= moves.len() {
    } else {
        let next_move = moves[from as int];
        let next = game.spec_apply_move(next_move);
        lemma_plain_score_in_range(next, params, depth + 1, state.alpha, state.beta);
        let child = search(next, params, depth + 1, state.alpha, state.beta);
        let after = state.absorb(multiplier, next_move, child);
        let score = child.node.score;
        assert(i32::MIN <= score * multiplier * multiplier <= i32::MAX) by (nonlinear_arith)
            requires
                i32::MIN <= score <= i32::MAX,
                -1 <= multiplier <= 1,
        ;
        if params.pruning && after.closed() {
        } else {
            lemma_plain_expansion_in_range(game, params, depth, from + 1, after);
        }
    }
}

} // verus!
