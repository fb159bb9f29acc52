//! The Monte Carlo search tree over Connect Four boards.
//!
//! Each node owns a board snapshot, the player to move there, the move
//! that led to it, a visit count, an accumulated weight, and its children.
//! The weight follows the relative-to-mover convention: it counts the
//! simulations through the node whose winner was not the node's own mover,
//! so `weight / visits` is the node's win rate from its parent's
//! perspective, which is what selection maximizes. A simulation walks down
//! the tree by the UCT score, evaluates a fresh leaf by one random
//! rollout, expands a once-visited leaf into one child per legal move,
//! and on the way back up adds one visit (and the outcome's weight) to
//! every node it passed.

use crate::connect_four::GameBoard;
use crate::connect_four::GameMove;
use crate::connect_four::GameResult;
use crate::connect_four::GameState;
use crate::connect_four::Player;
use crate::connect_four::grid_after;
use crate::connect_four::lemma_legal_empty_iff_full;
use crate::connect_four::lemma_legal_from_char;
use crate::connect_four::lemma_stone_count_bound;
use crate::connect_four::legal_moves_spec;
use crate::connect_four::state_after;
use crate::connect_four::stone_count;
use crate::fixed::SCALE;
use crate::fixed::isqrt;
use crate::fixed::ln_scaled;
use crate::fixed::ln_scaled_spec;
use crate::fixed::lemma_sqrt_le;
use crate::fixed::sqrt_floor;
use vstd::arithmetic::div_mod::lemma_multiply_divide_le;
use vstd::prelude::*;

verus! {

/// One node of the search tree.
pub struct Node {
    game_board: GameBoard,
    current_player: Player,
    game_move: Option<GameMove>,
    sample_count: u64,
    children: Vec<Node>,
    weight: u64,
}

/// The UCT score of a visited child in fixed point (scaled by `SCALE`):
/// the child's win rate `w / n` plus the exploration bonus
/// `sqrt(2 * ln(parent) / n)`, with the square-root constant folded into
/// the radicand, so the exploration constant is the square root of two.
pub open spec fn uct_score_spec(w: u64, n: u64, parent: u64) -> int {
    w * SCALE / (n as int) + sqrt_floor((2 * SCALE * ln_scaled_spec(parent as nat) / (n as int)) as nat)
}

/// The total visit count of a sequence of nodes.
pub open spec fn sum_counts(s: Seq<Node>) -> int
    decreases s.len(),
{
    if s.len() == 0 {
        0
    } else {
        s[0].count_spec() + sum_counts(s.drop_first())
    }
}

proof fn lemma_sum_counts_nonneg(s: Seq<Node>)
    ensures
        sum_counts(s) >= 0,
    decreases s.len(),
{
    if s.len() > 0 {
        lemma_sum_counts_nonneg(s.drop_first());
    }
}

/// Each node's visit count is at most the sequence's total.
pub proof fn lemma_sum_counts_element_bound(s: Seq<Node>, i: int)
    requires
        0 <= i < s.len(),
    ensures
        s[i].count_spec() <= sum_counts(s),
    decreases s.len(),
{
    lemma_sum_counts_nonneg(s.drop_first());
    if i == 0 {
    } else {
        lemma_sum_counts_element_bound(s.drop_first(), i - 1);
    }
}

proof fn lemma_sum_counts_zero(s: Seq<Node>)
    requires
        forall|i: int| 0 <= i < s.len() ==> #[trigger] s[i].count_spec() == 0,
    ensures
        sum_counts(s) == 0,
    decreases s.len(),
{
    if s.len() > 0 {
        assert(forall|i: int|
            0 <= i < s.drop_first().len() ==> #[trigger] s.drop_first()[i].count_spec() == 0);
        lemma_sum_counts_zero(s.drop_first());
    }
}

proof fn lemma_sum_counts_update(s: Seq<Node>, i: int, c: Node)
    requires
        0 <= i < s.len(),
    ensures
        sum_counts(s.update(i, c)) == sum_counts(s) - s[i].count_spec() + c.count_spec(),
    decreases s.len(),
{
    if i == 0 {
        assert(s.update(0, c).drop_first() =~= s.drop_first());
    } else {
        assert(s.update(i, c).drop_first() =~= s.drop_first().update(i - 1, c));
        lemma_sum_counts_update(s.drop_first(), i - 1, c);
    }
}

/// The backpropagation accounting law: in a well-formed tree, an expanded
/// node's direct children together hold exactly one visit fewer than the
/// node itself — the node absorbed one simulation as a leaf before its
/// expansion, and every later simulation went through exactly one child.
/// In particular, after `n` simulations on a fresh root of an ongoing
/// game, the root counts `n` visits and its children `n - 1`.
pub proof fn lemma_backpropagation_accounting(node: Node)
    requires
        node.wf(),
        node.children_spec().len() > 0,
    ensures
        sum_counts(node.children_spec()) + 1 == node.count_spec(),
{
}

impl Node {
    /// The node's board snapshot.
    pub closed spec fn board(&self) -> GameBoard {
        self.game_board
    }

    /// The snapshot's grid.
    pub open spec fn grid(self) -> Seq<Option<Player>> {
        self.board().grid()
    }

    /// The snapshot's cached game state.
    pub open spec fn bstate(self) -> GameState {
        self.board().state_spec()
    }

    /// The player to move at this node.
    pub closed spec fn player_spec(&self) -> Player {
        self.current_player
    }

    /// The move that produced this node from its parent; `None` at a root.
    pub closed spec fn move_spec(&self) -> Option<GameMove> {
        self.game_move
    }

    /// How many simulations have passed through this node.
    pub closed spec fn count_spec(&self) -> u64 {
        self.sample_count
    }

    /// Among those simulations, how many ended in a win for a player
    /// other than this node's mover.
    pub closed spec fn weight_spec(&self) -> u64 {
        self.weight
    }

    /// The node's children.
    pub closed spec fn children_spec(&self) -> Seq<Node> {
        self.children@
    }

    /// Well-formedness of the subtree rooted here: the board is
    /// well-formed, the weight never exceeds the visit count, a leaf of an
    /// ongoing game has been visited at most once (a second visit expands
    /// it), and an expanded node has one child per legal move — in move
    /// order, each child well-formed and one simulation short of the
    /// parent's total, so that every simulation through the parent beyond
    /// its own first is accounted to exactly one child.
    pub open spec fn wf(self) -> bool
        decreases self, 1nat,
    {
        &&& self.board().wf()
        &&& self.weight_spec() <= self.count_spec()
        &&& (self.children_spec().len() == 0 && self.bstate() is Ongoing ==> self.count_spec()
            <= 1)
        &&& (self.children_spec().len() > 0 ==> {
            &&& self.bstate() is Ongoing
            &&& self.children_spec().len() == legal_moves_spec(self.grid()).len()
            &&& sum_counts(self.children_spec()) + 1 == self.count_spec()
            &&& forall|i: int|
                #![trigger self.children_spec()[i]]
                0 <= i < self.children_spec().len() ==> self.child_ok(i)
        })
    }

    /// The `i`-th child extends this node by the `i`-th legal move: it
    /// records that move, the opponent to move, the board after the move,
    /// and is itself well-formed.
    pub open spec fn child_ok(self, i: int) -> bool
        decreases self, 0nat,
        via Self::child_ok_decreases
    {
        if 0 <= i < self.children_spec().len() {
            let c = self.children_spec()[i];
            let m = legal_moves_spec(self.grid())[i];
            &&& c.move_spec() == Some(m)
            &&& c.player_spec() == self.player_spec().other_spec()
            &&& c.grid() == grid_after(self.grid(), self.player_spec(), m.x as int)
            &&& c.bstate() == state_after(self.grid(), self.player_spec(), m.x as int)
            &&& c.wf()
        } else {
            true
        }
    }

    #[via_fn]
    proof fn child_ok_decreases(self, i: int) {
        if 0 <= i < self.children@.len() {
            assert(decreases_to!(self, 0nat => self.children@[i], 1nat));
        }
    }

    /// Creates a fresh, never-visited root over a board snapshot.
    pub fn new(game_board: GameBoard, current_player: Player) -> (r: Node)
        requires
            game_board.wf(),
        ensures
            r.wf(),
            r.grid() == game_board.grid(),
            r.bstate() == game_board.state_spec(),
            r.player_spec() == current_player,
            r.move_spec() is None,
            r.count_spec() == 0,
            r.weight_spec() == 0,
            r.children_spec().len() == 0,
    {
        Node {
            game_board,
            current_player,
            game_move: None,
            sample_count: 0,
            children: Vec::new(),
            weight: 0,
        }
    }

    /// The board this node searches from.
    pub fn get_board(&self) -> (r: &GameBoard)
        ensures
            r.grid() == self.grid(),
            r.state_spec() == self.bstate(),
    {
        &self.game_board
    }

    /// How many simulations have passed through this node.
    pub fn visit_count(&self) -> (r: u64)
        ensures
            r == self.count_spec(),
    {
        self.sample_count
    }

    /// The accumulated weight: among the simulations through this node,
    /// how many ended in a win for a player other than this node's mover.
    /// The node's win rate estimate for its parent's mover is this over
    /// `visit_count`.
    pub fn weight(&self) -> (r: u64)
        ensures
            r == self.weight_spec(),
    {
        self.weight
    }

    /// The node's win rate estimate for its parent's mover, in thousandths:
    /// the share of simulations through this node that ended in a win for a
    /// player other than this node's mover. Zero before the first visit.
    pub fn win_rate_estimate(&self) -> (r: u64)
        requires
            self.wf(),
        ensures
            r as int == if self.count_spec() == 0 {
                0int
            } else {
                self.weight_spec() * 1000 / self.count_spec() as int
            },
            r <= 1000,
    {
        if self.sample_count == 0 {
            return 0;
        }
        proof {
            assert((self.weight_spec() as int) * 1000 <= (self.count_spec() as int) * 1000)
                by (nonlinear_arith)
                requires
                    0 <= (self.weight_spec() as int) <= (self.count_spec() as int),
            ;
            lemma_multiply_divide_le(
                (self.weight_spec() as int) * 1000,
                self.count_spec() as int,
                1000int,
            );
        }
        (((self.weight as u128) * 1000) / (self.sample_count as u128)) as u64
    }

    /// How many children the node has; zero until its first expansion.
    pub fn child_count(&self) -> (r: usize)
        ensures
            r == self.children_spec().len(),
    {
        self.children.len()
    }

    /// The visit count of the `i`-th child.
    pub fn child_visit_count(&self, i: usize) -> (r: u64)
        requires
            i < self.children_spec().len(),
        ensures
            r == self.children_spec()[i as int].count_spec(),
    {
        self.children[i].sample_count
    }

    /// The accumulated weight of the `i`-th child.
    pub fn child_weight(&self, i: usize) -> (r: u64)
        requires
            i < self.children_spec().len(),
        ensures
            r == self.children_spec()[i as int].weight_spec(),
    {
        self.children[i].weight
    }

    /// The move that leads to the `i`-th child.
    pub fn child_move(&self, i: usize) -> (r: Option<GameMove>)
        requires
            i < self.children_spec().len(),
        ensures
            r == self.children_spec()[i as int].move_spec(),
    {
        self.children[i].game_move
    }

    /// Creates one fresh child per legal move, in move order: each child
    /// holds the board after that move with the opponent to move, and has
    /// never been visited.
    fn generate_children(&self) -> (r: Vec<Node>)
        requires
            self.board().wf(),
            self.bstate() is Ongoing,
        ensures
            r@.len() == legal_moves_spec(self.grid()).len(),
            forall|i: int|
                0 <= i < r@.len() ==> {
                    let c = #[trigger] r@[i];
                    let m = legal_moves_spec(self.grid())[i];
                    &&& c.wf()
                    &&& c.move_spec() == Some(m)
                    &&& c.player_spec() == self.player_spec().other_spec()
                    &&& c.grid() == grid_after(self.grid(), self.player_spec(), m.x as int)
                    &&& c.bstate() == state_after(self.grid(), self.player_spec(), m.x as int)
                    &&& c.count_spec() == 0
                    &&& c.weight_spec() == 0
                    &&& c.children_spec().len() == 0
                },
    {
        let ghost g = self.grid();
        let moves = self.game_board.get_possible_moves();
        proof {
            lemma_legal_from_char(g, 0);
        }
        let mut children: Vec<Node> = Vec::new();
        let mut j: usize = 0;
        while j < moves.len()
            invariant
                self.board().wf(),
                self.bstate() is Ongoing,
                g == self.grid(),
                moves@ == legal_moves_spec(g),
                forall|m: GameMove|
                    #[trigger] legal_moves_spec(g).contains(m) <==> (m.x < 7 && !crate::connect_four::col_full(
                        g,
                        m.x as int,
                    )),
                j <= moves@.len(),
                children@.len() == j,
                forall|i: int|
                    0 <= i < j ==> {
                        let c = #[trigger] children@[i];
                        let m = legal_moves_spec(g)[i];
                        &&& c.wf()
                        &&& c.move_spec() == Some(m)
                        &&& c.player_spec() == self.player_spec().other_spec()
                        &&& c.grid() == grid_after(g, self.player_spec(), m.x as int)
                        &&& c.bstate() == state_after(g, self.player_spec(), m.x as int)
                        &&& c.count_spec() == 0
                        &&& c.weight_spec() == 0
                        &&& c.children_spec().len() == 0
                    },
            decreases moves@.len() - j,
        {
            let m = moves[j];
            proof {
                assert(legal_moves_spec(g).contains(moves@[j as int]));
            }
            let mut new_board = self.game_board.clone();
            let applied = new_board.drop_stone(self.current_player, m);
            proof {
                assert(applied is Ok);
            }
            let child = Node {
                game_board: new_board,
                current_player: self.current_player.other(),
                game_move: Some(m),
                sample_count: 0,
                children: Vec::new(),
                weight: 0,
            };
            children.push(child);
            j = j + 1;
        }
        children
    }

    /// The index of the child a simulation descends into: the last
    /// never-visited child if one exists — its UCT score stands for plus
    /// infinity — and otherwise a child of maximal UCT score against the
    /// parent's current visit count.
    fn select_child_index(&self) -> (r: usize)
        requires
            self.wf(),
            self.children_spec().len() > 0,
        ensures
            r < self.children_spec().len(),
            (exists|i: int|
                0 <= i < self.children_spec().len() && #[trigger] self.children_spec()[i].count_spec()
                    == 0) ==> self.children_spec()[r as int].count_spec() == 0,
            (forall|i: int|
                0 <= i < self.children_spec().len() ==> #[trigger] self.children_spec()[i].count_spec()
                    > 0) ==> forall|i: int|
                0 <= i < self.children_spec().len() ==> uct_score_spec(
                    (#[trigger] self.children_spec()[i]).weight_spec(),
                    self.children_spec()[i].count_spec(),
                    self.count_spec(),
                ) <= uct_score_spec(
                    self.children_spec()[r as int].weight_spec(),
                    self.children_spec()[r as int].count_spec(),
                    self.count_spec(),
                ),
    {
        let n = self.children.len();
        let mut unvisited: usize = n;
        let mut i: usize = 0;
        while i < n
            invariant
                n == self.children_spec().len(),
                i <= n,
                unvisited <= n,
                unvisited < n ==> self.children_spec()[unvisited as int].count_spec() == 0,
                unvisited == n ==> forall|k: int|
                    0 <= k < i ==> #[trigger] self.children_spec()[k].count_spec() > 0,
            decreases n - i,
        {
            if self.children[i].sample_count == 0 {
                unvisited = i;
            }
            i = i + 1;
        }
        if unvisited < n {
            return unvisited;
        }
        let parent_visits = self.sample_count;
        let mut best: usize = 0;
        let mut best_score: u64 = self.child_uct_value(0, parent_visits);
        let mut j: usize = 1;
        while j < n
            invariant
                self.wf(),
                n == self.children_spec().len(),
                parent_visits == self.count_spec(),
                forall|k: int|
                    0 <= k < n ==> #[trigger] self.children_spec()[k].count_spec() > 0,
                1 <= j <= n,
                best < j,
                best_score as int == uct_score_spec(
                    self.children_spec()[best as int].weight_spec(),
                    self.children_spec()[best as int].count_spec(),
                    parent_visits,
                ),
                forall|k: int|
                    0 <= k < j ==> uct_score_spec(
                        (#[trigger] self.children_spec()[k]).weight_spec(),
                        self.children_spec()[k].count_spec(),
                        parent_visits,
                    ) <= best_score as int,
            decreases n - j,
        {
            let score = self.child_uct_value(j, parent_visits);
            if score >= best_score {
                best = j;
                best_score = score;
            }
            j = j + 1;
        }
        best
    }

    /// Runs one full simulation pass from this node: selection down the
    /// existing children by UCT score, expansion of a once-visited leaf
    /// into one child per legal move (routing the simulation into the
    /// first), evaluation of a fresh leaf by one random rollout — a node
    /// whose game is already decided returns that outcome directly — and
    /// backpropagation: this node's visit count grows by one, and its
    /// weight by one exactly when the returned outcome is a win for a
    /// player other than this node's mover. The board snapshot, mover and
    /// originating move never change; an already-expanded node keeps its
    /// children, with their visit total growing by one.
    pub fn mcts(&mut self) -> (r: GameResult)
        requires
            old(self).wf(),
            old(self).count_spec() < u64::MAX,
        ensures
            final(self).wf(),
            final(self).count_spec() == old(self).count_spec() + 1,
            final(self).grid() == old(self).grid(),
            final(self).bstate() == old(self).bstate(),
            final(self).player_spec() == old(self).player_spec(),
            final(self).move_spec() == old(self).move_spec(),
            old(self).bstate() matches GameState::GameResult(o) ==> r == o
                && final(self).children_spec() == old(self).children_spec(),
            final(self).weight_spec() as int == old(self).weight_spec() as int + if (r matches
                GameResult::Win(p) && p != old(self).player_spec()) {
                1int
            } else {
                0int
            },
            old(self).children_spec().len() > 0 ==> final(self).children_spec().len()
                == old(self).children_spec().len() && sum_counts(final(self).children_spec())
                == sum_counts(old(self).children_spec()) + 1,
            old(self).children_spec().len() == 0 && old(self).bstate() is Ongoing
                && old(self).count_spec() == 0 ==> final(self).children_spec().len() == 0,
            old(self).children_spec().len() == 0 && old(self).bstate() is Ongoing
                && old(self).count_spec() >= 1 ==> final(self).children_spec().len()
                == legal_moves_spec(old(self).grid()).len() && sum_counts(
                final(self).children_spec(),
            ) == 1,
        decreases 42 - stone_count(old(self).grid()),
    {
        let ghost g = old(self).grid();
        let ghost mut mid: Node = *old(self);
        proof {
            lemma_stone_count_bound(g);
        }
        let result: GameResult;
        if self.children.len() == 0 {
            match self.game_board.get_game_state() {
                GameState::Ongoing => {
                    if self.sample_count < 1 {
                        result = self.game_board.random_simulation(self.current_player);
                    } else {
                        proof {
                            lemma_legal_empty_iff_full(g);
                        }
                        let new_children = self.generate_children();
                        let ghost built = new_children@;
                        self.children = new_children;
                        let mut first = self.children.remove(0);
                        proof {
                            assert(first == built[0]);
                            lemma_legal_from_char(g, 0);
                            let m0 = legal_moves_spec(g)[0];
                            assert(legal_moves_spec(g).contains(m0));
                            crate::connect_four::lemma_col_height_after(
                                g,
                                old(self).player_spec(),
                                m0.x as int,
                            );
                            lemma_stone_count_bound(first.grid());
                        }
                        result = first.mcts();
                        let ghost first_v = first;
                        self.children.insert(0, first);
                        proof {
                            mid = *self;
                            let cs = mid.children_spec();
                            assert(cs =~= built.update(0, first_v));
                            assert(forall|i: int|
                                0 <= i < built.len() ==> #[trigger] built[i].count_spec() == 0);
                            lemma_sum_counts_zero(built);
                            lemma_sum_counts_update(built, 0, first_v);
                            assert(sum_counts(cs) == 1);
                            assert forall|i: int| 0 <= i < cs.len() implies mid.child_ok(i) by {
                                let c = cs[i];
                                let b = built[i];
                                if i > 0 {
                                    assert(c == b);
                                }
                            }
                        }
                    }
                },
                GameState::GameResult(outcome) => {
                    result = outcome;
                },
            }
        } else {
            let idx = self.select_child_index();
            let ghost before = old(self).children_spec();
            let mut child = self.children.remove(idx);
            proof {
                assert(child == before[idx as int]);
                assert(old(self).child_ok(idx as int));
                lemma_sum_counts_element_bound(before, idx as int);
                lemma_legal_from_char(g, 0);
                let m = legal_moves_spec(g)[idx as int];
                assert(legal_moves_spec(g).contains(m));
                crate::connect_four::lemma_col_height_after(
                    g,
                    old(self).player_spec(),
                    m.x as int,
                );
                lemma_stone_count_bound(child.grid());
            }
            result = child.mcts();
            let ghost child_v = child;
            self.children.insert(idx, child);
            proof {
                mid = *self;
                let cs = mid.children_spec();
                assert(cs =~= before.update(idx as int, child_v));
                lemma_sum_counts_update(before, idx as int, child_v);
                assert forall|i: int| 0 <= i < cs.len() implies mid.child_ok(i) by {
                    let c = cs[i];
                    let co = before[i];
                    if i != idx as int {
                        assert(old(self).child_ok(i));
                        assert(c == co);
                    }
                }
            }
        }
        self.sample_count = self.sample_count + 1;
        let won_against_mover = match result {
            GameResult::Win(p) => p != self.current_player,
            GameResult::Draw => false,
        };
        if won_against_mover {
            self.weight = self.weight + 1;
        }
        proof {
            let fin = *self;
            assert(fin.children_spec() == mid.children_spec());
            assert(fin.grid() == mid.grid());
            assert(fin.player_spec() == mid.player_spec());
            if fin.children_spec().len() > 0 {
                assert forall|i: int| 0 <= i < fin.children_spec().len() implies fin.child_ok(
                    i,
                ) by {
                    let c = fin.children_spec()[i];
                    let cm = mid.children_spec()[i];
                    assert(mid.child_ok(i));
                    assert(c == cm);
                }
            }
        }
        result
    }

    /// Consumes this node and advances the live tree by `game_move`: after
    /// two simulations (which guarantee the children exist on an ongoing
    /// game), the child subtree reached by that move is returned with its
    /// accumulated statistics, discarding its siblings. Returns `None`
    /// exactly when the move is not legal here — because its column is out
    /// of range or full, or the game is already decided.
    pub fn make_move(self, game_move: GameMove) -> (r: Option<Node>)
        requires
            self.wf(),
            self.count_spec() < u64::MAX - 1,
        ensures
            r is Some <==> (self.bstate() is Ongoing && legal_moves_spec(self.grid()).contains(
                game_move,
            )),
            r matches Some(c) ==> {
                &&& c.wf()
                &&& c.move_spec() == Some(game_move)
                &&& c.player_spec() == self.player_spec().other_spec()
                &&& c.grid() == grid_after(self.grid(), self.player_spec(), game_move.x as int)
                &&& c.bstate() == state_after(self.grid(), self.player_spec(), game_move.x as int)
            },
    {
        let ghost s0 = self;
        let mut this = self;
        let _ = this.mcts();
        let _ = this.mcts();
        proof {
            if s0.bstate() is Ongoing {
                lemma_legal_empty_iff_full(s0.grid());
                if s0.children_spec().len() == 0 {
                    assert(s0.count_spec() <= 1);
                }
                assert(this.children_spec().len() == legal_moves_spec(s0.grid()).len());
            }
        }
        let n = this.children.len();
        let mut i: usize = 0;
        while i < n
            invariant
                s0 == self,
                this.wf(),
                n == this.children_spec().len(),
                this.grid() == s0.grid(),
                this.player_spec() == s0.player_spec(),
                this.bstate() == s0.bstate(),
                n > 0 ==> n == legal_moves_spec(s0.grid()).len(),
                i <= n,
                forall|j: int|
                    0 <= j < i ==> #[trigger] legal_moves_spec(s0.grid())[j] != game_move,
            decreases n - i,
        {
            proof {
                let c = this.children_spec()[i as int];
                assert(this.child_ok(i as int));
            }
            let hit = match this.children[i].game_move {
                Some(m) => m == game_move,
                None => false,
            };
            if hit {
                proof {
                    assert(this.child_ok(i as int));
                    assert(legal_moves_spec(s0.grid())[i as int] == game_move);
                    assert(legal_moves_spec(s0.grid()).contains(game_move));
                }
                let mut this2 = this;
                let chosen = this2.children.remove(i);
                return Some(chosen);
            }
            i = i + 1;
        }
        proof {
            assert(s0 == self);
            if s0.bstate() is Ongoing && legal_moves_spec(s0.grid()).contains(game_move) {
                let j = choose|j: int|
                    0 <= j < legal_moves_spec(s0.grid()).len() && legal_moves_spec(s0.grid())[j]
                        == game_move;
                assert(legal_moves_spec(s0.grid())[j] != game_move);
            }
        }
        None
    }

    /// The best move found so far, by the robust-child policy: after two
    /// simulations (which guarantee the children exist), the move of a
    /// child with the highest visit count — not the highest win rate,
    /// since the visit count is the more stable proxy for confidence
    /// under the UCT exploration bonus.
    pub fn best_move(&mut self) -> (r: GameMove)
        requires
            old(self).wf(),
            old(self).count_spec() < u64::MAX - 1,
            old(self).bstate() is Ongoing,
        ensures
            final(self).wf(),
            final(self).count_spec() == old(self).count_spec() + 2,
            final(self).grid() == old(self).grid(),
            final(self).bstate() == old(self).bstate(),
            final(self).player_spec() == old(self).player_spec(),
            legal_moves_spec(old(self).grid()).contains(r),
            exists|i: int|
                0 <= i < final(self).children_spec().len()
                    && (#[trigger] final(self).children_spec()[i]).move_spec() == Some(r)
                    && forall|j: int|
                    0 <= j < final(self).children_spec().len()
                        ==> (#[trigger] final(self).children_spec()[j]).count_spec()
                        <= final(self).children_spec()[i].count_spec(),
    {
        let ghost s0 = *old(self);
        let _ = self.mcts();
        let _ = self.mcts();
        proof {
            lemma_legal_empty_iff_full(s0.grid());
            if s0.children_spec().len() == 0 {
                assert(s0.count_spec() <= 1);
            }
            assert(self.children_spec().len() == legal_moves_spec(s0.grid()).len());
        }
        let n = self.children.len();
        let mut best: usize = 0;
        let mut best_visits: u64 = self.children[0].sample_count;
        let mut i: usize = 1;
        while i < n
            invariant
                n == self.children_spec().len(),
                n > 0,
                1 <= i <= n,
                best < i,
                best_visits == self.children_spec()[best as int].count_spec(),
                forall|j: int|
                    0 <= j < i ==> (#[trigger] self.children_spec()[j]).count_spec()
                        <= best_visits,
            decreases n - i,
        {
            let visits = self.children[i].sample_count;
            if visits >= best_visits {
                best = i;
                best_visits = visits;
            }
            i = i + 1;
        }
        proof {
            let c = self.children_spec()[best as int];
            assert(self.child_ok(best as int));
            assert(legal_moves_spec(s0.grid()).contains(legal_moves_spec(s0.grid())[best as int]));
        }
        match self.children[best].game_move {
            Some(m) => m,
            None => vstd::pervasive::unreached(),
        }
    }

    /// The finite UCT score of the visited child at `i` against the given
    /// parent visit count.
    fn child_uct_value(&self, i: usize, parent_visits: u64) -> (r: u64)
        requires
            self.wf(),
            self.children_spec().len() > 0,
            i < self.children_spec().len(),
            parent_visits == self.count_spec(),
            self.children_spec()[i as int].count_spec() > 0,
        ensures
            r as int == uct_score_spec(
                self.children_spec()[i as int].weight_spec(),
                self.children_spec()[i as int].count_spec(),
                parent_visits,
            ),
    {
        proof {
            lemma_sum_counts_element_bound(self.children_spec(), i as int);
            assert(self.child_ok(i as int));
        }
        let c = &self.children[i];
        let score = calculate_uct(c.weight, c.sample_count, parent_visits);
        match score {
            Some(s) => s,
            None => vstd::pervasive::unreached(),
        }
    }
}

/// The UCT score of a child with `visits` visits and accumulated weight
/// `weight` under a parent visited `parent_visits` times, in fixed point.
/// A never-visited child has no finite score: `None` stands for plus
/// infinity, so selection visits every new child once before revisiting
/// any. In a well-formed tree a child's weight never exceeds its visits,
/// and a child's visits never exceed its parent's — which also keeps the
/// logarithm's argument at least one whenever it is taken.
pub fn calculate_uct(weight: u64, visits: u64, parent_visits: u64) -> (r: Option<u64>)
    requires
        weight <= visits,
        visits <= parent_visits,
    ensures
        r is None <==> visits == 0,
        visits >= 1 ==> (r matches Some(s) && s as int == uct_score_spec(
            weight,
            visits,
            parent_visits,
        )),
{
    if visits == 0 {
        return None;
    }
    let ln_parent = ln_scaled(parent_visits);
    proof {
        assert(SCALE == 65536);
        assert(ln_parent <= 2907264);
        assert(2 * SCALE * ln_parent <= 131072int * 2907264) by (nonlinear_arith)
            requires
                SCALE == 65536 && 0 <= ln_parent <= 2907264,
        ;
    }
    let num = 2 * SCALE * ln_parent;
    let radicand = num / visits;
    let explore = isqrt(radicand);
    proof {
        lemma_sqrt_le(radicand as nat);
    }
    let exploit = (((weight as u128) * (SCALE as u128)) / (visits as u128)) as u64;
    proof {
        assert((weight as int) * (SCALE as int) <= (visits as int) * (SCALE as int))
            by (nonlinear_arith)
            requires
                0 <= (weight as int) <= (visits as int) && 0 <= (SCALE as int),
        ;
        assert((weight as int) * (SCALE as int) < 0x10000000000000000 * 0x10000000000000000int)
            by (nonlinear_arith)
            requires
                0 <= (weight as int) < 0x10000000000000000 && 0 <= (SCALE as int)
                    < 0x10000000000000000int,
        ;
        lemma_multiply_divide_le((weight as int) * (SCALE as int), visits as int, SCALE as int);
        assert(((weight as int) * (SCALE as int)) / (visits as int) <= SCALE);
    }
    Some(exploit + explore)
}

} // verus!
