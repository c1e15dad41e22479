//! The search tree and one iteration of the search: select, expand, simulate,
//! propagate.

use crate::components::{
    Backprop, BarracudaSimulationParams, BarracudaUcbParams, Policy, Simulation, Ucb,
};
use crate::fixed::{difference_raw, quotient, ratio_raw, sum_raw, Fixed, SCALE};
use crate::formula::{
    agree, lemma_agree_at, lemma_agree_intro, lemma_agree_trans, Event, Formula,
};
use crate::traits::{BarracudaBoard, BarracudaMove, BarracudaParams, GameState, Player};
use std::marker::PhantomData;
use vstd::prelude::*;

verus! {

/// The index of the first greatest element of `s`; 0 for the empty sequence.
pub open spec fn first_max(s: Seq<Fixed>) -> int
    decreases s.len(),
{
    if s.len() <= 1 {
        0
    } else {
        let before = first_max(s.drop_last());
        if s.last()@ > s[before]@ {
            s.len() - 1
        } else {
            before
        }
    }
}

/// No element is greater than the one at `first_max`, and every element
/// before it is smaller.
pub proof fn lemma_first_max(s: Seq<Fixed>)
    requires
        s.len() > 0,
    ensures
        0 <= first_max(s) < s.len(),
        forall|k: int| 0 <= k < s.len() ==> (#[trigger] s[k])@ <= s[first_max(s)]@,
        forall|k: int| 0 <= k < first_max(s) ==> (#[trigger] s[k])@ < s[first_max(s)]@,
    decreases s.len(),
{
    if s.len() > 1 {
        let front = s.drop_last();
        lemma_first_max(front);
        assert forall|k: int| 0 <= k < front.len() implies front[k] == s[k] by {}
    }
}

/// Among equal scores the first is the first greatest.
pub proof fn lemma_first_max_equal(s: Seq<Fixed>)
    requires
        forall|k: int| 0 <= k < s.len() ==> (#[trigger] s[k]) == s[0],
    ensures
        first_max(s) == 0,
    decreases s.len(),
{
    if s.len() > 1 {
        let front = s.drop_last();
        assert forall|k: int| 0 <= k < front.len() implies (#[trigger] front[k]) == front[0] by {
            assert(front[k] == s[k]);
            assert(front[0] == s[0]);
        }
        lemma_first_max_equal(front);
        assert(s[0] == front[0]);
    }
}

/// The index of the first greatest score.
pub fn best_index(scores: &Vec<Fixed>) -> (best: usize)
    requires
        scores@.len() > 0,
    ensures
        best == first_max(scores@),
        best < scores@.len(),
        forall|k: int| 0 <= k < scores@.len() ==> (#[trigger] scores@[k])@ <= scores@[best as int]@,
        forall|k: int| 0 <= k < best ==> (#[trigger] scores@[k])@ < scores@[best as int]@,
{
    let mut best: usize = 0;
    let mut i: usize = 1;
    assert(scores@.take(1).len() == 1);
    while i < scores.len()
        invariant
            1 <= i <= scores@.len(),
            best < i,
            best == first_max(scores@.take(i as int)),
        decreases scores@.len() - i,
    {
        proof {
            let upto = scores@.take(i + 1);
            assert(upto.drop_last() =~= scores@.take(i as int));
            assert(upto.last() == scores@[i as int]);
            assert(upto[best as int] == scores@[best as int]);
        }
        if scores[best].lt(scores[i]) {
            best = i;
        }
        i += 1;
    }
    proof {
        assert(scores@.take(scores@.len() as int) =~= scores@);
        lemma_first_max(scores@);
    }
    best
}

/// What a finished game is worth: 1 where the first side has won, 0 where the
/// second has, one half where nobody has.
pub open spec fn outcome_raw(state: GameState) -> int {
    match state {
        GameState::End(Some(Player::P1)) => SCALE as int,
        GameState::End(Some(Player::P2)) => 0,
        _ => SCALE / 2,
    }
}

/// The value propagated from a finished game: its worth, turned round where
/// the first side is to move.
pub open spec fn terminal_seed_raw(state: GameState, side: Player) -> int {
    if side == Player::P1 {
        difference_raw(SCALE as int, outcome_raw(state))
    } else {
        outcome_raw(state)
    }
}

/// The value propagated from a playout: the estimate for the side to move,
/// turned round where the second side is to move.
pub open spec fn playout_seed_raw(estimate: int, side: Player) -> int {
    if side == Player::P1 {
        estimate
    } else {
        difference_raw(SCALE as int, estimate)
    }
}

/// The value that reaches a vertex `k` steps above the one that received `v`:
/// each step turns the value round.
pub open spec fn flipped(v: int, k: nat) -> int
    decreases k,
{
    if k == 0 {
        v
    } else {
        difference_raw(SCALE as int, flipped(v, (k - 1) as nat))
    }
}

/// A value between 0 and 1 stays between 0 and 1 on its way up the tree, and
/// so do the seeds of finished games and of playouts that were estimated
/// between 0 and 1: every visit adds between 0 and 1 to a score.
pub proof fn lemma_values_bounded(v: int, k: nat, state: GameState, side: Player)
    ensures
        0 <= v <= SCALE ==> 0 <= flipped(v, k) <= SCALE,
        0 <= terminal_seed_raw(state, side) <= SCALE,
        0 <= v <= SCALE ==> 0 <= playout_seed_raw(v, side) <= SCALE,
    decreases k,
{
    if k > 0 {
        lemma_values_bounded(v, (k - 1) as nat, state, side);
    }
}

/// What a finished game is worth.
pub fn outcome(state: GameState) -> (worth: Fixed)
    ensures
        worth@ == outcome_raw(state),
{
    match state {
        GameState::End(Some(Player::P1)) => Fixed::one(),
        GameState::End(Some(Player::P2)) => Fixed::zero(),
        _ => Fixed::half(),
    }
}

/// The value propagated from a finished game with `side` to move.
pub fn terminal_seed(state: GameState, side: Player) -> (seed: Fixed)
    ensures
        seed@ == terminal_seed_raw(state, side),
{
    let worth = outcome(state);
    match side {
        Player::P1 => Fixed::one().minus(worth),
        Player::P2 => worth,
    }
}

/// The value propagated from a playout that estimated `estimate` for `side`.
pub fn playout_seed(estimate: Fixed, side: Player) -> (seed: Fixed)
    ensures
        seed@ == playout_seed_raw(estimate@, side),
{
    match side {
        Player::P1 => estimate,
        Player::P2 => Fixed::one().minus(estimate),
    }
}

/// A vertex of the search tree.
pub struct Node<
    Board: BarracudaBoard<Params, Move>,
    Params: BarracudaParams,
    Move: BarracudaMove,
    const DATA_REGISTERS: usize,
> {
    /// The position of the vertex.
    pub board: Board,
    /// The legal moves; empty until the vertex is expanded.
    pub moves: Vec<Move>,
    /// For each move the index of the vertex it leads to.
    pub child_nodes: Vec<usize>,
    /// The index of the vertex this one was expanded from.
    pub parent: Option<usize>,
    /// The sum of the outcomes propagated through the vertex.
    pub score: Fixed,
    /// The number of outcomes propagated through the vertex, plus the
    /// smallest positive number.
    pub visits: Fixed,
    /// Scratch values for the hooks.
    pub registers: Vec<Fixed>,
    pub params: PhantomData<Params>,
}

/// The vertices of a search tree; the root comes first, and every vertex
/// comes after the one it was expanded from.
pub struct Tree<
    Board: BarracudaBoard<Params, Move>,
    Params: BarracudaParams,
    Move: BarracudaMove,
    const DATA_REGISTERS: usize,
> {
    pub nodes: Vec<Node<Board, Params, Move, DATA_REGISTERS>>,
}

impl<
    Board: BarracudaBoard<Params, Move>,
    Params: BarracudaParams,
    Move: BarracudaMove,
    const DATA_REGISTERS: usize,
> Tree<Board, Params, Move, DATA_REGISTERS> {
    /// Vertex `i` holds a position of the game, a positive visit count, one
    /// child per move, and, once expanded, the legal moves of its position
    /// with the positions they lead to.
    pub open spec fn node_wf(self, i: int) -> bool {
        let n = self.nodes@[i];
        &&& Board::valid(n.board@)
        &&& n.registers@.len() == DATA_REGISTERS
        &&& n.visits@ >= 1
        &&& n.moves@.len() == n.child_nodes@.len()
        &&& (n.moves@.len() > 0 ==> n.moves@ == Board::legal_moves(n.board@))
        &&& forall|k: int|
            0 <= k < n.child_nodes@.len() ==> {
                let c = #[trigger] n.child_nodes@[k];
                &&& i < c < self.nodes@.len()
                &&& self.nodes@[c as int].parent == Some(i as usize)
                &&& self.nodes@[c as int].board@ == Board::play(n.board@, n.moves@[k])
            }
        &&& match n.parent {
            None => i == 0,
            Some(p) => p < i,
        }
    }

    /// There is a root, and every vertex is well formed.
    pub open spec fn wf(self) -> bool {
        &&& self.nodes@.len() >= 1
        &&& forall|i: int| 0 <= i < self.nodes@.len() ==> #[trigger] self.node_wf(i)
    }

    /// `path` leads from the root down the tree, each vertex the parent of the
    /// next.
    pub open spec fn is_descent(self, path: Seq<usize>) -> bool {
        &&& path.len() >= 1
        &&& path[0] == 0
        &&& forall|j: int| 0 <= j < path.len() ==> (#[trigger] path[j]) < self.nodes@.len()
        &&& forall|j: int| 0 < j < path.len() ==> #[trigger] self.linked(path, j)
    }

    /// The vertex before the `j`-th of `path` is its parent.
    pub open spec fn linked(self, path: Seq<usize>, j: int) -> bool {
        self.nodes@[path[j] as int].parent == Some(path[j - 1])
    }

    /// The `j`-th vertex of `path` is the first child of the one before to
    /// which `formula` gives the greatest value.
    pub open spec fn best_step<F: Formula<Board, Params, Move, DATA_REGISTERS>>(
        self,
        formula: F,
        path: Seq<usize>,
        j: int,
    ) -> bool {
        path[j] == self.nodes@[path[j - 1] as int].child_nodes@[first_max(
            self.child_scores(formula, path[j - 1] as int),
        )]
    }

    /// The tree is `old` with vertex `leaf` possibly expanded: the vertices of
    /// `old` are kept, but for the moves and children of `leaf`, and every
    /// further vertex is a fresh child of `leaf`.
    pub open spec fn grown_from(self, old: Self, leaf: int) -> bool {
        &&& self.nodes@.len() >= old.nodes@.len()
        &&& forall|i: int|
            0 <= i < old.nodes@.len() ==> {
                let a = #[trigger] self.nodes@[i];
                let b = old.nodes@[i];
                &&& a.board@ == b.board@
                &&& a.parent == b.parent
                &&& a.score == b.score
                &&& a.visits == b.visits
                &&& a.registers@.len() == b.registers@.len()
                &&& (i != leaf ==> a.moves@ == b.moves@ && a.child_nodes@ == b.child_nodes@)
            }
        &&& forall|i: int|
            old.nodes@.len() <= i < self.nodes@.len() ==> {
                let a = #[trigger] self.nodes@[i];
                &&& a.parent == Some(leaf as usize)
                &&& a.score@ == 0
                &&& a.visits@ == 1
                &&& a.moves@.len() == 0
            }
    }

    /// The tree is `old` after `value` was propagated up `path`: the last
    /// vertex of the path has received `value`, the one above it the value
    /// turned round, and so on; each has one visit more. Nothing else has
    /// changed but registers.
    pub open spec fn propagated(self, old: Self, path: Seq<usize>, value: int) -> bool {
        &&& self.nodes@.len() == old.nodes@.len()
        &&& forall|i: int|
            0 <= i < self.nodes@.len() ==> {
                let a = #[trigger] self.nodes@[i];
                let b = old.nodes@[i];
                &&& a.board@ == b.board@
                &&& a.moves@ == b.moves@
                &&& a.child_nodes@ == b.child_nodes@
                &&& a.parent == b.parent
                &&& a.registers@.len() == b.registers@.len()
                &&& (!path.contains(i as usize) ==> a.score == b.score && a.visits == b.visits)
            }
        &&& forall|j: int|
            0 <= j < path.len() ==> {
                let a = self.nodes@[(#[trigger] path[j]) as int];
                let b = old.nodes@[path[j] as int];
                &&& a.score@ == sum_raw(b.score@, flipped(value, (path.len() - 1 - j) as nat))
                &&& a.visits@ == sum_raw(b.visits@, SCALE as int)
            }
    }

    /// The score of vertex `i` before a search that began with this tree: 0
    /// for a vertex that the search added.
    pub open spec fn prior_score(self, i: int) -> int {
        if i < self.nodes@.len() {
            self.nodes@[i].score@
        } else {
            0
        }
    }

    /// The visit count of vertex `i` before a search that began with this
    /// tree: the smallest positive number for a vertex that the search added.
    pub open spec fn prior_visits(self, i: int) -> int {
        if i < self.nodes@.len() {
            self.nodes@[i].visits@
        } else {
            1
        }
    }

    /// The tree is `old` after one iteration of the search that went down
    /// `path` and propagated `value`: the vertices of `old` are kept with
    /// their positions, and with their moves where they had any; the path
    /// leads from the root down the tree; each vertex on it has received its
    /// share of the value and one visit, and no other vertex has.
    pub open spec fn searched(self, old: Self, path: Seq<usize>, value: int) -> bool {
        &&& self.nodes@.len() >= old.nodes@.len()
        &&& self.is_descent(path)
        &&& forall|i: int|
            0 <= i < old.nodes@.len() ==> {
                let a = #[trigger] self.nodes@[i];
                let b = old.nodes@[i];
                &&& a.board@ == b.board@
                &&& a.parent == b.parent
                &&& (b.moves@.len() > 0 ==> a.moves@ == b.moves@ && a.child_nodes@
                    == b.child_nodes@)
            }
        &&& forall|i: int|
            0 <= i < self.nodes@.len() && !path.contains(i as usize) ==> {
                let a = #[trigger] self.nodes@[i];
                &&& a.score@ == old.prior_score(i)
                &&& a.visits@ == old.prior_visits(i)
            }
        &&& forall|j: int|
            0 <= j < path.len() ==> {
                let a = self.nodes@[(#[trigger] path[j]) as int];
                &&& a.score@ == sum_raw(
                    old.prior_score(path[j] as int),
                    flipped(value, (path.len() - 1 - j) as nat),
                )
                &&& a.visits@ == sum_raw(old.prior_visits(path[j] as int), SCALE as int)
            }
    }

    /// An expanded vertex has one child for each legal move of its position,
    /// and each child holds the position that its move leads to.
    pub proof fn lemma_children_match_moves(self, i: int)
        requires
            self.wf(),
            0 <= i < self.nodes@.len(),
            self.nodes@[i].moves@.len() > 0,
        ensures
            self.nodes@[i].child_nodes@.len() == Board::legal_moves(self.nodes@[i].board@).len(),
            forall|k: int|
                0 <= k < self.nodes@[i].child_nodes@.len() ==> self.nodes@[(
                #[trigger] self.nodes@[i].child_nodes@[k]) as int].board@ == Board::play(
                    self.nodes@[i].board@,
                    Board::legal_moves(self.nodes@[i].board@)[k],
                ),
    {
        assert(self.node_wf(i));
    }

    /// An iteration of the search takes no visit away: every vertex has the
    /// visits it had, or one more, and a vertex that is visited for the first
    /// time has one visit and the smallest positive number afterwards.
    pub proof fn lemma_visits_grow(self, old: Self, path: Seq<usize>, value: int, i: usize)
        requires
            old.wf(),
            self.searched(old, path, value),
            i < self.nodes@.len(),
        ensures
            self.nodes@[i as int].visits@ >= old.prior_visits(i as int),
            self.nodes@[i as int].visits@ == old.prior_visits(i as int) || self.nodes@[i as int].visits@
                == sum_raw(old.prior_visits(i as int), SCALE as int),
            path.contains(i) && old.prior_visits(i as int) == 1 ==> self.nodes@[i as int].visits@
                == SCALE + 1,
    {
        if path.contains(i) {
            let j = choose|j: int| 0 <= j < path.len() && path[j] == i;
            assert(self.nodes@[path[j] as int].visits@ == sum_raw(
                old.prior_visits(path[j] as int),
                SCALE as int,
            ));
        } else {
            let a = self.nodes@[i as int];
            assert(a.visits@ == old.prior_visits(i as int));
        }
    }

    /// The values that `formula` gives the children of vertex `i`, in the
    /// order of its moves.
    pub open spec fn child_scores<F: Formula<Board, Params, Move, DATA_REGISTERS>>(
        self,
        formula: F,
        i: int,
    ) -> Seq<Fixed> {
        Seq::new(
            self.nodes@[i].child_nodes@.len(),
            |k: int|
                formula.value(self, self.nodes@[i].child_nodes@[k], self.nodes@[i].moves@[k]),
        )
    }

    /// Every step of `path` goes to the first child to which `formula` gives
    /// the greatest value.
    pub open spec fn follows_best<F: Formula<Board, Params, Move, DATA_REGISTERS>>(
        self,
        formula: F,
        path: Seq<usize>,
    ) -> bool {
        forall|j: int| 0 < j < path.len() ==> #[trigger] self.best_step(formula, path, j)
    }

    /// Every vertex of `path` but the last has been expanded.
    pub open spec fn through_expanded(self, path: Seq<usize>) -> bool {
        forall|j: int|
            0 <= j < path.len() - 1 ==> self.nodes@[(#[trigger] path[j]) as int].moves@.len() > 0
    }

    /// The vertices of `old` have the registers they had.
    pub open spec fn registers_kept(self, old: Self) -> bool {
        forall|i: int|
            0 <= i < old.nodes@.len() && i < self.nodes@.len() ==> (#[trigger] self.nodes@[i]).registers
                == old.nodes@[i].registers
    }

    /// What one iteration of the search did to `old` on the way down `path`:
    /// it walked from the root through expanded vertices to one that was
    /// not, the leaf.
    /// Where the game was over at the leaf, nothing was added, the path ends
    /// at the leaf and `value` is the worth of the finished game for the side
    /// to move. Otherwise the leaf got its legal moves and one child for each,
    /// the path ends at the child that the policy chose, and `value` is the
    /// estimate of the simulation for that child, turned by its side to move.
    /// No other vertex got moves or children.
    pub open spec fn stepped<Pol: Policy<Board, Params, Move>, Sim: Simulation<Board, Params, Move>>(
        self,
        old: Self,
        path: Seq<usize>,
        value: Fixed,
        policy: (Pol, Pol),
        simulation: (Sim, Sim),
    ) -> bool {
        let grew = self.nodes@.len() > old.nodes@.len();
        let walked = if grew {
            path.drop_last()
        } else {
            path
        };
        let leaf = walked.last() as int;
        let position = old.nodes@[leaf].board@;
        let moves = Board::legal_moves(position);
        let over = moves.len() == 0 || Board::state_of(position) != GameState::Ongoing;
        &&& walked.len() >= 1
        &&& walked[0] == 0
        &&& (old.nodes@[0].moves@.len() == 0 ==> walked.len() == 1)
        &&& 0 <= leaf < old.nodes@.len()
        &&& old.nodes@[leaf].moves@.len() == 0
        &&& old.through_expanded(walked)
        &&& forall|i: int|
            0 <= i < old.nodes@.len() && i != leaf ==> (#[trigger] self.nodes@[i]).moves@
                == old.nodes@[i].moves@ && self.nodes@[i].child_nodes@ == old.nodes@[i].child_nodes@
        &&& (over ==> {
            &&& !grew
            &&& Board::state_of(position) != GameState::Ongoing
            &&& self.nodes@[leaf].moves@.len() == 0
            &&& value@ == terminal_seed_raw(Board::state_of(position), Board::to_move(position))
            &&& policy.1 == policy.0
            &&& simulation.1 == simulation.0
        })
        &&& (!over ==> {
            &&& self.nodes@.len() == old.nodes@.len() + moves.len()
            &&& self.nodes@[leaf].moves@ == moves
            &&& self.nodes@[leaf].child_nodes@.contains(path.last())
            &&& path.last() >= old.nodes@.len()
            &&& played::<Board, Params, Move, Pol, Sim>(
                position,
                old.nodes@.len() as int,
                path.last(),
                value,
                policy,
                simulation,
            )
        })
    }

    /// What expanding the vertex `leaf` of `old` gave. Where the game was over
    /// at the leaf, or nothing could be played: nothing has changed, no child
    /// was chosen and `value` is the worth of the finished game for the side
    /// to move. Otherwise the leaf has its legal moves and one new child for
    /// each, and `value` is the seed of the playout from the chosen child.
    pub open spec fn expanded<Pol: Policy<Board, Params, Move>, Sim: Simulation<Board, Params, Move>>(
        self,
        old: Self,
        leaf: int,
        value: Fixed,
        chosen: Option<usize>,
        policy: (Pol, Pol),
        simulation: (Sim, Sim),
    ) -> bool {
        let position = old.nodes@[leaf].board@;
        let moves = Board::legal_moves(position);
        let over = moves.len() == 0 || Board::state_of(position) != GameState::Ongoing;
        match chosen {
            None => {
                &&& over
                &&& Board::state_of(position) != GameState::Ongoing
                &&& self == old
                &&& policy.1 == policy.0
                &&& simulation.1 == simulation.0
                &&& value@ == terminal_seed_raw(Board::state_of(position), Board::to_move(position))
            },
            Some(child) => {
                &&& !over
                &&& self.nodes@.len() == old.nodes@.len() + moves.len()
                &&& self.nodes@[leaf].moves@ == moves
                &&& self.nodes@[leaf].child_nodes@.contains(child)
                &&& old.nodes@.len() <= child
                &&& played::<Board, Params, Move, Pol, Sim>(
                    position,
                    old.nodes@.len() as int,
                    child,
                    value,
                    policy,
                    simulation,
                )
            },
        }
    }

    /// The tree is `before` after one iteration of the search that went down
    /// `path` and propagated `value`.
    pub open spec fn iteration_of<
        Pol: Policy<Board, Params, Move>,
        Sim: Simulation<Board, Params, Move>,
    >(
        self,
        before: Self,
        path: Seq<usize>,
        value: Fixed,
        policy: (Pol, Pol),
        simulation: (Sim, Sim),
    ) -> bool {
        &&& self.wf()
        &&& self.searched(before, path, value@)
        &&& self.stepped(before, path, value, policy, simulation)
    }

    /// The tree is `before` after `n` iterations of the search, one after the
    /// other.
    pub open spec fn searched_times<
        Pol: Policy<Board, Params, Move>,
        Sim: Simulation<Board, Params, Move>,
    >(self, before: Self, n: nat) -> bool
        decreases n,
    {
        if n == 0 {
            self == before
        } else {
            exists|mid: Self, path: Seq<usize>, value: Fixed, policy: (Pol, Pol), simulation: (Sim, Sim)|
                #[trigger] self.iteration_of(mid, path, value, policy, simulation)
                    && mid.searched_times::<Pol, Sim>(before, (n - 1) as nat)
        }
    }

    /// The value of an iteration lies between 0 and 1 where the estimates of
    /// the simulation do: every vertex on the path then gains between 0 and 1.
    pub proof fn lemma_value_bounded<
        Pol: Policy<Board, Params, Move>,
        Sim: Simulation<Board, Params, Move>,
    >(
        self,
        old: Self,
        path: Seq<usize>,
        value: Fixed,
        policy: (Pol, Pol),
        simulation: (Sim, Sim),
    )
        requires
            self.stepped(old, path, value, policy, simulation),
            forall|before: Sim, position: Board::V, estimate: Fixed, after: Sim| #[trigger]
                Sim::estimates(before, position, estimate, after) ==> 0 <= estimate@ <= SCALE,
        ensures
            0 <= value@ <= SCALE,
            forall|k: nat| 0 <= #[trigger] flipped(value@, k) <= SCALE,
    {
        let grew = self.nodes@.len() > old.nodes@.len();
        let walked = if grew {
            path.drop_last()
        } else {
            path
        };
        let position = old.nodes@[walked.last() as int].board@;
        let moves = Board::legal_moves(position);
        let over = moves.len() == 0 || Board::state_of(position) != GameState::Ongoing;
        if !over {
            let (index, estimate) = choose|index: usize, estimate: Fixed|
                #[trigger] seeded::<Board, Params, Move, Pol, Sim>(
                    position,
                    index,
                    estimate,
                    value,
                    policy,
                    simulation,
                ) && path.last() == old.nodes@.len() + index;
            let reached = Board::play(position, moves[index as int]);
            assert(Sim::estimates(simulation.0, reached, estimate, simulation.1));
        }
        assert forall|k: nat| 0 <= #[trigger] flipped(value@, k) <= SCALE by {
            lemma_values_bounded(value@, k, GameState::Ongoing, Player::P1);
        }
    }

    /// An iteration leaves the root expanded where the game is running at it
    /// and a move can be made.
    pub proof fn lemma_root_expanded<
        Pol: Policy<Board, Params, Move>,
        Sim: Simulation<Board, Params, Move>,
    >(
        self,
        old: Self,
        path: Seq<usize>,
        value: Fixed,
        policy: (Pol, Pol),
        simulation: (Sim, Sim),
    )
        requires
            old.wf(),
            self.searched(old, path, value@),
            self.stepped(old, path, value, policy, simulation),
            Board::state_of(old.nodes@[0].board@) == GameState::Ongoing,
            Board::legal_moves(old.nodes@[0].board@).len() > 0,
        ensures
            self.nodes@[0].moves@ == Board::legal_moves(old.nodes@[0].board@),
    {
        let root = self.nodes@[0];
        assert(old.node_wf(0));
        if old.nodes@[0].moves@.len() == 0 {
            let grew = self.nodes@.len() > old.nodes@.len();
            let walked = if grew {
                path.drop_last()
            } else {
                path
            };
            assert(walked[0] == path[0]);
            if walked.len() > 1 {
                assert(old.nodes@[walked[0] as int].moves@.len() > 0);
            }
            assert(walked.last() == 0);
        }
    }

    /// A walk that ended at a vertex goes on to a child that the expansion of
    /// the vertex gave.
    pub proof fn lemma_descent_grown(self, t1: Self, walked: Seq<usize>, chosen: Option<usize>)
        requires
            self.wf(),
            t1.is_descent(walked),
            self.grown_from(t1, walked.last() as int),
            chosen.is_some() ==> self.nodes@[walked.last() as int].child_nodes@.contains(
                chosen.unwrap(),
            ),
        ensures
            self.is_descent(
                match chosen {
                    Some(child) => walked.push(child),
                    None => walked,
                },
            ),
    {
        let path = match chosen {
            Some(child) => walked.push(child),
            None => walked,
        };
        let leaf = walked.last() as int;
        assert(self.node_wf(leaf));
        assert forall|j: int| 0 < j < path.len() implies #[trigger] self.linked(path, j) by {
            if j < walked.len() {
                assert(t1.linked(walked, j));
                assert(path[j] == walked[j]);
                assert(path[j - 1] == walked[j - 1]);
                assert(self.nodes@[walked[j] as int].parent == t1.nodes@[walked[j] as int].parent);
            } else {
                let child = chosen.unwrap();
                let k = choose|k: int|
                    0 <= k < self.nodes@[leaf].child_nodes@.len()
                        && self.nodes@[leaf].child_nodes@[k] == child;
                assert(self.nodes@[self.nodes@[leaf].child_nodes@[k] as int].parent == Some(
                    leaf as usize,
                ));
            }
        }
        assert forall|j: int| 0 <= j < path.len() implies (#[trigger] path[j]) < self.nodes@.len() by {
            if j < walked.len() {
                assert(path[j] == walked[j]);
            } else {
                let child = chosen.unwrap();
                let k = choose|k: int|
                    0 <= k < self.nodes@[leaf].child_nodes@.len()
                        && self.nodes@[leaf].child_nodes@[k] == child;
                assert(leaf < self.nodes@[leaf].child_nodes@[k] < self.nodes@.len());
            }
        }
    }

    /// The three steps of an iteration add up: a walk down `walked` in `t0`
    /// that led to `t1`, the expansion of its last vertex that led to `t2`,
    /// and the propagation up `path` that led to this tree.
    pub proof fn lemma_searched(
        self,
        t0: Self,
        t1: Self,
        t2: Self,
        leaf: int,
        path: Seq<usize>,
        value: int,
    )
        requires
            t1.same_structure(t0),
            0 <= leaf < t1.nodes@.len(),
            t1.nodes@[leaf].moves@.len() == 0,
            t2.grown_from(t1, leaf),
            t2.is_descent(path),
            self.propagated(t2, path, value),
        ensures
            self.searched(t0, path, value),
    {
        assert forall|i: int| 0 <= i < t0.nodes@.len() implies {
            let a = #[trigger] self.nodes@[i];
            let b = t0.nodes@[i];
            &&& a.board@ == b.board@
            &&& a.parent == b.parent
            &&& (b.moves@.len() > 0 ==> a.moves@ == b.moves@ && a.child_nodes@ == b.child_nodes@)
        } by {
            let s = t1.nodes@[i];
            let g = t2.nodes@[i];
        }
        assert forall|i: int| 0 <= i < self.nodes@.len() && !path.contains(i as usize) implies {
            let a = #[trigger] self.nodes@[i];
            &&& a.score@ == t0.prior_score(i)
            &&& a.visits@ == t0.prior_visits(i)
        } by {
            let g = t2.nodes@[i];
            if i < t0.nodes@.len() {
                let s = t1.nodes@[i];
            }
        }
        assert forall|j: int| 0 <= j < path.len() implies {
            let a = self.nodes@[(#[trigger] path[j]) as int];
            &&& a.score@ == sum_raw(
                t0.prior_score(path[j] as int),
                flipped(value, (path.len() - 1 - j) as nat),
            )
            &&& a.visits@ == sum_raw(t0.prior_visits(path[j] as int), SCALE as int)
        } by {
            let i = path[j] as int;
            let g = t2.nodes@[i];
            if i < t0.nodes@.len() {
                let s = t1.nodes@[i];
            }
        }
        assert forall|j: int| 0 < j < path.len() implies #[trigger] self.linked(path, j) by {
            assert(t2.linked(path, j));
            let g = t2.nodes@[path[j] as int];
        }
    }

    /// What the three steps of an iteration did on the way down.
    pub proof fn lemma_stepped<Pol: Policy<Board, Params, Move>, Sim: Simulation<Board, Params, Move>>(
        self,
        t0: Self,
        t1: Self,
        t2: Self,
        walked: Seq<usize>,
        path: Seq<usize>,
        value: Fixed,
        chosen: Option<usize>,
        policy: (Pol, Pol),
        simulation: (Sim, Sim),
    )
        requires
            t1.same_structure(t0),
            t1.is_descent(walked),
            walked.len() >= 1,
            walked.last() < t1.nodes@.len(),
            t1.nodes@[walked.last() as int].moves@.len() == 0,
            t1.through_expanded(walked),
            t2.grown_from(t1, walked.last() as int),
            t2.expanded(t1, walked.last() as int, value, chosen, policy, simulation),
            path == match chosen {
                Some(child) => walked.push(child),
                None => walked,
            },
            self.propagated(t2, path, value@),
        ensures
            self.stepped(t0, path, value, policy, simulation),
            (self.nodes@.len() > t0.nodes@.len()) == chosen.is_some(),
    {
        let leaf = walked.last() as int;
        let grew = self.nodes@.len() > t0.nodes@.len();
        assert(grew == chosen.is_some());
        let before = if grew {
            path.drop_last()
        } else {
            path
        };
        assert(before =~= walked);
        assert(t0.through_expanded(walked)) by {
            assert forall|j: int| 0 <= j < walked.len() - 1 implies t0.nodes@[(
            #[trigger] walked[j]) as int].moves@.len() > 0 by {
                let n = t1.nodes@[walked[j] as int];
            }
        }
        let l = t1.nodes@[leaf];
        assert(l.board@ == t0.nodes@[leaf].board@);
        assert(l.moves@ == t0.nodes@[leaf].moves@);
        assert(walked[0] == 0);
        if t0.nodes@[0].moves@.len() == 0 && walked.len() > 1 {
            assert(t0.nodes@[walked[0] as int].moves@.len() > 0);
        }
        assert forall|i: int| 0 <= i < t0.nodes@.len() && i != leaf implies (
        #[trigger] self.nodes@[i]).moves@ == t0.nodes@[i].moves@ && self.nodes@[i].child_nodes@
            == t0.nodes@[i].child_nodes@ by {
            let n = t1.nodes@[i];
            let g = t2.nodes@[i];
        }
        let g = t2.nodes@[leaf];
        let f = self.nodes@[leaf];
        assert(f.moves@ == g.moves@);
        assert(f.child_nodes@ == g.child_nodes@);
    }

    /// The visit counts of the children of vertex `i`, in the order of its
    /// moves.
    pub open spec fn child_visits(self, i: int) -> Seq<Fixed> {
        Seq::new(
            self.nodes@[i].child_nodes@.len(),
            |k: int| self.nodes@[self.nodes@[i].child_nodes@[k] as int].visits,
        )
    }

    /// The principal variation from vertex `i`: the move to its first
    /// most-visited child, then that child's principal variation.
    pub open spec fn pv_from(self, i: int) -> Seq<Move>
        decreases self.nodes@.len() - i,
    {
        if i < 0 || i >= self.nodes@.len() || self.nodes@[i].moves@.len() == 0 {
            Seq::empty()
        } else {
            let k = first_max(self.child_visits(i));
            let c = self.nodes@[i].child_nodes@[k] as int;
            if i < c < self.nodes@.len() {
                seq![self.nodes@[i].moves@[k]] + self.pv_from(c)
            } else {
                Seq::empty()
            }
        }
    }

    /// Trees of the same structure are well formed together.
    pub proof fn lemma_same_structure_wf(self, other: Self)
        requires
            other.wf(),
            self.same_structure(other),
        ensures
            self.wf(),
    {
        assert forall|i: int| 0 <= i < self.nodes@.len() implies #[trigger] self.node_wf(i) by {
            assert(other.node_wf(i));
            let n = self.nodes@[i];
            let m = other.nodes@[i];
            assert forall|k: int| 0 <= k < n.child_nodes@.len() implies {
                let c = #[trigger] n.child_nodes@[k];
                &&& i < c < self.nodes@.len()
                &&& self.nodes@[c as int].parent == Some(i as usize)
                &&& self.nodes@[c as int].board@ == Board::play(n.board@, n.moves@[k])
            } by {
                let c = m.child_nodes@[k];
                assert(self.nodes@[c as int].parent == other.nodes@[c as int].parent);
            }
        }
    }

    /// Having the same structure is transitive.
    pub proof fn lemma_same_structure_trans(self, mid: Self, other: Self)
        requires
            self.same_structure(mid),
            mid.same_structure(other),
        ensures
            self.same_structure(other),
    {
        assert forall|i: int| 0 <= i < self.nodes@.len() implies {
            let a = #[trigger] self.nodes@[i];
            let b = other.nodes@[i];
            &&& a.board@ == b.board@
            &&& a.moves@ == b.moves@
            &&& a.child_nodes@ == b.child_nodes@
            &&& a.parent == b.parent
            &&& a.score == b.score
            &&& a.visits == b.visits
            &&& a.registers@.len() == b.registers@.len()
        } by {
            let m = mid.nodes@[i];
        }
    }

    /// Down a descent the indices grow.
    pub proof fn lemma_descent_increasing(self, path: Seq<usize>, a: int, b: int)
        requires
            self.wf(),
            self.is_descent(path),
            0 <= a < b < path.len(),
        ensures
            path[a] < path[b],
        decreases b - a,
    {
        assert(self.node_wf(path[b] as int));
        assert(self.linked(path, b));
        if a + 1 < b {
            self.lemma_descent_increasing(path, a, b - 1);
        }
    }

    /// The two trees differ in the registers of their vertices at most.
    pub open spec fn same_structure(self, other: Self) -> bool {
        &&& self.nodes@.len() == other.nodes@.len()
        &&& forall|i: int|
            0 <= i < self.nodes@.len() ==> {
                let a = #[trigger] self.nodes@[i];
                let b = other.nodes@[i];
                &&& a.board@ == b.board@
                &&& a.moves@ == b.moves@
                &&& a.child_nodes@ == b.child_nodes@
                &&& a.parent == b.parent
                &&& a.score == b.score
                &&& a.visits == b.visits
                &&& a.registers@.len() == b.registers@.len()
            }
    }
}


impl<
    Board: BarracudaBoard<Params, Move>,
    Params: BarracudaParams,
    Move: BarracudaMove,
    const DATA_REGISTERS: usize,
> Node<Board, Params, Move, DATA_REGISTERS> {
    /// A vertex that has not been expanded or visited.
    pub fn new(board: Board, parent: Option<usize>) -> (node: Self)
        ensures
            node.board == board,
            node.parent == parent,
            node.moves@.len() == 0,
            node.child_nodes@.len() == 0,
            node.score@ == 0,
            node.visits@ == 1,
            node.registers@.len() == DATA_REGISTERS,
            forall|k: int| 0 <= k < DATA_REGISTERS ==> (#[trigger] node.registers@[k])@ == 0,
    {
        let mut registers: Vec<Fixed> = Vec::new();
        let mut k: usize = 0;
        while k < DATA_REGISTERS
            invariant
                k <= DATA_REGISTERS,
                registers@.len() == k,
                forall|j: int| 0 <= j < k ==> (#[trigger] registers@[j])@ == 0,
            decreases DATA_REGISTERS - k,
        {
            registers.push(Fixed::zero());
            k += 1;
        }
        Self {
            board,
            moves: Vec::new(),
            child_nodes: Vec::new(),
            parent,
            score: Fixed::zero(),
            visits: Fixed::epsilon(),
            registers,
            params: PhantomData,
        }
    }

    /// The mean outcome: score by visits.
    pub fn eval(&self) -> (mean: Fixed)
        ensures
            mean@ == ratio_raw(self.score@, self.visits@),
    {
        self.score.divided_by(self.visits)
    }

    /// The number of whole visits, at most `u32::MAX` and at least 0.
    pub fn visits(&self) -> (count: u32)
        ensures
            count == whole_visits(self.visits@),
    {
        let whole: i64 = self.visits.trunc();
        if whole < 0 {
            0
        } else if whole > 0xffff_ffff {
            0xffff_ffff
        } else {
            whole as u32
        }
    }
}

/// The whole part of a visit count as a 32-bit number, saturated.
pub open spec fn whole_visits(visits: int) -> int {
    let whole = quotient(visits, SCALE as int);
    if whole < 0 {
        0
    } else if whole > u32::MAX {
        u32::MAX as int
    } else {
        whole
    }
}



/// The strategy objects of a search, assembled once.
pub struct BarracudaAlgorithms<U, F, Pol, SP, Sim, BP> {
    /// Called for each child that is scored, in this order.
    pub ucb_algorithms: Vec<U>,
    /// Told of every event after the hooks, and read for each child that is
    /// scored.
    pub ucb: Ucb<F>,
    /// Chooses the child that a playout starts from.
    pub policy: Pol,
    /// Called with the result of each playout, in this order.
    pub simulation_algorithms: Vec<SP>,
    /// Plays out.
    pub simulation: Sim,
    /// Called for each vertex on the way back, in this order.
    pub backprop_algorithms: Vec<BP>,
}

impl<U, F, Pol, SP, Sim, BP> BarracudaAlgorithms<U, F, Pol, SP, Sim, BP> {
    /// No hook is registered besides the expression.
    pub open spec fn no_hooks(self) -> bool {
        &&& self.ucb_algorithms@.len() == 0
        &&& self.simulation_algorithms@.len() == 0
        &&& self.backprop_algorithms@.len() == 0
    }
}

/// Whether `value` is the seed of a playout from the child of `position`
/// that the policy chose by `index` and the simulation estimated at
/// `estimate`.
pub open spec fn seeded<
    Board: BarracudaBoard<Params, Move>,
    Params: BarracudaParams,
    Move: BarracudaMove,
    Pol: Policy<Board, Params, Move>,
    Sim: Simulation<Board, Params, Move>,
>(
    position: Board::V,
    index: usize,
    estimate: Fixed,
    value: Fixed,
    policy: (Pol, Pol),
    simulation: (Sim, Sim),
) -> bool {
    let reached = Board::play(position, Board::legal_moves(position)[index as int]);
    &&& index < Board::legal_moves(position).len()
    &&& Pol::picks(policy.0, position, index, policy.1)
    &&& Sim::estimates(simulation.0, reached, estimate, simulation.1)
    &&& value@ == playout_seed_raw(estimate@, Board::to_move(reached))
}

/// Whether `value` is the seed of a playout from `child`, one of the children
/// of `position` that are numbered from `first` on: the one that the policy
/// chose, at the estimate that the simulation gave for it.
pub open spec fn played<
    Board: BarracudaBoard<Params, Move>,
    Params: BarracudaParams,
    Move: BarracudaMove,
    Pol: Policy<Board, Params, Move>,
    Sim: Simulation<Board, Params, Move>,
>(
    position: Board::V,
    first: int,
    child: usize,
    value: Fixed,
    policy: (Pol, Pol),
    simulation: (Sim, Sim),
) -> bool {
    exists|index: usize, estimate: Fixed|
        #[trigger] seeded::<Board, Params, Move, Pol, Sim>(
            position,
            index,
            estimate,
            value,
            policy,
            simulation,
        ) && child == first + index
}

impl<
    Board: BarracudaBoard<Params, Move>,
    Params: BarracudaParams,
    Move: BarracudaMove,
    const DATA_REGISTERS: usize,
> Node<Board, Params, Move, DATA_REGISTERS> {
    /// Scores the children of the expanded vertex `current`: for each child
    /// the hooks and then the expression are told of it, then the expression
    /// is read.
    pub fn rank<
        U: BarracudaUcbParams<Board, Params, Move, DATA_REGISTERS>,
        F: Formula<Board, Params, Move, DATA_REGISTERS>,
    >(
        tree: &mut Tree<Board, Params, Move, DATA_REGISTERS>,
        ucb_algorithms: &mut Vec<U>,
        ucb: &mut Ucb<F>,
        current: usize,
    ) -> (scores: Vec<Fixed>)
        requires
            old(tree).wf(),
            current < old(tree).nodes@.len(),
        ensures
            final(tree).wf(),
            final(tree).same_structure(*old(tree)),
            scores@.len() == old(tree).nodes@[current as int].child_nodes@.len(),
            final(ucb_algorithms)@.len() == old(ucb_algorithms)@.len(),
            final(ucb).formula.plain() == old(ucb).formula.plain(),
            old(ucb_algorithms)@.len() == 0 && old(ucb).formula.plain() ==> {
                &&& *final(tree) == *old(tree)
                &&& agree(final(ucb).formula, old(ucb).formula)
                &&& scores@ == old(tree).child_scores(old(ucb).formula, current as int)
            },
    {
        let ghost simple = old(ucb_algorithms)@.len() == 0 && old(ucb).formula.plain();
        proof {
            lemma_agree_intro(ucb.formula, ucb.formula);
        }
        let count = tree.nodes[current].child_nodes.len();
        let mut scores: Vec<Fixed> = Vec::new();
        let mut k: usize = 0;
        while k < count
            invariant
                old(tree).wf(),
                tree.wf(),
                tree.same_structure(*old(tree)),
                current < tree.nodes@.len(),
                count == tree.nodes@[current as int].child_nodes@.len(),
                k <= count,
                scores@.len() == k,
                ucb_algorithms@.len() == old(ucb_algorithms)@.len(),
                ucb.formula.plain() == old(ucb).formula.plain(),
                simple == (old(ucb_algorithms)@.len() == 0 && old(ucb).formula.plain()),
                simple ==> *tree == *old(tree) && agree(ucb.formula, old(ucb).formula),
                simple ==> forall|q: int|
                    0 <= q < k ==> #[trigger] scores@[q] == old(tree).child_scores(
                        old(ucb).formula,
                        current as int,
                    )[q],
            decreases count - k,
        {
            assert(tree.node_wf(current as int));
            let child = tree.nodes[current].child_nodes[k];
            let mv = tree.nodes[current].moves[k];
            let ghost staged = ucb.formula;
            let score = Self::score(tree, ucb_algorithms, ucb, child, &mv);
            let ghost entered = scores@;
            scores.push(score);
            proof {
                if simple {
                    lemma_agree_intro(ucb.formula, staged);
                    lemma_agree_trans(ucb.formula, staged, old(ucb).formula);
                    lemma_agree_at(ucb.formula, old(ucb).formula, *tree, child, mv);
                    assert forall|q: int| 0 <= q < k + 1 implies #[trigger] scores@[q] == old(
                        tree,
                    ).child_scores(old(ucb).formula, current as int)[q] by {
                        if q < k {
                            assert(scores@[q] == entered[q]);
                        }
                    }
                }
            }
            k += 1;
        }
        proof {
            if simple {
                assert(scores@ =~= old(tree).child_scores(old(ucb).formula, current as int));
            }
        }
        scores
    }

    /// Scores the vertex `child`, reached by `last_move`: the hooks and then
    /// the expression are told of it, then the expression is read.
    pub fn score<
        U: BarracudaUcbParams<Board, Params, Move, DATA_REGISTERS>,
        F: Formula<Board, Params, Move, DATA_REGISTERS>,
    >(
        tree: &mut Tree<Board, Params, Move, DATA_REGISTERS>,
        ucb_algorithms: &mut Vec<U>,
        ucb: &mut Ucb<F>,
        child: usize,
        last_move: &Move,
    ) -> (score: Fixed)
        requires
            old(tree).wf(),
            child < old(tree).nodes@.len(),
        ensures
            final(tree).wf(),
            final(tree).same_structure(*old(tree)),
            final(ucb_algorithms)@.len() == old(ucb_algorithms)@.len(),
            final(ucb).formula.plain() == old(ucb).formula.plain(),
            score == final(ucb).formula.value(*final(tree), child, *last_move),
            old(ucb_algorithms)@.len() == 0 ==> F::told(
                old(ucb).formula,
                *old(tree),
                (Event::Score { node: child, last_move: *last_move }),
                final(ucb).formula,
                *final(tree),
            ),
            old(ucb_algorithms)@.len() == 0 ==> final(ucb).formula.plain() ==> {
                &&& *final(tree) == *old(tree)
                &&& forall|t: Tree<Board, Params, Move, DATA_REGISTERS>, n: usize, m: Move| #[trigger]
                    final(ucb).formula.value(t, n, m) == old(ucb).formula.value(t, n, m)
            },
    {
        let mut h: usize = 0;
        while h < ucb_algorithms.len()
            invariant
                old(tree).wf(),
                tree.wf(),
                tree.same_structure(*old(tree)),
                child < tree.nodes@.len(),
                ucb_algorithms@.len() == old(ucb_algorithms)@.len(),
                old(ucb_algorithms)@.len() == 0 ==> *tree == *old(tree),
            decreases ucb_algorithms@.len() - h,
        {
            let ghost before = *tree;
            ucb_algorithms[h].set_node(tree, child, last_move);
            proof {
                tree.lemma_same_structure_wf(before);
                tree.lemma_same_structure_trans(before, *old(tree));
            }
            h += 1;
        }
        let ghost before = *tree;
        ucb.formula.on_score(tree, child, last_move);
        proof {
            tree.lemma_same_structure_wf(before);
            tree.lemma_same_structure_trans(before, *old(tree));
        }
        ucb.ucb(tree, child, last_move)
    }

    /// Walks from the root to a vertex that has not been expanded. At each
    /// vertex on the way every child is scored, and the walk goes on to the
    /// first child with the greatest score. With no hook and a plain
    /// expression the tree stays as it is, and the path is the one that the
    /// expression's values lead down.
    pub fn select<
        U: BarracudaUcbParams<Board, Params, Move, DATA_REGISTERS>,
        F: Formula<Board, Params, Move, DATA_REGISTERS>,
    >(tree: &mut Tree<Board, Params, Move, DATA_REGISTERS>, ucb_algorithms: &mut Vec<U>, ucb: &mut Ucb<F>) -> (path: Vec<usize>)
        requires
            old(tree).wf(),
        ensures
            final(tree).wf(),
            final(tree).same_structure(*old(tree)),
            final(tree).is_descent(path@),
            final(tree).nodes@[path@.last() as int].moves@.len() == 0,
            final(tree).through_expanded(path@),
            final(ucb_algorithms)@.len() == old(ucb_algorithms)@.len(),
            final(ucb).formula.plain() == old(ucb).formula.plain(),
            old(ucb_algorithms)@.len() == 0 && old(ucb).formula.plain() ==> {
                &&& *final(tree) == *old(tree)
                &&& agree(final(ucb).formula, old(ucb).formula)
                &&& final(tree).follows_best(old(ucb).formula, path@)
            },
    {
        let ghost simple = old(ucb_algorithms)@.len() == 0 && old(ucb).formula.plain();
        proof {
            lemma_agree_intro(ucb.formula, ucb.formula);
        }
        let mut path: Vec<usize> = Vec::new();
        let mut current: usize = 0;
        path.push(current);
        while tree.nodes[current].moves.len() > 0
            invariant
                old(tree).wf(),
                tree.wf(),
                tree.same_structure(*old(tree)),
                current < tree.nodes@.len(),
                tree.is_descent(path@),
                tree.through_expanded(path@),
                path@.last() == current,
                ucb_algorithms@.len() == old(ucb_algorithms)@.len(),
                ucb.formula.plain() == old(ucb).formula.plain(),
                simple == (old(ucb_algorithms)@.len() == 0 && old(ucb).formula.plain()),
                simple ==> *tree == *old(tree) && agree(ucb.formula, old(ucb).formula)
                    && tree.follows_best(old(ucb).formula, path@),
            decreases tree.nodes@.len() - current,
        {
            let ghost before = *tree;
            let ghost ranked = ucb.formula;
            assert(tree.node_wf(current as int));
            let scores = Self::rank(tree, ucb_algorithms, ucb, current);
            proof {
                tree.lemma_same_structure_trans(before, *old(tree));
                assert forall|j: int| 0 < j < path@.len() implies #[trigger] tree.linked(path@, j) by {
                    assert(before.linked(path@, j));
                    let n = tree.nodes@[path@[j] as int];
                }
                assert forall|j: int| 0 <= j < path@.len() - 1 implies tree.nodes@[(
                #[trigger] path@[j]) as int].moves@.len() > 0 by {
                    let n = tree.nodes@[path@[j] as int];
                }
                if simple {
                    Self::lemma_agree_scores(*tree, ranked, old(ucb).formula, current as int);
                    lemma_agree_trans(ucb.formula, ranked, old(ucb).formula);
                }
            }
            let best = best_index(&scores);
            assert(tree.node_wf(current as int));
            let next = tree.nodes[current].child_nodes[best];
            proof {
                let longer = path@.push(next);
                assert forall|j: int| 0 < j < longer.len() implies #[trigger] tree.linked(
                    longer,
                    j,
                ) by {
                    if j < path@.len() {
                        assert(tree.linked(path@, j));
                        assert(longer[j] == path@[j]);
                        assert(longer[j - 1] == path@[j - 1]);
                    }
                }
                assert forall|j: int| 0 <= j < longer.len() - 1 implies tree.nodes@[(
                #[trigger] longer[j]) as int].moves@.len() > 0 by {
                    if j < path@.len() - 1 {
                        assert(longer[j] == path@[j]);
                    }
                }
                if simple {
                    assert forall|j: int| 0 < j < longer.len() implies #[trigger] tree.best_step(
                        old(ucb).formula,
                        longer,
                        j,
                    ) by {
                        if j < path@.len() {
                            assert(tree.best_step(old(ucb).formula, path@, j));
                            assert(longer[j] == path@[j]);
                            assert(longer[j - 1] == path@[j - 1]);
                        }
                    }
                }
            }
            current = next;
            path.push(current);
        }
        path
    }

    /// Expressions that agree give the children of a vertex the same scores.
    pub proof fn lemma_agree_scores<F: Formula<Board, Params, Move, DATA_REGISTERS>>(
        tree: Tree<Board, Params, Move, DATA_REGISTERS>,
        a: F,
        b: F,
        i: int,
    )
        requires
            agree(a, b),
        ensures
            tree.child_scores(a, i) == tree.child_scores(b, i),
    {
        reveal(agree);
        assert(tree.child_scores(a, i) =~= tree.child_scores(b, i));
    }

    /// Expands the vertex `leaf`, which has no children yet.
    ///
    /// Where the game is over at `leaf`, or nothing can be played, the tree
    /// stays as it is and the value of the finished game is returned with
    /// `None`. Otherwise `leaf` gets one child for each legal move, the
    /// policy chooses one of them, the simulation estimates its position, the
    /// hooks and then the expression are told the result, and the value of the
    /// playout is returned with the chosen child.
    pub fn expand<
        Pol: Policy<Board, Params, Move>,
        Sim: Simulation<Board, Params, Move>,
        SP: BarracudaSimulationParams<Board, Params, Move, DATA_REGISTERS>,
        F: Formula<Board, Params, Move, DATA_REGISTERS>,
    >(
        tree: &mut Tree<Board, Params, Move, DATA_REGISTERS>,
        leaf: usize,
        policy: &mut Pol,
        simulation: &mut Sim,
        simulation_algorithms: &mut Vec<SP>,
        formula: &mut F,
    ) -> (result: (Fixed, Option<usize>))
        requires
            old(tree).wf(),
            leaf < old(tree).nodes@.len(),
            old(tree).nodes@[leaf as int].moves@.len() == 0,
        ensures
            final(tree).wf(),
            final(tree).grown_from(*old(tree), leaf as int),
            final(formula).plain() == old(formula).plain(),
            old(simulation_algorithms)@.len() == 0 && old(formula).plain() ==> final(tree).registers_kept(*old(tree)),
            final(tree).expanded(
                *old(tree),
                leaf as int,
                result.0,
                result.1,
                (*old(policy), *final(policy)),
                (*old(simulation), *final(simulation)),
            ),
    {
        assert(tree.node_wf(leaf as int));
        let moves = tree.nodes[leaf].board.get_moves();
        let state = tree.nodes[leaf].board.game_state();
        let side = tree.nodes[leaf].board.turn();
        let ongoing = match state {
            GameState::Ongoing => true,
            GameState::End(_) => false,
        };
        if moves.len() == 0 || !ongoing {
            proof {
                if moves@.len() == 0 {
                    Board::stuck_is_over(tree.nodes@[leaf as int].board@);
                }
            }
            return (terminal_seed(state, side), None);
        }
        let first: usize = tree.nodes.len();
        let ghost position = tree.nodes@[leaf as int].board@;
        let mut child_nodes: Vec<usize> = Vec::new();
        let mut k: usize = 0;
        while k < moves.len()
            invariant
                old(tree).wf(),
                tree.wf(),
                tree.grown_from(*old(tree), leaf as int),
                leaf < old(tree).nodes@.len(),
                first == old(tree).nodes@.len(),
                position == old(tree).nodes@[leaf as int].board@,
                moves@ == Board::legal_moves(position),
                k <= moves@.len(),
                tree.nodes@.len() == first + k,
                child_nodes@.len() == k,
                tree.nodes@[leaf as int].moves@.len() == 0,
                tree.nodes@[leaf as int].child_nodes@.len() == 0,
                tree.registers_kept(*old(tree)),
                forall|j: int| 0 <= j < k ==> #[trigger] child_nodes@[j] == first + j,
                forall|j: int|
                    0 <= j < k ==> (#[trigger] tree.nodes@[first + j]).board@ == Board::play(
                        position,
                        moves@[j],
                    ),
            decreases moves@.len() - k,
        {
            let mv = moves[k];
            assert(tree.node_wf(leaf as int));
            let mut board = tree.nodes[leaf].board.duplicate();
            proof {
                assert(moves@.contains(mv));
                Board::enumeration_is_exact(position, mv);
            }
            board.make_move(mv);
            let child: Node<Board, Params, Move, DATA_REGISTERS> = Node::new(board, Some(leaf));
            let ghost before = *tree;
            let index: usize = tree.nodes.len();
            tree.nodes.push(child);
            child_nodes.push(index);
            proof {
                assert forall|i: int| 0 <= i < tree.nodes@.len() implies #[trigger] tree.node_wf(
                    i,
                ) by {
                    if i < before.nodes@.len() {
                        assert(before.node_wf(i));
                        assert(tree.nodes@[i] == before.nodes@[i]);
                        let n = tree.nodes@[i];
                        assert forall|q: int| 0 <= q < n.child_nodes@.len() implies {
                            let c = #[trigger] n.child_nodes@[q];
                            &&& i < c < tree.nodes@.len()
                            &&& tree.nodes@[c as int].parent == Some(i as usize)
                            &&& tree.nodes@[c as int].board@ == Board::play(n.board@, n.moves@[q])
                        } by {
                            let c = n.child_nodes@[q];
                            assert(tree.nodes@[c as int] == before.nodes@[c as int]);
                        }
                    }
                }
                assert forall|j: int| 0 <= j < k + 1 implies (#[trigger] tree.nodes@[first
                    + j]).board@ == Board::play(position, moves@[j]) by {
                    if j < k {
                        assert(tree.nodes@[first + j] == before.nodes@[first + j]);
                    }
                }
                assert forall|i: int| 0 <= i < old(tree).nodes@.len() implies {
                    let a = #[trigger] tree.nodes@[i];
                    let b = old(tree).nodes@[i];
                    &&& a.board@ == b.board@
                    &&& a.parent == b.parent
                    &&& a.score == b.score
                    &&& a.visits == b.visits
                    &&& a.registers@.len() == b.registers@.len()
                    &&& (i != leaf ==> a.moves@ == b.moves@ && a.child_nodes@ == b.child_nodes@)
                } by {
                    assert(tree.nodes@[i] == before.nodes@[i]);
                }
                assert forall|i: int| old(tree).nodes@.len() <= i < tree.nodes@.len() implies {
                    let a = #[trigger] tree.nodes@[i];
                    &&& a.parent == Some(leaf as usize)
                    &&& a.score@ == 0
                    &&& a.visits@ == 1
                    &&& a.moves@.len() == 0
                } by {
                    if i < before.nodes@.len() {
                        assert(tree.nodes@[i] == before.nodes@[i]);
                    }
                }
            }
            k += 1;
        }
        let index = policy.pick(&tree.nodes[leaf].board, moves.as_slice());
        let move_made = moves[index];
        let chosen = child_nodes[index];
        let ghost before = *tree;
        tree.nodes[leaf].child_nodes = child_nodes;
        tree.nodes[leaf].moves = moves;
        proof {
            assert forall|i: int| 0 <= i < tree.nodes@.len() implies #[trigger] tree.node_wf(i) by {
                assert(before.node_wf(i));
                if i != leaf {
                    assert(tree.nodes@[i] == before.nodes@[i]);
                    let n = tree.nodes@[i];
                    assert forall|q: int| 0 <= q < n.child_nodes@.len() implies {
                        let c = #[trigger] n.child_nodes@[q];
                        &&& i < c < tree.nodes@.len()
                        &&& tree.nodes@[c as int].parent == Some(i as usize)
                        &&& tree.nodes@[c as int].board@ == Board::play(n.board@, n.moves@[q])
                    } by {
                        let c = n.child_nodes@[q];
                        assert(before.nodes@[c as int].parent == Some(i as usize));
                        assert(tree.nodes@[c as int].parent == before.nodes@[c as int].parent);
                        assert(tree.nodes@[c as int].board == before.nodes@[c as int].board);
                    }
                } else {
                    let n = tree.nodes@[i];
                    assert forall|q: int| 0 <= q < n.child_nodes@.len() implies {
                        let c = #[trigger] n.child_nodes@[q];
                        &&& i < c < tree.nodes@.len()
                        &&& tree.nodes@[c as int].parent == Some(i as usize)
                        &&& tree.nodes@[c as int].board@ == Board::play(n.board@, n.moves@[q])
                    } by {
                        let c = n.child_nodes@[q];
                        assert(c == first + q);
                        assert(tree.nodes@[first + q] == before.nodes@[first + q]);
                    }
                }
            }
            assert(tree.nodes@[leaf as int].child_nodes@[index as int] == chosen);
        }
        let ghost linked = *tree;
        assert(tree.node_wf(chosen as int));
        assert(tree.registers_kept(*old(tree))) by {
            assert forall|i: int| 0 <= i < old(tree).nodes@.len() && i < tree.nodes@.len() implies (
            #[trigger] tree.nodes@[i]).registers == old(tree).nodes@[i].registers by {
                assert(before.nodes@[i].registers == old(tree).nodes@[i].registers);
            }
        }
        let estimate = simulation.simulate(&tree.nodes[chosen].board);
        let value = playout_seed(estimate, tree.nodes[chosen].board.turn());
        let mut h: usize = 0;
        while h < simulation_algorithms.len()
            invariant
                linked.wf(),
                tree.wf(),
                tree.same_structure(linked),
                chosen < tree.nodes@.len(),
                simulation_algorithms@.len() == old(simulation_algorithms)@.len(),
                old(simulation_algorithms)@.len() == 0 ==> *tree == linked,
            decreases simulation_algorithms@.len() - h,
        {
            let ghost before = *tree;
            simulation_algorithms[h].set_node(tree, chosen, &move_made, value);
            proof {
                tree.lemma_same_structure_wf(before);
                tree.lemma_same_structure_trans(before, linked);
            }
            h += 1;
        }
        let ghost told = *tree;
        formula.on_playout(tree, chosen, &move_made, value);
        proof {
            tree.lemma_same_structure_wf(told);
            tree.lemma_same_structure_trans(told, linked);
            assert(chosen == first + index);
            assert(linked.nodes@[chosen as int].board@ == Board::play(
                position,
                Board::legal_moves(position)[index as int],
            ));
            assert(seeded::<Board, Params, Move, Pol, Sim>(
                position,
                index,
                estimate,
                value,
                (*old(policy), *policy),
                (*old(simulation), *simulation),
            ));
            assert(tree.nodes@[leaf as int].child_nodes@ == linked.nodes@[leaf as int].child_nodes@);
            assert(tree.nodes@[leaf as int].moves@ == linked.nodes@[leaf as int].moves@);
            assert(tree.nodes@.len() == linked.nodes@.len());
            assert(linked.nodes@[leaf as int].child_nodes@[index as int] == chosen);
            assert(tree.nodes@[leaf as int].child_nodes@.contains(chosen));
            assert(linked.nodes@[leaf as int].moves@ == Board::legal_moves(position));
            assert(linked.nodes@.len() == old(tree).nodes@.len() + Board::legal_moves(
                position,
            ).len());
            if old(simulation_algorithms)@.len() == 0 && old(formula).plain() {
                assert(*tree == linked);
                assert(tree.registers_kept(*old(tree)));
            }
            assert(played::<Board, Params, Move, Pol, Sim>(
                position,
                old(tree).nodes@.len() as int,
                chosen,
                value,
                (*old(policy), *policy),
                (*old(simulation), *simulation),
            ));
            assert(position == old(tree).nodes@[leaf as int].board@);
            assert(!(Board::legal_moves(position).len() == 0 || Board::state_of(position)
                != GameState::Ongoing));
            assert(old(tree).nodes@.len() <= chosen);
            assert(tree.grown_from(*old(tree), leaf as int)) by {
                assert forall|i: int| 0 <= i < old(tree).nodes@.len() implies {
                    let a = #[trigger] tree.nodes@[i];
                    let b = old(tree).nodes@[i];
                    &&& a.board@ == b.board@
                    &&& a.parent == b.parent
                    &&& a.score == b.score
                    &&& a.visits == b.visits
                    &&& a.registers@.len() == b.registers@.len()
                    &&& (i != leaf ==> a.moves@ == b.moves@ && a.child_nodes@ == b.child_nodes@)
                } by {
                    let l = linked.nodes@[i];
                }
                assert forall|i: int| old(tree).nodes@.len() <= i < tree.nodes@.len() implies {
                    let a = #[trigger] tree.nodes@[i];
                    &&& a.parent == Some(leaf as usize)
                    &&& a.score@ == 0
                    &&& a.visits@ == 1
                    &&& a.moves@.len() == 0
                } by {
                    let l = linked.nodes@[i];
                }
            }
        }
        (value, Some(chosen))
    }

    /// Propagates `value` up `path`: each vertex from the last to the first is
    /// shown to the hooks and to the expression, receives the value and one
    /// visit, and hands the value on turned round.
    pub fn backpropagate<
        BP: Backprop<Board, Params, Move, DATA_REGISTERS>,
        F: Formula<Board, Params, Move, DATA_REGISTERS>,
    >(
        tree: &mut Tree<Board, Params, Move, DATA_REGISTERS>,
        backprop_algorithms: &mut Vec<BP>,
        formula: &mut F,
        path: &Vec<usize>,
        value: Fixed,
    )
        requires
            old(tree).wf(),
            old(tree).is_descent(path@),
        ensures
            final(tree).wf(),
            final(tree).propagated(*old(tree), path@, value@),
            final(formula).plain() == old(formula).plain(),
            old(backprop_algorithms)@.len() == 0 && old(formula).plain() ==> final(tree).registers_kept(*old(tree)),
    {
        let ghost simple = old(backprop_algorithms)@.len() == 0 && old(formula).plain();
        let mut j: usize = path.len();
        let mut last_score = value;
        while j > 0
            invariant
                old(tree).wf(),
                old(tree).is_descent(path@),
                tree.wf(),
                j <= path@.len(),
                last_score@ == flipped(value@, (path@.len() - j) as nat),
                tree.nodes@.len() == old(tree).nodes@.len(),
                backprop_algorithms@.len() == old(backprop_algorithms)@.len(),
                formula.plain() == old(formula).plain(),
                simple == (old(backprop_algorithms)@.len() == 0 && old(formula).plain()),
                simple ==> tree.registers_kept(*old(tree)),
                forall|i: int|
                    0 <= i < tree.nodes@.len() ==> {
                        let a = #[trigger] tree.nodes@[i];
                        let b = old(tree).nodes@[i];
                        &&& a.board@ == b.board@
                        &&& a.moves@ == b.moves@
                        &&& a.child_nodes@ == b.child_nodes@
                        &&& a.parent == b.parent
                        &&& a.registers@.len() == b.registers@.len()
                        &&& (!path@.contains(i as usize) ==> a.score == b.score && a.visits
                            == b.visits)
                    },
                forall|q: int|
                    0 <= q < j ==> {
                        let a = tree.nodes@[(#[trigger] path@[q]) as int];
                        let b = old(tree).nodes@[path@[q] as int];
                        a.score == b.score && a.visits == b.visits
                    },
                forall|q: int|
                    j <= q < path@.len() ==> {
                        let a = tree.nodes@[(#[trigger] path@[q]) as int];
                        let b = old(tree).nodes@[path@[q] as int];
                        &&& a.score@ == sum_raw(
                            b.score@,
                            flipped(value@, (path@.len() - 1 - q) as nat),
                        )
                        &&& a.visits@ == sum_raw(b.visits@, SCALE as int)
                    },
            decreases j,
        {
            j -= 1;
            let node = path[j];
            let mut h: usize = 0;
            let ghost entered = *tree;
            while h < backprop_algorithms.len()
                invariant
                    entered.wf(),
                    tree.wf(),
                    tree.same_structure(entered),
                    node < tree.nodes@.len(),
                    backprop_algorithms@.len() == old(backprop_algorithms)@.len(),
                    old(backprop_algorithms)@.len() == 0 ==> *tree == entered,
                decreases backprop_algorithms@.len() - h,
            {
                let ghost before = *tree;
                backprop_algorithms[h].backprop(tree, node, last_score);
                proof {
                    tree.lemma_same_structure_wf(before);
                    tree.lemma_same_structure_trans(before, entered);
                }
                h += 1;
            }
            let ghost shown = *tree;
            formula.on_backprop(tree, node, last_score);
            proof {
                tree.lemma_same_structure_wf(shown);
                tree.lemma_same_structure_trans(shown, entered);
            }
            let ghost before = *tree;
            let score = tree.nodes[node].score.plus(last_score);
            let visits = tree.nodes[node].visits.plus(Fixed::one());
            tree.nodes[node].score = score;
            tree.nodes[node].visits = visits;
            proof {
                assert(path@.contains(node));
                if simple {
                    assert forall|i: int|
                        0 <= i < old(tree).nodes@.len() && i < tree.nodes@.len() implies (
                    #[trigger] tree.nodes@[i]).registers == old(tree).nodes@[i].registers by {
                        assert(entered.nodes@[i].registers == old(tree).nodes@[i].registers);
                        assert(before.nodes@[i] == entered.nodes@[i]);
                    }
                }
                assert forall|i: int| 0 <= i < tree.nodes@.len() implies #[trigger] tree.node_wf(
                    i,
                ) by {
                    assert(before.node_wf(i));
                    let n = tree.nodes@[i];
                    assert forall|q: int| 0 <= q < n.child_nodes@.len() implies {
                        let c = #[trigger] n.child_nodes@[q];
                        &&& i < c < tree.nodes@.len()
                        &&& tree.nodes@[c as int].parent == Some(i as usize)
                        &&& tree.nodes@[c as int].board@ == Board::play(n.board@, n.moves@[q])
                    } by {
                        let c = before.nodes@[i].child_nodes@[q];
                    }
                }
                assert forall|q: int| 0 <= q < j implies {
                    let a = tree.nodes@[(#[trigger] path@[q]) as int];
                    let b = old(tree).nodes@[path@[q] as int];
                    a.score == b.score && a.visits == b.visits
                } by {
                    old(tree).lemma_descent_increasing(path@, q, j as int);
                    assert(tree.nodes@[path@[q] as int] == before.nodes@[path@[q] as int]);
                    assert(entered.nodes@[path@[q] as int].score == before.nodes@[path@[q] as int].score);
                }
                assert forall|q: int| j <= q < path@.len() implies {
                    let a = tree.nodes@[(#[trigger] path@[q]) as int];
                    let b = old(tree).nodes@[path@[q] as int];
                    &&& a.score@ == sum_raw(b.score@, flipped(value@, (path@.len() - 1 - q) as nat))
                    &&& a.visits@ == sum_raw(b.visits@, SCALE as int)
                } by {
                    if q > j {
                        old(tree).lemma_descent_increasing(path@, j as int, q);
                        assert(tree.nodes@[path@[q] as int] == before.nodes@[path@[q] as int]);
                        assert(entered.nodes@[path@[q] as int].score == before.nodes@[path@[q] as int].score);
                    } else {
                        assert(entered.nodes@[node as int].score == before.nodes@[node as int].score);
                    }
                }
            }
            last_score = Fixed::one().minus(last_score);
        }
    }

    /// One iteration of the search: selects a vertex that has not been
    /// expanded, expands it, plays out from one of its children, and
    /// propagates the result up to the root. Returns the path that was
    /// walked and the value that its last vertex received.
    pub fn search<
        U: BarracudaUcbParams<Board, Params, Move, DATA_REGISTERS>,
        F: Formula<Board, Params, Move, DATA_REGISTERS>,
        Pol: Policy<Board, Params, Move>,
        SP: BarracudaSimulationParams<Board, Params, Move, DATA_REGISTERS>,
        Sim: Simulation<Board, Params, Move>,
        BP: Backprop<Board, Params, Move, DATA_REGISTERS>,
    >(
        tree: &mut Tree<Board, Params, Move, DATA_REGISTERS>,
        algo: &mut BarracudaAlgorithms<U, F, Pol, SP, Sim, BP>,
    ) -> (result: (Vec<usize>, Fixed))
        requires
            old(tree).wf(),
        ensures
            final(tree).wf(),
            final(tree).searched(*old(tree), result.0@, result.1@),
            final(tree).stepped(
                *old(tree),
                result.0@,
                result.1,
                (old(algo).policy, final(algo).policy),
                (old(algo).simulation, final(algo).simulation),
            ),
            final(algo).ucb.formula.plain() == old(algo).ucb.formula.plain(),
            old(algo).no_hooks() && old(algo).ucb.formula.plain() ==> final(tree).registers_kept(
                *old(tree),
            ),
            old(algo).ucb_algorithms@.len() == 0 && old(algo).ucb.formula.plain() ==> old(tree).follows_best(
                old(algo).ucb.formula,
                if final(tree).nodes@.len() > old(tree).nodes@.len() {
                    result.0@.drop_last()
                } else {
                    result.0@
                },
            ),
    {
        let mut path = Self::select(tree, &mut algo.ucb_algorithms, &mut algo.ucb);
        let ghost selected = *tree;
        let ghost walked = path@;
        let leaf = path[path.len() - 1];
        let (value, chosen) = Self::expand(
            tree,
            leaf,
            &mut algo.policy,
            &mut algo.simulation,
            &mut algo.simulation_algorithms,
            &mut algo.ucb.formula,
        );
        let ghost grown = *tree;
        match chosen {
            Some(child) => {
                path.push(child);
            },
            None => {},
        }
        proof {
            grown.lemma_descent_grown(selected, walked, chosen);
        }
        Self::backpropagate(
            tree,
            &mut algo.backprop_algorithms,
            &mut algo.ucb.formula,
            &path,
            value,
        );
        proof {
            let t0 = *old(tree);
            tree.lemma_searched(t0, selected, grown, leaf as int, path@, value@);
            tree.lemma_stepped::<Pol, Sim>(
                t0,
                selected,
                grown,
                walked,
                path@,
                value,
                chosen,
                (old(algo).policy, algo.policy),
                (old(algo).simulation, algo.simulation),
            );
            let grew = tree.nodes@.len() > t0.nodes@.len();
            let before = if grew {
                path@.drop_last()
            } else {
                path@
            };
            assert(before =~= walked);
            if old(algo).no_hooks() && old(algo).ucb.formula.plain() {
                assert forall|i: int| 0 <= i < t0.nodes@.len() && i < tree.nodes@.len() implies (
                #[trigger] tree.nodes@[i]).registers == t0.nodes@[i].registers by {
                    let g = grown.nodes@[i];
                }
            }
        }
        (path, value)
    }

    /// The principal variation from `node`: the moves along the way that
    /// follows, from each vertex, the first child with the most visits.
    pub fn pv(tree: &Tree<Board, Params, Move, DATA_REGISTERS>, node: usize) -> (line: Vec<Move>)
        requires
            tree.wf(),
            node < tree.nodes@.len(),
        ensures
            line@ == tree.pv_from(node as int),
    {
        let mut line: Vec<Move> = Vec::new();
        let mut current: usize = node;
        while tree.nodes[current].moves.len() > 0
            invariant
                tree.wf(),
                current < tree.nodes@.len(),
                line@ + tree.pv_from(current as int) == tree.pv_from(node as int),
            decreases tree.nodes@.len() - current,
        {
            assert(tree.node_wf(current as int));
            let count = tree.nodes[current].child_nodes.len();
            let mut visits: Vec<Fixed> = Vec::new();
            let mut k: usize = 0;
            while k < count
                invariant
                    tree.wf(),
                    current < tree.nodes@.len(),
                    count == tree.nodes@[current as int].child_nodes@.len(),
                    k <= count,
                    visits@.len() == k,
                    forall|q: int| 0 <= q < k ==> #[trigger] visits@[q] == tree.child_visits(current as int)[q],
                decreases count - k,
            {
                assert(tree.node_wf(current as int));
                let child = tree.nodes[current].child_nodes[k];
                visits.push(tree.nodes[child].visits);
                k += 1;
            }
            assert(visits@ =~= tree.child_visits(current as int));
            let best = best_index(&visits);
            let next = tree.nodes[current].child_nodes[best];
            let ghost before = line@;
            line.push(tree.nodes[current].moves[best]);
            proof {
                let rest = tree.pv_from(next as int);
                assert(tree.pv_from(current as int) == seq![tree.nodes@[current as int].moves@[best as int]] + rest);
                assert(line@ + rest =~= before + tree.pv_from(current as int));
            }
            current = next;
        }
        proof {
            assert(tree.pv_from(current as int) =~= Seq::<Move>::empty());
            assert(line@ + tree.pv_from(current as int) =~= line@);
        }
        line
    }
}

} // verus!
