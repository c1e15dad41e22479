//! The runner: it owns the board that is played on and the search tree of
//! its position, runs the search and commits moves.

use crate::components::{
    Backprop, BarracudaSimulationParams, BarracudaUcbParams, Policy, Simulation,
};
use crate::fixed::{sum_raw, SCALE};
use crate::formula::Formula;
use crate::mcts::{BarracudaAlgorithms, Node, Tree};
use crate::traits::{replayed, BarracudaBoard, BarracudaMove, BarracudaParams, GameState};
use std::marker::PhantomData;
use vstd::prelude::*;

verus! {

/// A visit count after `n` more visits.
pub open spec fn visits_after(visits: int, n: nat) -> int
    decreases n,
{
    if n == 0 {
        visits
    } else {
        sum_raw(visits_after(visits, (n - 1) as nat), SCALE as int)
    }
}

/// A game in progress with the search tree of its current position.
pub struct BarracudaRunner<
    Board: BarracudaBoard<Params, Move>,
    Params: BarracudaParams,
    Move: BarracudaMove,
    U: BarracudaUcbParams<Board, Params, Move, DATA_REGISTERS>,
    F: Formula<Board, Params, Move, DATA_REGISTERS>,
    Pol: Policy<Board, Params, Move>,
    SP: BarracudaSimulationParams<Board, Params, Move, DATA_REGISTERS>,
    Sim: Simulation<Board, Params, Move>,
    BP: Backprop<Board, Params, Move, DATA_REGISTERS>,
    const DATA_REGISTERS: usize,
> {
    pub tree: Tree<Board, Params, Move, DATA_REGISTERS>,
    pub algorithms: BarracudaAlgorithms<U, F, Pol, SP, Sim, BP>,
    pub board: Board,
    pub params: PhantomData<Params>,
}

impl<
    Board: BarracudaBoard<Params, Move>,
    Params: BarracudaParams,
    Move: BarracudaMove,
    U: BarracudaUcbParams<Board, Params, Move, DATA_REGISTERS>,
    F: Formula<Board, Params, Move, DATA_REGISTERS>,
    Pol: Policy<Board, Params, Move>,
    SP: BarracudaSimulationParams<Board, Params, Move, DATA_REGISTERS>,
    Sim: Simulation<Board, Params, Move>,
    BP: Backprop<Board, Params, Move, DATA_REGISTERS>,
    const DATA_REGISTERS: usize,
> BarracudaRunner<Board, Params, Move, U, F, Pol, SP, Sim, BP, DATA_REGISTERS> {
    /// The tree is well formed and its root holds the position of the board.
    pub open spec fn wf(self) -> bool {
        &&& self.tree.wf()
        &&& Board::valid(self.board@)
        &&& self.tree.nodes@[0].board@ == self.board@
    }

    /// The tree is a single root that has not been visited or expanded, with
    /// registers of 0.
    pub open spec fn fresh(self) -> bool {
        &&& self.tree.nodes@.len() == 1
        &&& self.tree.nodes@[0].parent.is_none()
        &&& self.tree.nodes@[0].moves@.len() == 0
        &&& self.tree.nodes@[0].child_nodes@.len() == 0
        &&& self.tree.nodes@[0].score@ == 0
        &&& self.tree.nodes@[0].visits@ == 1
        &&& self.tree.nodes@[0].registers@.len() == DATA_REGISTERS
        &&& forall|k: int|
            0 <= k < DATA_REGISTERS ==> (#[trigger] self.tree.nodes@[0].registers@[k])@ == 0
    }

    /// The runner is `before` after `mv` was committed: the board holds the
    /// position that the move leads to, and the tree is a fresh root for it.
    pub open spec fn committed(self, before: Self, mv: Move) -> bool {
        &&& self.wf()
        &&& self.fresh()
        &&& self.board@ == Board::play(before.board@, mv)
    }

    /// A tree of the single vertex `board`.
    fn root_of(board: Board) -> (tree: Tree<Board, Params, Move, DATA_REGISTERS>)
        requires
            Board::valid(board@),
        ensures
            tree.wf(),
            tree.nodes@.len() == 1,
            tree.nodes@[0].board@ == board@,
            tree.nodes@[0].parent.is_none(),
            tree.nodes@[0].moves@.len() == 0,
            tree.nodes@[0].child_nodes@.len() == 0,
            tree.nodes@[0].score@ == 0,
            tree.nodes@[0].visits@ == 1,
            tree.nodes@[0].registers@.len() == DATA_REGISTERS,
            forall|k: int|
                0 <= k < DATA_REGISTERS ==> (#[trigger] tree.nodes@[0].registers@[k])@ == 0,
    {
        let mut nodes: Vec<Node<Board, Params, Move, DATA_REGISTERS>> = Vec::new();
        nodes.push(Node::new(board, None));
        let tree = Tree { nodes };
        assert(tree.node_wf(0));
        tree
    }

    /// A runner at the starting position.
    pub fn new(algorithms: BarracudaAlgorithms<U, F, Pol, SP, Sim, BP>, params: Params) -> (runner:
        Self)
        requires
            Board::accepts(params),
        ensures
            runner.wf(),
            runner.fresh(),
            runner.board@ == Board::initial(params),
            runner.algorithms == algorithms,
    {
        let board = Board::new(params);
        let tree = Self::root_of(board.duplicate());
        Self { tree, algorithms, board, params: PhantomData }
    }

    /// Runs `iterations` whole iterations of the search on the tree, one after
    /// the other. The board stays as it is, and the root has been visited once
    /// more by each iteration. No iteration leaves the tree as it is; one or
    /// more expand the root where the game is running and a move can be made.
    pub fn search(&mut self, iterations: u64)
        requires
            old(self).wf(),
        ensures
            final(self).wf(),
            final(self).board@ == old(self).board@,
            final(self).tree.nodes@.len() >= old(self).tree.nodes@.len(),
            final(self).tree.nodes@[0].visits@ == visits_after(
                old(self).tree.nodes@[0].visits@,
                iterations as nat,
            ),
            final(self).tree.searched_times::<Pol, Sim>(old(self).tree, iterations as nat),
            iterations == 0 ==> final(self).tree == old(self).tree && final(self).algorithms
                == old(self).algorithms,
            iterations > 0 && Board::state_of(old(self).board@) == GameState::Ongoing
                && Board::legal_moves(old(self).board@).len() > 0 ==> final(self).tree.nodes@[0].moves@ == Board::legal_moves(old(self).board@),
    {
        let mut done: u64 = 0;
        while done < iterations
            invariant
                self.wf(),
                done <= iterations,
                self.board@ == old(self).board@,
                self.tree.nodes@.len() >= old(self).tree.nodes@.len(),
                self.tree.nodes@[0].visits@ == visits_after(
                    old(self).tree.nodes@[0].visits@,
                    done as nat,
                ),
                self.tree.searched_times::<Pol, Sim>(old(self).tree, done as nat),
                done == 0 ==> self.tree == old(self).tree && self.algorithms == old(self).algorithms,
                done > 0 && Board::state_of(old(self).board@) == GameState::Ongoing
                    && Board::legal_moves(old(self).board@).len() > 0
                    ==> self.tree.nodes@[0].moves@ == Board::legal_moves(old(self).board@),
            decreases iterations - done,
        {
            let ghost before = self.tree;
            let ghost policy = self.algorithms.policy;
            let ghost simulation = self.algorithms.simulation;
            let (path, value) = Node::search(&mut self.tree, &mut self.algorithms);
            proof {
                assert(path@[0] == 0);
                assert(self.tree.nodes@[path@[0] as int].visits@ == sum_raw(
                    before.prior_visits(0),
                    SCALE as int,
                ));
                assert(self.tree.iteration_of(
                    before,
                    path@,
                    value,
                    (policy, self.algorithms.policy),
                    (simulation, self.algorithms.simulation),
                ));
                assert(self.tree.searched_times::<Pol, Sim>(old(self).tree, (done + 1) as nat));
                if Board::state_of(old(self).board@) == GameState::Ongoing && Board::legal_moves(
                    old(self).board@,
                ).len() > 0 {
                    self.tree.lemma_root_expanded::<Pol, Sim>(
                        before,
                        path@,
                        value,
                        (policy, self.algorithms.policy),
                        (simulation, self.algorithms.simulation),
                    );
                }
            }
            done += 1;
        }
    }

    /// Plays `mv` on the board and starts a new tree at the position
    /// reached: nothing of the old tree is kept.
    pub fn make_move(&mut self, mv: Move)
        requires
            old(self).wf(),
            Board::legal(old(self).board@, mv),
        ensures
            final(self).committed(*old(self), mv),
            final(self).algorithms == old(self).algorithms,
    {
        self.board.make_move(mv);
        self.tree = Self::root_of(self.board.duplicate());
    }

    /// The first move of the principal variation, which has one once the
    /// root is expanded: the move to the first most-visited child of the
    /// root, a legal move on the board.
    pub fn best_move(&self) -> (mv: Move)
        requires
            self.wf(),
            self.tree.nodes@[0].moves@.len() > 0,
        ensures
            mv == self.tree.pv_from(0)[0],
            Board::legal(self.board@, mv),
    {
        let line = Node::pv(&self.tree, 0);
        proof {
            assert(self.tree.node_wf(0));
            let visits = self.tree.child_visits(0);
            crate::mcts::lemma_first_max(visits);
            let k = crate::mcts::first_max(visits);
            let c = self.tree.nodes@[0].child_nodes@[k];
            assert(self.tree.pv_from(0) == seq![self.tree.nodes@[0].moves@[k]] + self.tree.pv_from(
                c as int,
            ));
            let mv = self.tree.nodes@[0].moves@[k];
            assert(self.tree.nodes@[0].moves@.contains(mv));
            Board::enumeration_is_exact(self.board@, mv);
        }
        line[0]
    }

    /// Puts `board` in place of the board and starts a new tree at its
    /// position.
    pub fn set_board(&mut self, board: Board)
        requires
            Board::valid(board@),
        ensures
            final(self).wf(),
            final(self).fresh(),
            final(self).board@ == board@,
            final(self).algorithms == old(self).algorithms,
    {
        self.tree = Self::root_of(board.duplicate());
        self.board = board;
    }

    /// Committing a move puts at the root the position that playing the move
    /// sequence from the start leads to: where the board stood for the moves
    /// `played` from `start`, the new root stands for `played` followed by
    /// `mv`.
    pub proof fn lemma_commit_replays(self, before: Self, start: Board::V, played: Seq<Move>, mv: Move)
        requires
            before.board@ == replayed::<Board, Params, Move>(start, played),
            self.committed(before, mv),
        ensures
            self.tree.nodes@[0].board@ == replayed::<Board, Params, Move>(start, played.push(mv)),
            self.board@ == replayed::<Board, Params, Move>(start, played.push(mv)),
    {
        assert(played.push(mv).drop_last() =~= played);
    }
}

/// Whether a search with a budget goes on: the budget is looked at between
/// whole iterations, and the search goes on while less time has passed than
/// was given.
pub fn goes_on(elapsed_ms: u64, budget_ms: u64) -> (go: bool)
    ensures
        go == (elapsed_ms < budget_ms),
{
    elapsed_ms < budget_ms
}

/// Whether a report is due: more time has passed than the time of the next
/// report.
pub fn report_due(elapsed_ms: u64, next_report_ms: u64) -> (due: bool)
    ensures
        due == (elapsed_ms > next_report_ms),
{
    elapsed_ms > next_report_ms
}

/// The time of the report after one made at `elapsed_ms`: one interval
/// later, or never where that is past the end of time.
pub fn next_report(elapsed_ms: u64, interval_ms: u64) -> (next: u64)
    ensures
        next == if elapsed_ms + interval_ms > u64::MAX {
            u64::MAX as int
        } else {
            elapsed_ms + interval_ms
        },
{
    if elapsed_ms > u64::MAX - interval_ms {
        u64::MAX
    } else {
        elapsed_ms + interval_ms
    }
}

} // verus!
