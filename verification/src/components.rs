//! The roles that strategy objects play in the search: move selection,
//! playouts, static evaluation, and the hooks that are called when a node is
//! scored, when a playout has ended and when its result is propagated.

use crate::fixed::Fixed;
use crate::formula::Formula;
use crate::mcts::Tree;
use crate::traits::{BarracudaAlgorithm, BarracudaBoard, BarracudaMove, BarracudaParams};
use vstd::prelude::*;

verus! {

/// Chooses one of the legal moves of a position.
pub trait Policy<
    Board: BarracudaBoard<Params, Move>,
    Params: BarracudaParams,
    Move: BarracudaMove,
>: BarracudaAlgorithm + Sized {
    /// Whether the policy `before`, asked to choose among the legal moves of
    /// `position`, may give `index` and be `after` from then on.
    spec fn picks(before: Self, position: Board::V, index: usize, after: Self) -> bool;

    /// The index in `moves` of the chosen move.
    fn pick(&mut self, board: &Board, moves: &[Move]) -> (index: usize)
        requires
            Board::valid(board@),
            moves@ == Board::legal_moves(board@),
            moves@.len() > 0,
        ensures
            index < moves@.len(),
            Self::picks(*old(self), board@, index, *final(self)),
    ;
}

/// Estimates how likely the side to move is to win a position: 0 for a sure
/// loss, 1 for a sure win.
pub trait Simulation<
    Board: BarracudaBoard<Params, Move>,
    Params: BarracudaParams,
    Move: BarracudaMove,
>: BarracudaAlgorithm + Sized {
    /// Whether the simulation `before`, asked about `position`, may give
    /// `estimate` and be `after` from then on.
    spec fn estimates(before: Self, position: Board::V, estimate: Fixed, after: Self) -> bool;

    /// The estimate for `board`.
    fn simulate(&mut self, board: &Board) -> (estimate: Fixed)
        requires
            Board::valid(board@),
        ensures
            Self::estimates(*old(self), board@, estimate, *final(self)),
    ;
}

/// Scores a position for the side to move without playing it out.
pub trait StaticEval<
    Board: BarracudaBoard<Params, Move>,
    Params: BarracudaParams,
    Move: BarracudaMove,
>: BarracudaAlgorithm + Sized {
    /// Whether the evaluation `before`, asked about `position`, may give
    /// `score` and be `after` from then on.
    spec fn answers(before: Self, position: Board::V, score: Fixed, after: Self) -> bool;

    /// The score of `board`.
    fn evaluate(&mut self, board: &Board) -> (score: Fixed)
        requires
            Board::valid(board@),
        ensures
            Self::answers(*old(self), board@, score, *final(self)),
    ;
}

/// Called for every node on the way back from a playout, before the node's
/// own statistics are updated. It may write the registers of the tree's nodes
/// and nothing else of the tree.
pub trait Backprop<
    Board: BarracudaBoard<Params, Move>,
    Params: BarracudaParams,
    Move: BarracudaMove,
    const DATA_REGISTERS: usize,
>: BarracudaAlgorithm {
    /// `node` is about to receive `score`.
    fn backprop(
        &mut self,
        tree: &mut Tree<Board, Params, Move, DATA_REGISTERS>,
        node: usize,
        score: Fixed,
    )
        requires
            old(tree).wf(),
            node < old(tree).nodes@.len(),
        ensures
            final(tree).same_structure(*old(tree)),
    ;
}

/// Called for every child that is scored during selection, just before the
/// scoring expression is read. It may write the registers of the tree's nodes
/// and nothing else of the tree.
pub trait BarracudaUcbParams<
    Board: BarracudaBoard<Params, Move>,
    Params: BarracudaParams,
    Move: BarracudaMove,
    const DATA_REGISTERS: usize,
> {
    /// `node`, reached by `last_move`, is about to be scored.
    fn set_node(
        &mut self,
        tree: &mut Tree<Board, Params, Move, DATA_REGISTERS>,
        node: usize,
        last_move: &Move,
    )
        requires
            old(tree).wf(),
            node < old(tree).nodes@.len(),
        ensures
            final(tree).same_structure(*old(tree)),
    ;
}

/// Called once after every playout with the node it started from. It may
/// write the registers of the tree's nodes and nothing else of the tree.
pub trait BarracudaSimulationParams<
    Board: BarracudaBoard<Params, Move>,
    Params: BarracudaParams,
    Move: BarracudaMove,
    const DATA_REGISTERS: usize,
> {
    /// The playout from `node`, reached by `last_move`, gave `eval`.
    fn set_node(
        &mut self,
        tree: &mut Tree<Board, Params, Move, DATA_REGISTERS>,
        node: usize,
        last_move: &Move,
        eval: Fixed,
    )
        requires
            old(tree).wf(),
            node < old(tree).nodes@.len(),
        ensures
            final(tree).same_structure(*old(tree)),
    ;
}

/// The expression by which the children of a node are ranked.
pub struct Ucb<F> {
    pub formula: F,
}

impl<F> Ucb<F> {
    /// Ranks by `formula`.
    pub fn new(formula: F) -> (ucb: Self)
        ensures
            ucb.formula == formula,
    {
        Self { formula }
    }

    /// The value that the expression gives `node`, reached by `last_move`.
    pub fn ucb<
        Board: BarracudaBoard<Params, Move>,
        Params: BarracudaParams,
        Move: BarracudaMove,
        const DATA_REGISTERS: usize,
    >(&self, tree: &Tree<Board, Params, Move, DATA_REGISTERS>, node: usize, last_move: &Move) -> (score: Fixed) where
        F: Formula<Board, Params, Move, DATA_REGISTERS>,

        requires
            tree.wf(),
            node < tree.nodes@.len(),
        ensures
            score == self.formula.value(*tree, node, *last_move),
    {
        self.formula.get(tree, node, last_move)
    }
}

} // verus!
