//! Estimates of a position: by a static evaluation, or by playing the game
//! on with moves that a policy picks.

use crate::components::{Policy, Simulation, StaticEval};
use crate::fixed::{Fixed, SCALE};
use crate::mcts::{outcome, outcome_raw};
use crate::traits::{
    legal_line, replayed, BarracudaAlgorithm, BarracudaBoard, BarracudaMove, BarracudaParams,
    GameState,
};
use std::marker::PhantomData;
use vstd::prelude::*;

verus! {

/// Estimates a position by its static evaluation.
pub struct Evaluate<
    Board: BarracudaBoard<Params, Move>,
    Params: BarracudaParams,
    Move: BarracudaMove,
    E: StaticEval<Board, Params, Move>,
> {
    static_eval: E,
    p: PhantomData<(Board, Params, Move)>,
}

impl<
    Board: BarracudaBoard<Params, Move>,
    Params: BarracudaParams,
    Move: BarracudaMove,
    E: StaticEval<Board, Params, Move>,
> BarracudaAlgorithm for Evaluate<Board, Params, Move, E> {

}

impl<
    Board: BarracudaBoard<Params, Move>,
    Params: BarracudaParams,
    Move: BarracudaMove,
    E: StaticEval<Board, Params, Move>,
> Evaluate<Board, Params, Move, E> {
    /// The evaluation that estimates.
    pub closed spec fn evaluator(self) -> E {
        self.static_eval
    }

    /// Estimates by `static_eval`.
    pub fn new(static_eval: E) -> (simulation: Self)
        ensures
            simulation.evaluator() == static_eval,
    {
        Self { static_eval, p: PhantomData }
    }
}

impl<
    Board: BarracudaBoard<Params, Move>,
    Params: BarracudaParams,
    Move: BarracudaMove,
    E: StaticEval<Board, Params, Move>,
> Simulation<Board, Params, Move> for Evaluate<Board, Params, Move, E> {
    open spec fn estimates(before: Self, position: Board::V, estimate: Fixed, after: Self) -> bool {
        E::answers(before.evaluator(), position, estimate, after.evaluator())
    }

    fn simulate(&mut self, board: &Board) -> (estimate: Fixed)
        ensures
            E::answers(old(self).evaluator(), board@, estimate, final(self).evaluator()),
    {
        self.static_eval.evaluate(board)
    }
}

/// Whether `line` is a playout from `start` of at most `depth` moves that
/// is worth `estimate`: its moves are legal, it goes on until the game is
/// over, nothing can be played or `depth` moves are made, and the position it
/// ends in is worth `estimate`.
pub open spec fn playout_of<Board: BarracudaBoard<Params, Move>, Params, Move>(
    start: Board::V,
    line: Seq<Move>,
    depth: usize,
    estimate: Fixed,
) -> bool {
    let end = replayed::<Board, Params, Move>(start, line);
    &&& legal_line::<Board, Params, Move>(start, line)
    &&& line.len() <= depth
    &&& (line.len() == depth || Board::state_of(end) != GameState::Ongoing || Board::legal_moves(
        end,
    ).len() == 0)
    &&& forall|k: int|
        0 <= k < line.len() ==> Board::state_of(
            #[trigger] replayed::<Board, Params, Move>(start, line.take(k)),
        ) == GameState::Ongoing
    &&& estimate@ == outcome_raw(Board::state_of(end))
}

/// Estimates a position by playing on from it, move by move as a policy
/// picks, until the game is over, nothing can be played, or a number of moves
/// was made; the position reached decides.
pub struct RandomPlayout<
    Board: BarracudaBoard<Params, Move>,
    Params: BarracudaParams,
    Move: BarracudaMove,
    Pol: Policy<Board, Params, Move>,
> {
    depth: usize,
    policy: Pol,
    p: PhantomData<(Board, Params, Move)>,
}

impl<
    Board: BarracudaBoard<Params, Move>,
    Params: BarracudaParams,
    Move: BarracudaMove,
    Pol: Policy<Board, Params, Move>,
> BarracudaAlgorithm for RandomPlayout<Board, Params, Move, Pol> {

}

impl<
    Board: BarracudaBoard<Params, Move>,
    Params: BarracudaParams,
    Move: BarracudaMove,
    Pol: Policy<Board, Params, Move>,
> RandomPlayout<Board, Params, Move, Pol> {
    /// The largest number of moves of a playout.
    pub closed spec fn depth(self) -> usize {
        self.depth
    }

    /// The policy that picks the moves of a playout.
    pub closed spec fn policy(self) -> Pol {
        self.policy
    }

    /// Playouts of at most `depth` moves, picked by `policy`.
    pub fn new(depth: usize, policy: Pol) -> (playout: Self)
        ensures
            playout.depth() == depth,
            playout.policy() == policy,
    {
        Self { depth, policy, p: PhantomData }
    }

    /// What the position is worth as it stands: 1 where the first side has
    /// won, 0 where the second has, one half otherwise.
    pub fn eval(&mut self, board: &Board) -> (worth: Fixed)
        requires
            Board::valid(board@),
        ensures
            worth@ == outcome_raw(Board::state_of(board@)),
            final(self).depth() == old(self).depth(),
    {
        outcome(board.game_state())
    }
}

impl<
    Board: BarracudaBoard<Params, Move>,
    Params: BarracudaParams,
    Move: BarracudaMove,
    Pol: Policy<Board, Params, Move>,
> Simulation<Board, Params, Move> for RandomPlayout<Board, Params, Move, Pol> {
    open spec fn estimates(before: Self, position: Board::V, estimate: Fixed, after: Self) -> bool {
        after.depth() == before.depth() && exists|line: Seq<Move>|
            playout_of::<Board, Params, Move>(position, line, before.depth(), estimate)
    }

    fn simulate(&mut self, board: &Board) -> (estimate: Fixed)
        ensures
            final(self).depth() == old(self).depth(),
            exists|line: Seq<Move>|
                playout_of::<Board, Params, Move>(board@, line, old(self).depth(), estimate),
    {
        let mut depth: usize = 0;
        let mut current = board.duplicate();
        let ghost mut line: Seq<Move> = Seq::empty();
        loop
            invariant
                Board::valid(current@),
                self.depth() == old(self).depth(),
                depth <= self.depth(),
                line.len() == depth,
                legal_line::<Board, Params, Move>(board@, line),
                current@ == replayed::<Board, Params, Move>(board@, line),
                forall|k: int|
                    0 <= k < line.len() ==> Board::state_of(
                        #[trigger] replayed::<Board, Params, Move>(board@, line.take(k)),
                    ) == GameState::Ongoing,
            ensures
                Board::valid(current@),
                self.depth() == old(self).depth(),
                line.len() <= self.depth(),
                legal_line::<Board, Params, Move>(board@, line),
                current@ == replayed::<Board, Params, Move>(board@, line),
                line.len() == self.depth() || Board::state_of(current@) != GameState::Ongoing
                    || Board::legal_moves(current@).len() == 0,
                forall|k: int|
                    0 <= k < line.len() ==> Board::state_of(
                        #[trigger] replayed::<Board, Params, Move>(board@, line.take(k)),
                    ) == GameState::Ongoing,
            decreases self.depth() - depth,
        {
            if depth >= self.depth {
                break ;
            }
            let state = current.game_state();
            match state {
                GameState::Ongoing => {},
                GameState::End(_) => {
                    break ;
                },
            }
            let moves = current.get_moves();
            if moves.len() == 0 {
                break ;
            }
            let index = self.policy.pick(&current, moves.as_slice());
            proof {
                let mv = moves@[index as int];
                assert(moves@.contains(mv));
                Board::enumeration_is_exact(current@, mv);
                let longer = line.push(mv);
                assert(longer.drop_last() =~= line);
                assert forall|k: int| 0 <= k < longer.len() implies Board::state_of(
                    #[trigger] replayed::<Board, Params, Move>(board@, longer.take(k)),
                ) == GameState::Ongoing by {
                    if k < line.len() {
                        assert(longer.take(k) =~= line.take(k));
                    } else {
                        assert(longer.take(k) =~= line);
                    }
                }
                line = longer;
            }
            current.make_move(moves[index]);
            depth += 1;
        }
        let estimate = self.eval(&current);
        assert(playout_of::<Board, Params, Move>(board@, line, old(self).depth(), estimate));
        estimate
    }
}

/// The estimate of a playout is 0, one half or 1.
pub proof fn lemma_playout_estimates<
    Board: BarracudaBoard<Params, Move>,
    Params: BarracudaParams,
    Move: BarracudaMove,
    Pol: Policy<Board, Params, Move>,
>(
    before: RandomPlayout<Board, Params, Move, Pol>,
    position: Board::V,
    estimate: Fixed,
    after: RandomPlayout<Board, Params, Move, Pol>,
)
    requires
        RandomPlayout::<Board, Params, Move, Pol>::estimates(before, position, estimate, after),
    ensures
        estimate@ == 0 || estimate@ == SCALE / 2 || estimate@ == SCALE,
{
    let line = choose|line: Seq<Move>|
        playout_of::<Board, Params, Move>(position, line, before.depth(), estimate);
}

} // verus!
