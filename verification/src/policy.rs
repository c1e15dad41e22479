//! Move selection: uniformly at random, or at random with weights.

use crate::components::{Policy, StaticEval};
use crate::fixed::{difference_raw, Fixed};
use crate::rng::{random_below, random_index};
use crate::traits::{BarracudaAlgorithm, BarracudaBoard, BarracudaMove, BarracudaParams};
use std::marker::PhantomData;
use vstd::prelude::*;

verus! {

/// Picks every move with the same probability.
pub struct Uniform;

impl Uniform {
    /// The policy.
    pub fn new() -> Self {
        Self {  }
    }
}

impl BarracudaAlgorithm for Uniform {

}

impl<
    Board: BarracudaBoard<Params, Move>,
    Params: BarracudaParams,
    Move: BarracudaMove,
> Policy<Board, Params, Move> for Uniform {
    open spec fn picks(before: Self, position: Board::V, index: usize, after: Self) -> bool {
        index < Board::legal_moves(position).len()
    }

    fn pick(&mut self, board: &Board, moves: &[Move]) -> (index: usize) {
        random_index(moves.len())
    }
}

/// The sum of the first `k` weights.
pub open spec fn weight_upto(weights: Seq<u64>, k: nat) -> nat
    decreases k,
{
    if k == 0 {
        0
    } else {
        weight_upto(weights, (k - 1) as nat) + weights[k - 1] as nat
    }
}

/// The least of the first `k` scores; the largest number where `k` is 0.
pub open spec fn least_upto(scores: Seq<Fixed>, k: nat) -> int
    decreases k,
{
    if k == 0 {
        i64::MAX as int
    } else {
        let before = least_upto(scores, (k - 1) as nat);
        if scores[k - 1]@ < before {
            scores[k - 1]@
        } else {
            before
        }
    }
}

/// The sums of the weights grow with the number of weights, by at most the
/// largest weight each.
pub proof fn lemma_weight_upto(weights: Seq<u64>, a: nat, b: nat)
    requires
        a <= b <= weights.len(),
    ensures
        weight_upto(weights, a) <= weight_upto(weights, b),
        weight_upto(weights, b) <= b * u64::MAX,
    decreases b,
{
    if b > 0 {
        if a < b {
            lemma_weight_upto(weights, a, (b - 1) as nat);
        } else {
            lemma_weight_upto(weights, (a - 1) as nat, (b - 1) as nat);
        }
        assert((b - 1) * u64::MAX + u64::MAX == b * u64::MAX) by (nonlinear_arith);
    } else {
        assert(b * u64::MAX == 0) by (nonlinear_arith)
            requires
                b == 0,
        ;
    }
}

/// The scores, each less the least of them.
pub fn shift_by_min(scores: &Vec<Fixed>) -> (shifted: Vec<Fixed>)
    ensures
        shifted@.len() == scores@.len(),
        forall|k: int|
            0 <= k < scores@.len() ==> (#[trigger] shifted@[k])@ == difference_raw(
                scores@[k]@,
                least_upto(scores@, scores@.len()),
            ),
{
    let mut min = Fixed::max_value();
    let mut k: usize = 0;
    while k < scores.len()
        invariant
            k <= scores@.len(),
            min@ == least_upto(scores@, k as nat),
        decreases scores@.len() - k,
    {
        if scores[k].lt(min) {
            min = scores[k];
        }
        k += 1;
    }
    let mut shifted: Vec<Fixed> = Vec::new();
    let mut k: usize = 0;
    while k < scores.len()
        invariant
            k <= scores@.len(),
            min@ == least_upto(scores@, scores@.len()),
            shifted@.len() == k,
            forall|j: int|
                0 <= j < k ==> (#[trigger] shifted@[j])@ == difference_raw(scores@[j]@, min@),
        decreases scores@.len() - k,
    {
        shifted.push(scores[k].minus(min));
        k += 1;
    }
    shifted
}

/// The index that `draw` falls on when the weights are laid end to end: the
/// first index up to which the weights sum to more than `draw`, or the last
/// index where there is none. Of the draws below the sum of the weights, each
/// index takes as many as its weight.
pub fn walk(weights: &Vec<u64>, draw: u128) -> (index: usize)
    requires
        weights@.len() > 0,
    ensures
        index < weights@.len(),
        index == 0 || weight_upto(weights@, index as nat) <= draw,
        index == weights@.len() - 1 || draw < weight_upto(weights@, (index + 1) as nat),
        draw < weight_upto(weights@, weights@.len()) ==> weight_upto(weights@, index as nat)
            <= draw < weight_upto(weights@, index as nat) + weights@[index as int],
{
    let mut index: usize = 0;
    let mut sum: u128 = weights[0] as u128;
    proof {
        lemma_weight_upto(weights@, 0, 1);
        assert(weight_upto(weights@, 0) == 0);
    }
    while index < weights.len() - 1 && sum <= draw
        invariant
            index < weights@.len(),
            sum == weight_upto(weights@, (index + 1) as nat),
            index > 0 ==> weight_upto(weights@, index as nat) <= draw,
        decreases weights@.len() - index,
    {
        index += 1;
        proof {
            lemma_weight_upto(weights@, index as nat, (index + 1) as nat);
            assert((index + 1) * u64::MAX <= usize::MAX * u64::MAX) by (nonlinear_arith)
                requires
                    index + 1 <= usize::MAX,
            ;
            assert(usize::MAX * u64::MAX <= u128::MAX) by (nonlinear_arith)
                requires
                    usize::MAX <= 0xffff_ffff_ffff_ffff,
                    u64::MAX == 0xffff_ffff_ffff_ffff,
                    u128::MAX == 0xffff_ffff_ffff_ffff_ffff_ffff_ffff_ffff,
            ;
        }
        sum = sum + weights[index] as u128;
    }
    index
}

/// The sum of the weights.
pub fn total_weight(weights: &Vec<u64>) -> (total: u128)
    ensures
        total == weight_upto(weights@, weights@.len()),
{
    let mut total: u128 = 0;
    let mut k: usize = 0;
    while k < weights.len()
        invariant
            k <= weights@.len(),
            total == weight_upto(weights@, k as nat),
        decreases weights@.len() - k,
    {
        proof {
            lemma_weight_upto(weights@, k as nat, (k + 1) as nat);
            assert((k + 1) * u64::MAX <= usize::MAX * u64::MAX) by (nonlinear_arith)
                requires
                    k + 1 <= usize::MAX,
            ;
            assert(usize::MAX * u64::MAX <= u128::MAX) by (nonlinear_arith)
                requires
                    usize::MAX <= 0xffff_ffff_ffff_ffff,
                    u64::MAX == 0xffff_ffff_ffff_ffff,
                    u128::MAX == 0xffff_ffff_ffff_ffff_ffff_ffff_ffff_ffff,
            ;
        }
        total = total + weights[k] as u128;
        k += 1;
    }
    total
}

/// Draws an index with a probability in proportion to its weight: a number
/// below the sum of the weights is drawn and walked to. Where all weights are
/// 0 the first index is returned.
pub fn sample(weights: &Vec<u64>) -> (index: usize)
    requires
        weights@.len() > 0,
    ensures
        index < weights@.len(),
        weight_upto(weights@, weights@.len()) > 0 ==> weights@[index as int] > 0,
        weight_upto(weights@, weights@.len()) == 0 ==> index == 0,
{
    let total = total_weight(weights);
    if total == 0 {
        return 0;
    }
    let draw = random_below(total);
    let index = walk(weights, draw);
    proof {
        assert(weight_upto(weights@, (index + 1) as nat) == weight_upto(weights@, index as nat)
            + weights@[index as int]);
        if index > 0 {
            assert(weight_upto(weights@, index as nat) <= draw);
        }
    }
    index
}

/// Whether `scores` are the answers of an evaluation that was asked about the
/// positions that `moves` lead to from `position`, one after the other, and
/// went through `states` meanwhile.
pub open spec fn answered<
    Board: BarracudaBoard<Params, Move>,
    Params: BarracudaParams,
    Move: BarracudaMove,
    E: StaticEval<Board, Params, Move>,
>(states: Seq<E>, position: Board::V, moves: Seq<Move>, scores: Seq<Fixed>) -> bool {
    &&& states.len() == moves.len() + 1
    &&& scores.len() == moves.len()
    &&& forall|k: int|
        0 <= k < moves.len() ==> E::answers(
            states[k],
            Board::play(position, moves[k]),
            #[trigger] scores[k],
            states[k + 1],
        )
}

/// Scores every move by a static evaluation of the position it leads to.
/// From these scores, each less the least of them, the caller takes the
/// weights with which a move is drawn.
pub struct Softmax<
    Board: BarracudaBoard<Params, Move>,
    Params: BarracudaParams,
    Move: BarracudaMove,
    E: StaticEval<Board, Params, Move>,
> {
    eval: E,
    p: PhantomData<(Board, Params, Move)>,
}

impl<
    Board: BarracudaBoard<Params, Move>,
    Params: BarracudaParams,
    Move: BarracudaMove,
    E: StaticEval<Board, Params, Move>,
> BarracudaAlgorithm for Softmax<Board, Params, Move, E> {

}

impl<
    Board: BarracudaBoard<Params, Move>,
    Params: BarracudaParams,
    Move: BarracudaMove,
    E: StaticEval<Board, Params, Move>,
> Softmax<Board, Params, Move, E> {
    /// The evaluation that scores.
    pub closed spec fn evaluator(self) -> E {
        self.eval
    }

    /// Scores by `static_eval`.
    pub fn new(static_eval: E) -> (softmax: Self)
        ensures
            softmax.evaluator() == static_eval,
    {
        Self { eval: static_eval, p: PhantomData }
    }

    /// One score for each of `moves`: the answer of the evaluation for the
    /// position that the move leads to. The moves are asked about in order.
    pub fn scores(&mut self, board: &Board, moves: &[Move]) -> (scores: Vec<Fixed>)
        requires
            Board::valid(board@),
            moves@ == Board::legal_moves(board@),
        ensures
            scores@.len() == moves@.len(),
            exists|states: Seq<E>|
                #[trigger] answered::<Board, Params, Move, E>(states, board@, moves@, scores@)
                    && states[0] == old(self).evaluator() && states.last() == final(self).evaluator(),
    {
        let mut scores: Vec<Fixed> = Vec::new();
        let mut k: usize = 0;
        let ghost mut states: Seq<E> = seq![self.eval];
        while k < moves.len()
            invariant
                Board::valid(board@),
                moves@ == Board::legal_moves(board@),
                k <= moves@.len(),
                scores@.len() == k,
                states.len() == k + 1,
                states[0] == old(self).evaluator(),
                states.last() == self.evaluator(),
                forall|j: int|
                    0 <= j < k ==> E::answers(
                        states[j],
                        Board::play(board@, moves@[j]),
                        #[trigger] scores@[j],
                        states[j + 1],
                    ),
            decreases moves@.len() - k,
        {
            let mv = moves[k];
            let mut next = board.duplicate();
            proof {
                assert(moves@.contains(mv));
                Board::enumeration_is_exact(board@, mv);
            }
            next.make_move(mv);
            let ghost entered = scores@;
            let ghost before = states;
            let score = self.eval.evaluate(&next);
            scores.push(score);
            proof {
                states = states.push(self.eval);
                assert forall|j: int| 0 <= j < k + 1 implies E::answers(
                    states[j],
                    Board::play(board@, moves@[j]),
                    #[trigger] scores@[j],
                    states[j + 1],
                ) by {
                    if j < k {
                        assert(scores@[j] == entered[j]);
                        assert(states[j] == before[j]);
                        assert(states[j + 1] == before[j + 1]);
                    }
                }
            }
            k += 1;
        }
        assert(answered::<Board, Params, Move, E>(states, board@, moves@, scores@));
        scores
    }
}

} // verus!
