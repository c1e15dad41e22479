//! The terms of a scoring expression that are read off the scored node: its
//! mean outcome, the exploration bonus, noise, and a cached static evaluation.

use crate::components::{BarracudaUcbParams, StaticEval};
use crate::fixed::{difference_raw, product_raw, ratio_raw, Fixed, SCALE};
use crate::formula::{Event, Formula};
use crate::mcts::Tree;
use crate::rng::random_below;
use crate::traits::{BarracudaBoard, BarracudaMove, BarracudaParams};
use std::marker::PhantomData;
use vstd::prelude::*;

verus! {

/// One minus the mean outcome of the scored node.
pub struct Value;

impl Value {
    /// The term.
    pub fn new() -> Self {
        Self {  }
    }
}

impl<
    Board: BarracudaBoard<Params, Move>,
    Params: BarracudaParams,
    Move: BarracudaMove,
    const DATA_REGISTERS: usize,
> Formula<Board, Params, Move, DATA_REGISTERS> for Value {
    open spec fn value(&self, tree: Tree<Board, Params, Move, DATA_REGISTERS>, node: usize, last_move: Move) -> Fixed {
        Fixed {
            raw: difference_raw(
                SCALE as int,
                ratio_raw(tree.nodes@[node as int].score@, tree.nodes@[node as int].visits@),
            ) as i64,
        }
    }

    open spec fn told(
        before: Self,
        tree: Tree<Board, Params, Move, DATA_REGISTERS>,
        event: Event<Move>,
        after: Self,
        tree_after: Tree<Board, Params, Move, DATA_REGISTERS>,
    ) -> bool {
        after == before && tree_after == tree
    }

    open spec fn plain(&self) -> bool {
        true
    }

    fn get(&self, tree: &Tree<Board, Params, Move, DATA_REGISTERS>, node: usize, last_move: &Move) -> (r: Fixed) {
        let state = &tree.nodes[node];
        Fixed::one().minus(state.score.divided_by(state.visits))
    }

    fn on_score(&mut self, tree: &mut Tree<Board, Params, Move, DATA_REGISTERS>, node: usize, last_move: &Move) {
    }

    fn on_playout(
        &mut self,
        tree: &mut Tree<Board, Params, Move, DATA_REGISTERS>,
        node: usize,
        last_move: &Move,
        eval: Fixed,
    ) {
    }

    fn on_backprop(&mut self, tree: &mut Tree<Board, Params, Move, DATA_REGISTERS>, node: usize, score: Fixed) {
    }
}

/// The exploration bonus: the temperature times the root of the logarithm of
/// the parent's visits over the node's own visits. The root is taken outside
/// this library; here are the numbers it is taken of and what is made of it.
pub struct Exploration {
    temperature: Fixed,
    exploration: Fixed,
}

impl Exploration {
    /// The factor of the bonus.
    pub closed spec fn temperature(self) -> Fixed {
        self.temperature
    }

    /// The bonus that was set last.
    pub closed spec fn staged(self) -> Fixed {
        self.exploration
    }

    /// The term with the given temperature, with the value 0 until a node is
    /// scored.
    pub fn new(temperature: Fixed) -> (term: Self)
        ensures
            term.temperature() == temperature,
            term.staged()@ == 0,
    {
        Self { exploration: Fixed::zero(), temperature }
    }

    /// The visits of the parent of `node` and of `node` itself; `None` where
    /// `node` has no parent.
    pub fn visits_of<
        Board: BarracudaBoard<Params, Move>,
        Params: BarracudaParams,
        Move: BarracudaMove,
        const DATA_REGISTERS: usize,
    >(tree: &Tree<Board, Params, Move, DATA_REGISTERS>, node: usize) -> (visits: Option<
        (Fixed, Fixed),
    >)
        requires
            tree.wf(),
            node < tree.nodes@.len(),
        ensures
            visits == match tree.nodes@[node as int].parent {
                Some(parent) => Some(
                    (tree.nodes@[parent as int].visits, tree.nodes@[node as int].visits),
                ),
                None => None,
            },
    {
        assert(tree.node_wf(node as int));
        match tree.nodes[node].parent {
            Some(parent) => Some((tree.nodes[parent].visits, tree.nodes[node].visits)),
            None => None,
        }
    }

    /// Sets the value: the temperature times `root`, or 0 where there is no
    /// root because the node has no parent.
    pub fn stage(&mut self, root: Option<Fixed>)
        ensures
            final(self).temperature() == old(self).temperature(),
            final(self).staged()@ == match root {
                Some(r) => product_raw(old(self).temperature()@, r@),
                None => 0,
            },
    {
        self.exploration = match root {
            Some(r) => self.temperature.times(r),
            None => Fixed::zero(),
        };
    }
}

impl<
    Board: BarracudaBoard<Params, Move>,
    Params: BarracudaParams,
    Move: BarracudaMove,
    const DATA_REGISTERS: usize,
> Formula<Board, Params, Move, DATA_REGISTERS> for Exploration {
    open spec fn value(&self, tree: Tree<Board, Params, Move, DATA_REGISTERS>, node: usize, last_move: Move) -> Fixed {
        self.staged()
    }

    open spec fn told(
        before: Self,
        tree: Tree<Board, Params, Move, DATA_REGISTERS>,
        event: Event<Move>,
        after: Self,
        tree_after: Tree<Board, Params, Move, DATA_REGISTERS>,
    ) -> bool {
        after == before && tree_after == tree
    }

    open spec fn plain(&self) -> bool {
        true
    }

    fn get(&self, tree: &Tree<Board, Params, Move, DATA_REGISTERS>, node: usize, last_move: &Move) -> (r: Fixed) {
        self.exploration
    }

    fn on_score(&mut self, tree: &mut Tree<Board, Params, Move, DATA_REGISTERS>, node: usize, last_move: &Move) {
    }

    fn on_playout(
        &mut self,
        tree: &mut Tree<Board, Params, Move, DATA_REGISTERS>,
        node: usize,
        last_move: &Move,
        eval: Fixed,
    ) {
    }

    fn on_backprop(&mut self, tree: &mut Tree<Board, Params, Move, DATA_REGISTERS>, node: usize, score: Fixed) {
    }
}

/// Noise: a number drawn anew for every node that is scored, at least 0 and
/// below the bound, or 0 where the bound is not positive.
pub struct Random {
    std_dev: Fixed,
    noise: Fixed,
}

impl Random {
    /// The bound of the noise.
    pub closed spec fn std_dev(self) -> Fixed {
        self.std_dev
    }

    /// The noise that was drawn last.
    pub closed spec fn noise(self) -> Fixed {
        self.noise
    }

    /// Noise below `std_dev`, 0 until a node is scored.
    pub fn new(std_dev: Fixed) -> (term: Self)
        ensures
            term.std_dev() == std_dev,
            term.noise()@ == 0,
    {
        Self { std_dev, noise: Fixed::zero() }
    }

    /// Draws the next value.
    pub fn draw(&mut self)
        ensures
            final(self).std_dev() == old(self).std_dev(),
            old(self).std_dev()@ > 0 ==> 0 <= final(self).noise()@ < old(self).std_dev()@,
            old(self).std_dev()@ <= 0 ==> final(self).noise()@ == 0,
    {
        if self.std_dev.raw > 0 {
            let bound: u128 = self.std_dev.raw as u128;
            let drawn: u128 = random_below(bound);
            self.noise = Fixed::from_raw(drawn as i64);
        } else {
            self.noise = Fixed::zero();
        }
    }
}

impl<
    Board: BarracudaBoard<Params, Move>,
    Params: BarracudaParams,
    Move: BarracudaMove,
    const DATA_REGISTERS: usize,
> BarracudaUcbParams<Board, Params, Move, DATA_REGISTERS> for Random {
    fn set_node(&mut self, tree: &mut Tree<Board, Params, Move, DATA_REGISTERS>, node: usize, last_move: &Move)
        ensures
            *final(tree) == *old(tree),
            final(self).std_dev() == old(self).std_dev(),
            old(self).std_dev()@ > 0 ==> 0 <= final(self).noise()@ < old(self).std_dev()@,
            old(self).std_dev()@ <= 0 ==> final(self).noise()@ == 0,
    {
        self.draw();
    }
}

impl<
    Board: BarracudaBoard<Params, Move>,
    Params: BarracudaParams,
    Move: BarracudaMove,
    const DATA_REGISTERS: usize,
> Formula<Board, Params, Move, DATA_REGISTERS> for Random {
    open spec fn value(&self, tree: Tree<Board, Params, Move, DATA_REGISTERS>, node: usize, last_move: Move) -> Fixed {
        self.noise()
    }

    open spec fn told(
        before: Self,
        tree: Tree<Board, Params, Move, DATA_REGISTERS>,
        event: Event<Move>,
        after: Self,
        tree_after: Tree<Board, Params, Move, DATA_REGISTERS>,
    ) -> bool {
        match event {
            Event::Score { .. } => {
                &&& tree_after == tree
                &&& after.std_dev() == before.std_dev()
                &&& (before.std_dev()@ > 0 ==> 0 <= after.noise()@ < before.std_dev()@)
                &&& (before.std_dev()@ <= 0 ==> after.noise()@ == 0)
            },
            _ => after == before && tree_after == tree,
        }
    }

    open spec fn plain(&self) -> bool {
        false
    }

    fn get(&self, tree: &Tree<Board, Params, Move, DATA_REGISTERS>, node: usize, last_move: &Move) -> (r: Fixed) {
        self.noise
    }

    fn on_score(&mut self, tree: &mut Tree<Board, Params, Move, DATA_REGISTERS>, node: usize, last_move: &Move)
        ensures
            *final(tree) == *old(tree),
            final(self).std_dev() == old(self).std_dev(),
            old(self).std_dev()@ > 0 ==> 0 <= final(self).noise()@ < old(self).std_dev()@,
            old(self).std_dev()@ <= 0 ==> final(self).noise()@ == 0,
    {
        self.draw();
    }

    fn on_playout(
        &mut self,
        tree: &mut Tree<Board, Params, Move, DATA_REGISTERS>,
        node: usize,
        last_move: &Move,
        eval: Fixed,
    ) {
    }

    fn on_backprop(&mut self, tree: &mut Tree<Board, Params, Move, DATA_REGISTERS>, node: usize, score: Fixed) {
    }
}

/// Registers at or below this raw value count as not set.
pub const UNSET_BELOW: i64 = 1_000_000;

/// One minus a static evaluation of the scored node over its visits. The
/// evaluation is made once for each node, when it is about to be scored for
/// the first time, and kept in a register of the node; a second register
/// marks that it was made. A term whose registers the nodes do not have
/// leaves them alone and is 0.
pub struct ProgressiveBias<
    Board: BarracudaBoard<Params, Move>,
    Params: BarracudaParams,
    Move: BarracudaMove,
    E: StaticEval<Board, Params, Move>,
    const DATA_REGISTERS: usize,
> {
    flag_register: usize,
    evaluation_register: usize,
    static_eval: E,
    p: PhantomData<(Board, Params, Move)>,
}

impl<
    Board: BarracudaBoard<Params, Move>,
    Params: BarracudaParams,
    Move: BarracudaMove,
    E: StaticEval<Board, Params, Move>,
    const DATA_REGISTERS: usize,
> ProgressiveBias<Board, Params, Move, E, DATA_REGISTERS> {
    /// The register that marks a node as evaluated, and the register that
    /// holds its evaluation.
    pub closed spec fn registers(self) -> (usize, usize) {
        (self.flag_register, self.evaluation_register)
    }

    /// The evaluation that is asked.
    pub closed spec fn evaluator(self) -> E {
        self.static_eval
    }

    /// The term that keeps its mark in `flag_register` and its evaluation in
    /// `evaluation_register`, with the value 0 until a node is scored.
    pub fn new(flag_register: usize, evaluation_register: usize, static_eval: E) -> (term: Self)
        requires
            flag_register < DATA_REGISTERS,
            evaluation_register < DATA_REGISTERS,
        ensures
            term.registers() == (flag_register, evaluation_register),
            term.evaluator() == static_eval,
    {
        Self { flag_register, evaluation_register, static_eval, p: PhantomData }
    }
}

impl<
    Board: BarracudaBoard<Params, Move>,
    Params: BarracudaParams,
    Move: BarracudaMove,
    E: StaticEval<Board, Params, Move>,
    const DATA_REGISTERS: usize,
> BarracudaUcbParams<Board, Params, Move, DATA_REGISTERS> for ProgressiveBias<Board, Params, Move, E, DATA_REGISTERS> {
    fn set_node(&mut self, tree: &mut Tree<Board, Params, Move, DATA_REGISTERS>, node: usize, last_move: &Move)
        ensures
            final(self).registers() == old(self).registers(),
            forall|i: int|
                0 <= i < old(tree).nodes@.len() && i != node ==> final(tree).nodes@[i] == old(tree).nodes@[i],
            ({
                let flag = old(self).registers().0 as int;
                let slot = old(self).registers().1 as int;
                let before = old(tree).nodes@[node as int].registers@;
                let after = final(tree).nodes@[node as int].registers@;
                if flag < DATA_REGISTERS && slot < DATA_REGISTERS && before[flag]@ <= UNSET_BELOW {
                    &&& after.len() == before.len()
                    &&& forall|r: int|
                        0 <= r < before.len() && r != flag && r != slot ==> after[r] == before[r]
                    &&& (flag != slot ==> after[flag]@ == SCALE)
                    &&& E::answers(
                        old(self).evaluator(),
                        old(tree).nodes@[node as int].board@,
                        after[slot],
                        final(self).evaluator(),
                    )
                } else {
                    after == before && final(self).evaluator() == old(self).evaluator()
                }
            }),
    {
        proof {
            assert(tree.node_wf(node as int));
        }
        if self.flag_register >= DATA_REGISTERS || self.evaluation_register >= DATA_REGISTERS {
            return ;
        }
        let ghost before = *tree;
        if tree.nodes[node].registers[self.flag_register].raw <= UNSET_BELOW {
            tree.nodes[node].registers[self.flag_register] = Fixed::one();
            let score = self.static_eval.evaluate(&tree.nodes[node].board);
            tree.nodes[node].registers[self.evaluation_register] = score;
        }
        proof {
            assert(tree.nodes@.len() == before.nodes@.len());
            assert forall|i: int| 0 <= i < tree.nodes@.len() implies {
                let a = #[trigger] tree.nodes@[i];
                let b = before.nodes@[i];
                &&& a.board@ == b.board@
                &&& a.moves@ == b.moves@
                &&& a.child_nodes@ == b.child_nodes@
                &&& a.parent == b.parent
                &&& a.score == b.score
                &&& a.visits == b.visits
                &&& a.registers@.len() == b.registers@.len()
            } by {}
        }
    }
}

impl<
    Board: BarracudaBoard<Params, Move>,
    Params: BarracudaParams,
    Move: BarracudaMove,
    E: StaticEval<Board, Params, Move>,
    const DATA_REGISTERS: usize,
> Formula<Board, Params, Move, DATA_REGISTERS> for ProgressiveBias<Board, Params, Move, E, DATA_REGISTERS> {
    open spec fn value(&self, tree: Tree<Board, Params, Move, DATA_REGISTERS>, node: usize, last_move: Move) -> Fixed {
        let slot = self.registers().1 as int;
        if self.registers().0 < DATA_REGISTERS && slot < DATA_REGISTERS {
            Fixed {
                raw: difference_raw(
                    SCALE as int,
                    ratio_raw(tree.nodes@[node as int].registers@[slot]@, tree.nodes@[node as int].visits@),
                ) as i64,
            }
        } else {
            Fixed { raw: 0 }
        }
    }

    open spec fn told(
        before: Self,
        tree: Tree<Board, Params, Move, DATA_REGISTERS>,
        event: Event<Move>,
        after: Self,
        tree_after: Tree<Board, Params, Move, DATA_REGISTERS>,
    ) -> bool {
        match event {
            Event::Score { node, .. } => {
                let flag = before.registers().0 as int;
                let slot = before.registers().1 as int;
                let was = tree.nodes@[node as int].registers@;
                let now = tree_after.nodes@[node as int].registers@;
                &&& after.registers() == before.registers()
                &&& forall|i: int|
                    0 <= i < tree.nodes@.len() && i != node ==> #[trigger] tree_after.nodes@[i]
                        == tree.nodes@[i]
                &&& if flag < DATA_REGISTERS && slot < DATA_REGISTERS && was[flag]@ <= UNSET_BELOW {
                    &&& now.len() == was.len()
                    &&& forall|r: int|
                        0 <= r < was.len() && r != flag && r != slot ==> now[r] == was[r]
                    &&& (flag != slot ==> now[flag]@ == SCALE)
                    &&& E::answers(
                        before.evaluator(),
                        tree.nodes@[node as int].board@,
                        now[slot],
                        after.evaluator(),
                    )
                } else {
                    now == was && after.evaluator() == before.evaluator()
                }
            },
            _ => after == before && tree_after == tree,
        }
    }

    open spec fn plain(&self) -> bool {
        false
    }

    fn get(&self, tree: &Tree<Board, Params, Move, DATA_REGISTERS>, node: usize, last_move: &Move) -> (r: Fixed) {
        assert(tree.node_wf(node as int));
        if self.flag_register >= DATA_REGISTERS || self.evaluation_register >= DATA_REGISTERS {
            Fixed::zero()
        } else {
            let state = &tree.nodes[node];
            Fixed::one().minus(state.registers[self.evaluation_register].divided_by(state.visits))
        }
    }

    fn on_score(&mut self, tree: &mut Tree<Board, Params, Move, DATA_REGISTERS>, node: usize, last_move: &Move) {
        BarracudaUcbParams::set_node(self, tree, node, last_move);
    }

    fn on_playout(
        &mut self,
        tree: &mut Tree<Board, Params, Move, DATA_REGISTERS>,
        node: usize,
        last_move: &Move,
        eval: Fixed,
    ) {
    }

    fn on_backprop(&mut self, tree: &mut Tree<Board, Params, Move, DATA_REGISTERS>, node: usize, score: Fixed) {
    }
}

} // verus!
