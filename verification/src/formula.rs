//! Scoring expressions: what a node of the search tree is ranked by.
//!
//! An expression gives every node a value, read off the tree and off what
//! the expression remembers. The search tells the expression what happens:
//! that a node is about to be scored, that a playout has ended, that a result
//! is on its way up. Constants, sums, products, differences and quotients
//! pass these events on to their operands.

use crate::fixed::{difference_raw, product_raw, ratio_raw, sum_raw, Fixed, SCALE};
use crate::mcts::Tree;
use crate::traits::{BarracudaBoard, BarracudaMove, BarracudaParams};
use vstd::prelude::*;

verus! {

/// What the search tells an expression.
pub enum Event<Move> {
    /// The node, reached by the move, is about to be scored.
    Score { node: usize, last_move: Move },
    /// The playout from the node, reached by the move, gave the result.
    Playout { node: usize, last_move: Move, eval: Fixed },
    /// The node is about to receive the value on the way back.
    Backprop { node: usize, score: Fixed },
}

impl<Move> Event<Move> {
    /// The node that the event is about.
    pub open spec fn about(self) -> usize {
        match self {
            Event::Score { node, .. } => node,
            Event::Playout { node, .. } => node,
            Event::Backprop { node, .. } => node,
        }
    }
}

/// An expression that gives the nodes of a search tree a value.
pub trait Formula<
    Board: BarracudaBoard<Params, Move>,
    Params: BarracudaParams,
    Move: BarracudaMove,
    const DATA_REGISTERS: usize,
>: Sized {
    /// The value of `node`, reached by `last_move`, in `tree`.
    spec fn value(
        &self,
        tree: Tree<Board, Params, Move, DATA_REGISTERS>,
        node: usize,
        last_move: Move,
    ) -> Fixed;

    /// Whether the expression `before`, told of `event` in `tree`, may be
    /// `after` from then on and have made `tree_after` of the tree.
    spec fn told(
        before: Self,
        tree: Tree<Board, Params, Move, DATA_REGISTERS>,
        event: Event<Move>,
        after: Self,
        tree_after: Tree<Board, Params, Move, DATA_REGISTERS>,
    ) -> bool;

    /// Whether the expression is plain: being told that a node is about to be
    /// scored changes no value of it, and no event makes it write the tree.
    spec fn plain(&self) -> bool;

    /// Reads the value of `node`.
    fn get(
        &self,
        tree: &Tree<Board, Params, Move, DATA_REGISTERS>,
        node: usize,
        last_move: &Move,
    ) -> (r: Fixed)
        requires
            tree.wf(),
            node < tree.nodes@.len(),
        ensures
            r == self.value(*tree, node, *last_move),
    ;

    /// `node`, reached by `last_move`, is about to be scored. The registers
    /// of the tree's nodes may be written, nothing else of the tree.
    fn on_score(
        &mut self,
        tree: &mut Tree<Board, Params, Move, DATA_REGISTERS>,
        node: usize,
        last_move: &Move,
    )
        requires
            old(tree).wf(),
            node < old(tree).nodes@.len(),
        ensures
            final(tree).same_structure(*old(tree)),
            final(self).plain() == old(self).plain(),
            old(self).plain() ==> *final(tree) == *old(tree) && forall|
                t: Tree<Board, Params, Move, DATA_REGISTERS>,
                n: usize,
                m: Move,
            | #[trigger]
                final(self).value(t, n, m) == old(self).value(t, n, m),
            Self::told(
                *old(self),
                *old(tree),
                (Event::Score { node, last_move: *last_move }),
                *final(self),
                *final(tree),
            ),
    ;

    /// The playout from `node`, reached by `last_move`, gave `eval`. The
    /// registers of the tree's nodes may be written, nothing else of the tree.
    fn on_playout(
        &mut self,
        tree: &mut Tree<Board, Params, Move, DATA_REGISTERS>,
        node: usize,
        last_move: &Move,
        eval: Fixed,
    )
        requires
            old(tree).wf(),
            node < old(tree).nodes@.len(),
        ensures
            final(tree).same_structure(*old(tree)),
            final(self).plain() == old(self).plain(),
            old(self).plain() ==> *final(tree) == *old(tree),
        Self::told(
                *old(self),
                *old(tree),
                (Event::Playout { node, last_move: *last_move, eval }),
                *final(self),
                *final(tree),
            ),
    ;

    /// `node` is about to receive `score` on the way back from a playout. The
    /// registers of the tree's nodes may be written, nothing else of the tree.
    fn on_backprop(
        &mut self,
        tree: &mut Tree<Board, Params, Move, DATA_REGISTERS>,
        node: usize,
        score: Fixed,
    )
        requires
            old(tree).wf(),
            node < old(tree).nodes@.len(),
        ensures
            final(tree).same_structure(*old(tree)),
            final(self).plain() == old(self).plain(),
            old(self).plain() ==> *final(tree) == *old(tree),
        Self::told(
                *old(self),
                *old(tree),
                (Event::Backprop { node, score }),
                *final(self),
                *final(tree),
            ),
    ;
}

/// Whether two expressions give every node of every tree the same value.
#[verifier::opaque]
pub open spec fn agree<
    Board: BarracudaBoard<Params, Move>,
    Params: BarracudaParams,
    Move: BarracudaMove,
    F: Formula<Board, Params, Move, DATA_REGISTERS>,
    const DATA_REGISTERS: usize,
>(a: F, b: F) -> bool {
    forall|tree: Tree<Board, Params, Move, DATA_REGISTERS>, node: usize, last_move: Move|
        #[trigger] a.value(tree, node, last_move) == b.value(tree, node, last_move)
}

/// Expressions whose values are the same agree.
pub proof fn lemma_agree_intro<
    Board: BarracudaBoard<Params, Move>,
    Params: BarracudaParams,
    Move: BarracudaMove,
    F: Formula<Board, Params, Move, DATA_REGISTERS>,
    const DATA_REGISTERS: usize,
>(a: F, b: F)
    requires
        forall|tree: Tree<Board, Params, Move, DATA_REGISTERS>, node: usize, last_move: Move|
            #[trigger] a.value(tree, node, last_move) == b.value(tree, node, last_move),
    ensures
        agree(a, b),
{
    reveal(agree);
}

/// Expressions that agree have the same value everywhere.
pub proof fn lemma_agree_at<
    Board: BarracudaBoard<Params, Move>,
    Params: BarracudaParams,
    Move: BarracudaMove,
    F: Formula<Board, Params, Move, DATA_REGISTERS>,
    const DATA_REGISTERS: usize,
>(a: F, b: F, tree: Tree<Board, Params, Move, DATA_REGISTERS>, node: usize, last_move: Move)
    requires
        agree(a, b),
    ensures
        a.value(tree, node, last_move) == b.value(tree, node, last_move),
{
    reveal(agree);
}

/// Agreement carries over.
pub proof fn lemma_agree_trans<
    Board: BarracudaBoard<Params, Move>,
    Params: BarracudaParams,
    Move: BarracudaMove,
    F: Formula<Board, Params, Move, DATA_REGISTERS>,
    const DATA_REGISTERS: usize,
>(a: F, b: F, c: F)
    requires
        agree(a, b),
        agree(b, c),
    ensures
        agree(a, c),
{
    reveal(agree);
}

/// A constant.
pub struct Const {
    value: Fixed,
}

impl Const {
    /// The constant.
    pub closed spec fn constant(self) -> Fixed {
        self.value
    }

    /// The constant `value`.
    pub fn new(value: Fixed) -> (c: Self)
        ensures
            c.constant() == value,
    {
        Self { value }
    }
}

impl<
    Board: BarracudaBoard<Params, Move>,
    Params: BarracudaParams,
    Move: BarracudaMove,
    const DATA_REGISTERS: usize,
> Formula<Board, Params, Move, DATA_REGISTERS> for Const {
    open spec fn value(&self, tree: Tree<Board, Params, Move, DATA_REGISTERS>, node: usize, last_move: Move) -> Fixed {
        self.constant()
    }

    open spec fn told(
        before: Self,
        tree: Tree<Board, Params, Move, DATA_REGISTERS>,
        event: Event<Move>,
        after: Self,
        tree_after: Tree<Board, Params, Move, DATA_REGISTERS>,
    ) -> bool {
        after == before && tree_after == tree
    }

    open spec fn plain(&self) -> bool {
        true
    }

    fn get(&self, tree: &Tree<Board, Params, Move, DATA_REGISTERS>, node: usize, last_move: &Move) -> (r: Fixed) {
        self.value
    }

    fn on_score(
        &mut self,
        tree: &mut Tree<Board, Params, Move, DATA_REGISTERS>,
        node: usize,
        last_move: &Move,
    ) {
    }

    fn on_playout(
        &mut self,
        tree: &mut Tree<Board, Params, Move, DATA_REGISTERS>,
        node: usize,
        last_move: &Move,
        eval: Fixed,
    ) {
    }

    fn on_backprop(
        &mut self,
        tree: &mut Tree<Board, Params, Move, DATA_REGISTERS>,
        node: usize,
        score: Fixed,
    ) {
    }
}

/// The saturating sum of the values of the first `k` parts, added from the
/// left, starting at 0.
pub open spec fn sum_upto<
    Board: BarracudaBoard<Params, Move>,
    Params: BarracudaParams,
    Move: BarracudaMove,
    T: Formula<Board, Params, Move, DATA_REGISTERS>,
    const DATA_REGISTERS: usize,
>(parts: Seq<T>, k: nat, tree: Tree<Board, Params, Move, DATA_REGISTERS>, node: usize, last_move: Move) -> int
    decreases k,
{
    if k == 0 {
        0
    } else {
        sum_raw(
            sum_upto(parts, (k - 1) as nat, tree, node, last_move),
            parts[k - 1].value(tree, node, last_move)@,
        )
    }
}

/// The saturating product of the values of the first `k` parts, multiplied
/// from the left, starting at 1.
pub open spec fn product_upto<
    Board: BarracudaBoard<Params, Move>,
    Params: BarracudaParams,
    Move: BarracudaMove,
    T: Formula<Board, Params, Move, DATA_REGISTERS>,
    const DATA_REGISTERS: usize,
>(parts: Seq<T>, k: nat, tree: Tree<Board, Params, Move, DATA_REGISTERS>, node: usize, last_move: Move) -> int
    decreases k,
{
    if k == 0 {
        SCALE as int
    } else {
        product_raw(
            product_upto(parts, (k - 1) as nat, tree, node, last_move),
            parts[k - 1].value(tree, node, last_move)@,
        )
    }
}

/// Whether every part is plain.
pub open spec fn all_plain<
    Board: BarracudaBoard<Params, Move>,
    Params: BarracudaParams,
    Move: BarracudaMove,
    T: Formula<Board, Params, Move, DATA_REGISTERS>,
    const DATA_REGISTERS: usize,
>(parts: Seq<T>) -> bool {
    forall|j: int| 0 <= j < parts.len() ==> (#[trigger] parts[j]).plain()
}

/// Whether the first `k` of the parts `before` were told of `event` one after
/// the other, became the first `k` of `after`, and made `tree_after` of
/// `tree`.
pub open spec fn told_upto<
    Board: BarracudaBoard<Params, Move>,
    Params: BarracudaParams,
    Move: BarracudaMove,
    T: Formula<Board, Params, Move, DATA_REGISTERS>,
    const DATA_REGISTERS: usize,
>(
    before: Seq<T>,
    after: Seq<T>,
    k: nat,
    tree: Tree<Board, Params, Move, DATA_REGISTERS>,
    event: Event<Move>,
    tree_after: Tree<Board, Params, Move, DATA_REGISTERS>,
) -> bool
    decreases k,
{
    if k == 0 {
        tree_after == tree
    } else {
        exists|mid: Tree<Board, Params, Move, DATA_REGISTERS>|
            told_upto(before, after, (k - 1) as nat, tree, event, mid) && #[trigger] T::told(
                before[k - 1],
                mid,
                event,
                after[k - 1],
                tree_after,
            )
    }
}

/// What the first `k` parts were told depends on the first `k` parts alone.
pub proof fn lemma_told_prefix<
    Board: BarracudaBoard<Params, Move>,
    Params: BarracudaParams,
    Move: BarracudaMove,
    T: Formula<Board, Params, Move, DATA_REGISTERS>,
    const DATA_REGISTERS: usize,
>(
    before: Seq<T>,
    a: Seq<T>,
    b: Seq<T>,
    k: nat,
    tree: Tree<Board, Params, Move, DATA_REGISTERS>,
    event: Event<Move>,
    tree_after: Tree<Board, Params, Move, DATA_REGISTERS>,
)
    requires
        k <= a.len(),
        k <= b.len(),
        forall|j: int| 0 <= j < k ==> #[trigger] a[j] == b[j],
        told_upto(before, a, k, tree, event, tree_after),
    ensures
        told_upto(before, b, k, tree, event, tree_after),
    decreases k,
{
    if k > 0 {
        let mid = choose|mid: Tree<Board, Params, Move, DATA_REGISTERS>|
            told_upto(before, a, (k - 1) as nat, tree, event, mid) && #[trigger] T::told(
                before[k - 1],
                mid,
                event,
                a[k - 1],
                tree_after,
            );
        lemma_told_prefix(before, a, b, (k - 1) as nat, tree, event, mid);
        assert(a[k - 1] == b[k - 1]);
    }
}

/// Parts that agree one by one have the same sums and products.
pub proof fn lemma_parts_agree<
    Board: BarracudaBoard<Params, Move>,
    Params: BarracudaParams,
    Move: BarracudaMove,
    T: Formula<Board, Params, Move, DATA_REGISTERS>,
    const DATA_REGISTERS: usize,
>(a: Seq<T>, b: Seq<T>, k: nat, tree: Tree<Board, Params, Move, DATA_REGISTERS>, node: usize, last_move: Move)
    requires
        a.len() == b.len(),
        k <= a.len(),
        forall|j: int| 0 <= j < a.len() ==> agree(#[trigger] a[j], b[j]),
    ensures
        sum_upto(a, k, tree, node, last_move) == sum_upto(b, k, tree, node, last_move),
        product_upto(a, k, tree, node, last_move) == product_upto(b, k, tree, node, last_move),
    decreases k,
{
    if k > 0 {
        lemma_parts_agree(a, b, (k - 1) as nat, tree, node, last_move);
        assert(agree(a[k - 1], b[k - 1]));
        lemma_agree_at(a[k - 1], b[k - 1], tree, node, last_move);
    }
}

/// Tells every part of `event`, one after the other.
fn tell_parts<
    Board: BarracudaBoard<Params, Move>,
    Params: BarracudaParams,
    Move: BarracudaMove,
    T: Formula<Board, Params, Move, DATA_REGISTERS>,
    const DATA_REGISTERS: usize,
>(parts: &mut Vec<T>, tree: &mut Tree<Board, Params, Move, DATA_REGISTERS>, event: Event<Move>)
    requires
        old(tree).wf(),
        event.about() < old(tree).nodes@.len(),
    ensures
        final(tree).same_structure(*old(tree)),
        final(parts)@.len() == old(parts)@.len(),
        forall|j: int|
            0 <= j < old(parts)@.len() ==> (#[trigger] final(parts)@[j]).plain() == old(parts)@[j].plain(),
        all_plain(old(parts)@) ==> *final(tree) == *old(tree),
        all_plain(old(parts)@) && event is Score ==> forall|j: int|
            0 <= j < old(parts)@.len() ==> agree(#[trigger] final(parts)@[j], old(parts)@[j]),
        told_upto(
            old(parts)@,
            final(parts)@,
            old(parts)@.len(),
            *old(tree),
            event,
            *final(tree),
        ),
{
    let mut k: usize = 0;
    proof {
        assert forall|j: int| 0 <= j < parts@.len() implies agree(
            #[trigger] parts@[j],
            old(parts)@[j],
        ) by {
            lemma_agree_intro(parts@[j], parts@[j]);
        }
    }
    while k < parts.len()
        invariant
            old(tree).wf(),
            tree.wf(),
            event.about() < tree.nodes@.len(),
            tree.same_structure(*old(tree)),
            parts@.len() == old(parts)@.len(),
            k <= parts@.len(),
            forall|j: int|
                0 <= j < parts@.len() ==> (#[trigger] parts@[j]).plain() == old(parts)@[j].plain(),
            forall|j: int| k <= j < parts@.len() ==> #[trigger] parts@[j] == old(parts)@[j],
            all_plain(old(parts)@) ==> *tree == *old(tree),
            all_plain(old(parts)@) && event is Score ==> forall|j: int|
                0 <= j < parts@.len() ==> agree(#[trigger] parts@[j], old(parts)@[j]),
            told_upto(old(parts)@, parts@, k as nat, *old(tree), event, *tree),
        decreases parts@.len() - k,
    {
        let ghost before = *tree;
        let ghost entered = parts@;
        match event {
            Event::Score { node, last_move } => {
                parts[k].on_score(tree, node, &last_move);
            },
            Event::Playout { node, last_move, eval } => {
                parts[k].on_playout(tree, node, &last_move, eval);
            },
            Event::Backprop { node, score } => {
                parts[k].on_backprop(tree, node, score);
            },
        }
        proof {
            tree.lemma_same_structure_wf(before);
            tree.lemma_same_structure_trans(before, *old(tree));
            assert forall|j: int| 0 <= j < parts@.len() implies (#[trigger] parts@[j]).plain()
                == old(parts)@[j].plain() by {
                if j != k {
                    assert(parts@[j] == entered[j]);
                }
            }
            assert forall|j: int| k + 1 <= j < parts@.len() implies #[trigger] parts@[j] == old(
                parts,
            )@[j] by {
                assert(parts@[j] == entered[j]);
            }
            assert(entered[k as int] == old(parts)@[k as int]);
            if all_plain(old(parts)@) {
                assert(old(parts)@[k as int].plain());
                if event is Score {
                    lemma_agree_intro(parts@[k as int], entered[k as int]);
                    assert forall|j: int| 0 <= j < parts@.len() implies agree(
                        #[trigger] parts@[j],
                        old(parts)@[j],
                    ) by {
                        if j != k {
                            assert(parts@[j] == entered[j]);
                        }
                    }
                }
            }
            assert forall|j: int| 0 <= j < k implies #[trigger] entered[j] == parts@[j] by {}
            lemma_told_prefix(old(parts)@, entered, parts@, k as nat, *old(tree), event, before);
            assert(T::told(old(parts)@[k as int], before, event, parts@[k as int], *tree));
            let next = (k + 1) as nat;
            assert(told_upto(old(parts)@, parts@, (next - 1) as nat, *old(tree), event, before));
            assert(T::told(old(parts)@[next - 1], before, event, parts@[next - 1], *tree));
            assert(told_upto(old(parts)@, parts@, next, *old(tree), event, *tree));
        }
        k += 1;
    }
}

/// Whether the first of two operands was told of `event` in `tree` and made
/// `mid` of it, and the second was told of it then and made `tree_after`.
pub open spec fn told_pair<
    Board: BarracudaBoard<Params, Move>,
    Params: BarracudaParams,
    Move: BarracudaMove,
    T: Formula<Board, Params, Move, DATA_REGISTERS>,
    U: Formula<Board, Params, Move, DATA_REGISTERS>,
    const DATA_REGISTERS: usize,
>(
    before: (T, U),
    tree: Tree<Board, Params, Move, DATA_REGISTERS>,
    event: Event<Move>,
    after: (T, U),
    mid: Tree<Board, Params, Move, DATA_REGISTERS>,
    tree_after: Tree<Board, Params, Move, DATA_REGISTERS>,
) -> bool {
    T::told(before.0, tree, event, after.0, mid) && U::told(before.1, mid, event, after.1, tree_after)
}

/// The sum of any number of expressions.
pub struct Add<T> {
    parts: Vec<T>,
}

impl<T> Add<T> {
    /// The operands.
    pub closed spec fn parts(self) -> Seq<T> {
        self.parts@
    }

    /// The sum of `parts`.
    pub fn new(parts: Vec<T>) -> (sum: Self)
        ensures
            sum.parts() == parts@,
    {
        Self { parts }
    }
}

impl<
    Board: BarracudaBoard<Params, Move>,
    Params: BarracudaParams,
    Move: BarracudaMove,
    T: Formula<Board, Params, Move, DATA_REGISTERS>,
    const DATA_REGISTERS: usize,
> Formula<Board, Params, Move, DATA_REGISTERS> for Add<T> {
    open spec fn value(&self, tree: Tree<Board, Params, Move, DATA_REGISTERS>, node: usize, last_move: Move) -> Fixed {
        Fixed { raw: sum_upto(self.parts(), self.parts().len(), tree, node, last_move) as i64 }
    }

    open spec fn told(
        before: Self,
        tree: Tree<Board, Params, Move, DATA_REGISTERS>,
        event: Event<Move>,
        after: Self,
        tree_after: Tree<Board, Params, Move, DATA_REGISTERS>,
    ) -> bool {
        &&& after.parts().len() == before.parts().len()
        &&& told_upto(before.parts(), after.parts(), before.parts().len(), tree, event, tree_after)
    }

    open spec fn plain(&self) -> bool {
        all_plain(self.parts())
    }

    fn get(&self, tree: &Tree<Board, Params, Move, DATA_REGISTERS>, node: usize, last_move: &Move) -> (r: Fixed) {
        let mut total = Fixed::zero();
        let mut k: usize = 0;
        while k < self.parts.len()
            invariant
                tree.wf(),
                node < tree.nodes@.len(),
                k <= self.parts@.len(),
                total@ == sum_upto(self.parts@, k as nat, *tree, node, *last_move),
            decreases self.parts@.len() - k,
        {
            total = total.plus(self.parts[k].get(tree, node, last_move));
            k += 1;
        }
        total
    }

    fn on_score(
        &mut self,
        tree: &mut Tree<Board, Params, Move, DATA_REGISTERS>,
        node: usize,
        last_move: &Move,
    ) {
        tell_parts(&mut self.parts, tree, Event::Score { node, last_move: *last_move });
        proof {
            assert(all_plain(self.parts@) == all_plain(old(self).parts@)) by {
                if all_plain(old(self).parts@) {
                    assert forall|j: int| 0 <= j < self.parts@.len() implies (
                    #[trigger] self.parts@[j]).plain() by {
                        assert(old(self).parts@[j].plain());
                    }
                }
                if all_plain(self.parts@) {
                    assert forall|j: int| 0 <= j < old(self).parts@.len() implies (
                    #[trigger] old(self).parts@[j]).plain() by {
                        assert(self.parts@[j].plain());
                    }
                }
            }
        }
        proof {
            if old(self).plain() {
                assert forall|t: Tree<Board, Params, Move, DATA_REGISTERS>, n: usize, m: Move| #[trigger]
                    self.value(t, n, m) == old(self).value(t, n, m) by {
                    lemma_parts_agree(self.parts@, old(self).parts@, self.parts@.len(), t, n, m);
                }
            }
        }
    }

    fn on_playout(
        &mut self,
        tree: &mut Tree<Board, Params, Move, DATA_REGISTERS>,
        node: usize,
        last_move: &Move,
        eval: Fixed,
    ) {
        tell_parts(&mut self.parts, tree, Event::Playout { node, last_move: *last_move, eval });
        proof {
            assert(all_plain(self.parts@) == all_plain(old(self).parts@)) by {
                if all_plain(old(self).parts@) {
                    assert forall|j: int| 0 <= j < self.parts@.len() implies (
                    #[trigger] self.parts@[j]).plain() by {
                        assert(old(self).parts@[j].plain());
                    }
                }
                if all_plain(self.parts@) {
                    assert forall|j: int| 0 <= j < old(self).parts@.len() implies (
                    #[trigger] old(self).parts@[j]).plain() by {
                        assert(self.parts@[j].plain());
                    }
                }
            }
        }
    }

    fn on_backprop(
        &mut self,
        tree: &mut Tree<Board, Params, Move, DATA_REGISTERS>,
        node: usize,
        score: Fixed,
    ) {
        tell_parts(&mut self.parts, tree, Event::Backprop { node, score });
        proof {
            assert(all_plain(self.parts@) == all_plain(old(self).parts@)) by {
                if all_plain(old(self).parts@) {
                    assert forall|j: int| 0 <= j < self.parts@.len() implies (
                    #[trigger] self.parts@[j]).plain() by {
                        assert(old(self).parts@[j].plain());
                    }
                }
                if all_plain(self.parts@) {
                    assert forall|j: int| 0 <= j < old(self).parts@.len() implies (
                    #[trigger] old(self).parts@[j]).plain() by {
                        assert(self.parts@[j].plain());
                    }
                }
            }
        }
    }
}

/// The difference of two expressions.
pub struct Sub<T, U> {
    t: T,
    u: U,
}

impl<T, U> Sub<T, U> {
    /// The two operands.
    pub closed spec fn operands(self) -> (T, U) {
        (self.t, self.u)
    }

    /// The difference of `t` and `u`.
    pub fn new(t: T, u: U) -> (difference: Self)
        ensures
            difference.operands() == (t, u),
    {
        Self { t, u }
    }
}

impl<
    Board: BarracudaBoard<Params, Move>,
    Params: BarracudaParams,
    Move: BarracudaMove,
    T: Formula<Board, Params, Move, DATA_REGISTERS>,
    U: Formula<Board, Params, Move, DATA_REGISTERS>,
    const DATA_REGISTERS: usize,
> Formula<Board, Params, Move, DATA_REGISTERS> for Sub<T, U> {
    open spec fn value(&self, tree: Tree<Board, Params, Move, DATA_REGISTERS>, node: usize, last_move: Move) -> Fixed {
        Fixed {
            raw: difference_raw(
                self.operands().0.value(tree, node, last_move)@,
                self.operands().1.value(tree, node, last_move)@,
            ) as i64,
        }
    }

    open spec fn told(
        before: Self,
        tree: Tree<Board, Params, Move, DATA_REGISTERS>,
        event: Event<Move>,
        after: Self,
        tree_after: Tree<Board, Params, Move, DATA_REGISTERS>,
    ) -> bool {
        exists|mid: Tree<Board, Params, Move, DATA_REGISTERS>|
            #[trigger] told_pair(before.operands(), tree, event, after.operands(), mid, tree_after)
    }

    open spec fn plain(&self) -> bool {
        self.operands().0.plain() && self.operands().1.plain()
    }

    fn get(&self, tree: &Tree<Board, Params, Move, DATA_REGISTERS>, node: usize, last_move: &Move) -> (r: Fixed) {
        self.t.get(tree, node, last_move).minus(self.u.get(tree, node, last_move))
    }

    fn on_score(
        &mut self,
        tree: &mut Tree<Board, Params, Move, DATA_REGISTERS>,
        node: usize,
        last_move: &Move,
    ) {
        let ghost before = *tree;
        self.t.on_score(tree, node, last_move);
        let ghost between = *tree;
        proof {
            tree.lemma_same_structure_wf(before);
        }
        self.u.on_score(tree, node, last_move);
        proof {
            tree.lemma_same_structure_trans(between, before);
            assert(told_pair(old(self).operands(), before, (Event::Score { node, last_move: *last_move }), self.operands(), between, *tree));
        }
    }

    fn on_playout(
        &mut self,
        tree: &mut Tree<Board, Params, Move, DATA_REGISTERS>,
        node: usize,
        last_move: &Move,
        eval: Fixed,
    ) {
        let ghost before = *tree;
        self.t.on_playout(tree, node, last_move, eval);
        let ghost between = *tree;
        proof {
            tree.lemma_same_structure_wf(before);
        }
        self.u.on_playout(tree, node, last_move, eval);
        proof {
            tree.lemma_same_structure_trans(between, before);
            assert(told_pair(old(self).operands(), before, (Event::Playout { node, last_move: *last_move, eval }), self.operands(), between, *tree));
        }
    }

    fn on_backprop(
        &mut self,
        tree: &mut Tree<Board, Params, Move, DATA_REGISTERS>,
        node: usize,
        score: Fixed,
    ) {
        let ghost before = *tree;
        self.t.on_backprop(tree, node, score);
        let ghost between = *tree;
        proof {
            tree.lemma_same_structure_wf(before);
        }
        self.u.on_backprop(tree, node, score);
        proof {
            tree.lemma_same_structure_trans(between, before);
            assert(told_pair(old(self).operands(), before, (Event::Backprop { node, score }), self.operands(), between, *tree));
        }
    }
}

/// The product of any number of expressions.
pub struct Mul<T> {
    parts: Vec<T>,
}

impl<T> Mul<T> {
    /// The operands.
    pub closed spec fn parts(self) -> Seq<T> {
        self.parts@
    }

    /// The product of `parts`.
    pub fn new(parts: Vec<T>) -> (product: Self)
        ensures
            product.parts() == parts@,
    {
        Self { parts }
    }
}

impl<
    Board: BarracudaBoard<Params, Move>,
    Params: BarracudaParams,
    Move: BarracudaMove,
    T: Formula<Board, Params, Move, DATA_REGISTERS>,
    const DATA_REGISTERS: usize,
> Formula<Board, Params, Move, DATA_REGISTERS> for Mul<T> {
    open spec fn value(&self, tree: Tree<Board, Params, Move, DATA_REGISTERS>, node: usize, last_move: Move) -> Fixed {
        Fixed { raw: product_upto(self.parts(), self.parts().len(), tree, node, last_move) as i64 }
    }

    open spec fn told(
        before: Self,
        tree: Tree<Board, Params, Move, DATA_REGISTERS>,
        event: Event<Move>,
        after: Self,
        tree_after: Tree<Board, Params, Move, DATA_REGISTERS>,
    ) -> bool {
        &&& after.parts().len() == before.parts().len()
        &&& told_upto(before.parts(), after.parts(), before.parts().len(), tree, event, tree_after)
    }

    open spec fn plain(&self) -> bool {
        all_plain(self.parts())
    }

    fn get(&self, tree: &Tree<Board, Params, Move, DATA_REGISTERS>, node: usize, last_move: &Move) -> (r: Fixed) {
        let mut total = Fixed::one();
        let mut k: usize = 0;
        while k < self.parts.len()
            invariant
                tree.wf(),
                node < tree.nodes@.len(),
                k <= self.parts@.len(),
                total@ == product_upto(self.parts@, k as nat, *tree, node, *last_move),
            decreases self.parts@.len() - k,
        {
            total = total.times(self.parts[k].get(tree, node, last_move));
            k += 1;
        }
        total
    }

    fn on_score(
        &mut self,
        tree: &mut Tree<Board, Params, Move, DATA_REGISTERS>,
        node: usize,
        last_move: &Move,
    ) {
        tell_parts(&mut self.parts, tree, Event::Score { node, last_move: *last_move });
        proof {
            assert(all_plain(self.parts@) == all_plain(old(self).parts@)) by {
                if all_plain(old(self).parts@) {
                    assert forall|j: int| 0 <= j < self.parts@.len() implies (
                    #[trigger] self.parts@[j]).plain() by {
                        assert(old(self).parts@[j].plain());
                    }
                }
                if all_plain(self.parts@) {
                    assert forall|j: int| 0 <= j < old(self).parts@.len() implies (
                    #[trigger] old(self).parts@[j]).plain() by {
                        assert(self.parts@[j].plain());
                    }
                }
            }
        }
        proof {
            if old(self).plain() {
                assert forall|t: Tree<Board, Params, Move, DATA_REGISTERS>, n: usize, m: Move| #[trigger]
                    self.value(t, n, m) == old(self).value(t, n, m) by {
                    lemma_parts_agree(self.parts@, old(self).parts@, self.parts@.len(), t, n, m);
                }
            }
        }
    }

    fn on_playout(
        &mut self,
        tree: &mut Tree<Board, Params, Move, DATA_REGISTERS>,
        node: usize,
        last_move: &Move,
        eval: Fixed,
    ) {
        tell_parts(&mut self.parts, tree, Event::Playout { node, last_move: *last_move, eval });
        proof {
            assert(all_plain(self.parts@) == all_plain(old(self).parts@)) by {
                if all_plain(old(self).parts@) {
                    assert forall|j: int| 0 <= j < self.parts@.len() implies (
                    #[trigger] self.parts@[j]).plain() by {
                        assert(old(self).parts@[j].plain());
                    }
                }
                if all_plain(self.parts@) {
                    assert forall|j: int| 0 <= j < old(self).parts@.len() implies (
                    #[trigger] old(self).parts@[j]).plain() by {
                        assert(self.parts@[j].plain());
                    }
                }
            }
        }
    }

    fn on_backprop(
        &mut self,
        tree: &mut Tree<Board, Params, Move, DATA_REGISTERS>,
        node: usize,
        score: Fixed,
    ) {
        tell_parts(&mut self.parts, tree, Event::Backprop { node, score });
        proof {
            assert(all_plain(self.parts@) == all_plain(old(self).parts@)) by {
                if all_plain(old(self).parts@) {
                    assert forall|j: int| 0 <= j < self.parts@.len() implies (
                    #[trigger] self.parts@[j]).plain() by {
                        assert(old(self).parts@[j].plain());
                    }
                }
                if all_plain(self.parts@) {
                    assert forall|j: int| 0 <= j < old(self).parts@.len() implies (
                    #[trigger] old(self).parts@[j]).plain() by {
                        assert(self.parts@[j].plain());
                    }
                }
            }
        }
    }
}

/// The quotient of two expressions.
pub struct Div<T, U> {
    t: T,
    u: U,
}

impl<T, U> Div<T, U> {
    /// The two operands.
    pub closed spec fn operands(self) -> (T, U) {
        (self.t, self.u)
    }

    /// The quotient of `t` and `u`.
    pub fn new(t: T, u: U) -> (quotient: Self)
        ensures
            quotient.operands() == (t, u),
    {
        Self { t, u }
    }
}

impl<
    Board: BarracudaBoard<Params, Move>,
    Params: BarracudaParams,
    Move: BarracudaMove,
    T: Formula<Board, Params, Move, DATA_REGISTERS>,
    U: Formula<Board, Params, Move, DATA_REGISTERS>,
    const DATA_REGISTERS: usize,
> Formula<Board, Params, Move, DATA_REGISTERS> for Div<T, U> {
    open spec fn value(&self, tree: Tree<Board, Params, Move, DATA_REGISTERS>, node: usize, last_move: Move) -> Fixed {
        Fixed {
            raw: ratio_raw(
                self.operands().0.value(tree, node, last_move)@,
                self.operands().1.value(tree, node, last_move)@,
            ) as i64,
        }
    }

    open spec fn told(
        before: Self,
        tree: Tree<Board, Params, Move, DATA_REGISTERS>,
        event: Event<Move>,
        after: Self,
        tree_after: Tree<Board, Params, Move, DATA_REGISTERS>,
    ) -> bool {
        exists|mid: Tree<Board, Params, Move, DATA_REGISTERS>|
            #[trigger] told_pair(before.operands(), tree, event, after.operands(), mid, tree_after)
    }

    open spec fn plain(&self) -> bool {
        self.operands().0.plain() && self.operands().1.plain()
    }

    fn get(&self, tree: &Tree<Board, Params, Move, DATA_REGISTERS>, node: usize, last_move: &Move) -> (r: Fixed) {
        self.t.get(tree, node, last_move).divided_by(self.u.get(tree, node, last_move))
    }

    fn on_score(
        &mut self,
        tree: &mut Tree<Board, Params, Move, DATA_REGISTERS>,
        node: usize,
        last_move: &Move,
    ) {
        let ghost before = *tree;
        self.t.on_score(tree, node, last_move);
        let ghost between = *tree;
        proof {
            tree.lemma_same_structure_wf(before);
        }
        self.u.on_score(tree, node, last_move);
        proof {
            tree.lemma_same_structure_trans(between, before);
            assert(told_pair(old(self).operands(), before, (Event::Score { node, last_move: *last_move }), self.operands(), between, *tree));
        }
    }

    fn on_playout(
        &mut self,
        tree: &mut Tree<Board, Params, Move, DATA_REGISTERS>,
        node: usize,
        last_move: &Move,
        eval: Fixed,
    ) {
        let ghost before = *tree;
        self.t.on_playout(tree, node, last_move, eval);
        let ghost between = *tree;
        proof {
            tree.lemma_same_structure_wf(before);
        }
        self.u.on_playout(tree, node, last_move, eval);
        proof {
            tree.lemma_same_structure_trans(between, before);
            assert(told_pair(old(self).operands(), before, (Event::Playout { node, last_move: *last_move, eval }), self.operands(), between, *tree));
        }
    }

    fn on_backprop(
        &mut self,
        tree: &mut Tree<Board, Params, Move, DATA_REGISTERS>,
        node: usize,
        score: Fixed,
    ) {
        let ghost before = *tree;
        self.t.on_backprop(tree, node, score);
        let ghost between = *tree;
        proof {
            tree.lemma_same_structure_wf(before);
        }
        self.u.on_backprop(tree, node, score);
        proof {
            tree.lemma_same_structure_trans(between, before);
            assert(told_pair(old(self).operands(), before, (Event::Backprop { node, score }), self.operands(), between, *tree));
        }
    }
}

} // verus!
