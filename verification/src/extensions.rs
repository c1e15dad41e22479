//! Strategies with a memory of their own: a table of move values, statistics
//! shared along the lines of play, and a table of positions.

use crate::components::{Backprop, BarracudaSimulationParams};
use crate::fixed::{
    difference_raw, magnitude, product_raw, quotient, ratio_raw, sum_raw, Fixed, SCALE,
};
use crate::formula::{Event, Formula};
use crate::mcts::Tree;
use crate::traits::{BarracudaAlgorithm, BarracudaBoard, BarracudaMove, BarracudaParams, Player};
use std::marker::PhantomData;
use vstd::prelude::*;

verus! {

/// The value of the last entry for `key`, if there is one.
pub open spec fn lookup<Move>(entries: Seq<((Player, Move), Fixed)>, key: (Player, Move)) -> Option<
    Fixed,
>
    decreases entries.len(),
{
    if entries.len() == 0 {
        None
    } else if entries.last().0 == key {
        Some(entries.last().1)
    } else {
        lookup(entries.drop_last(), key)
    }
}

/// The smoothed average: `previous * (1 - rate) + sample * rate`.
pub open spec fn blend_raw(previous: int, sample: int, rate: int) -> int {
    sum_raw(
        product_raw(previous, difference_raw(SCALE as int, rate)),
        product_raw(sample, rate),
    )
}

/// Whether no step of the smoothed average leaves the range of the numbers.
pub open spec fn blend_exact(previous: int, sample: int, rate: int) -> bool {
    let keep = SCALE - rate;
    let left = quotient(previous * keep, SCALE as int);
    let right = quotient(sample * rate, SCALE as int);
    &&& i64::MIN <= keep <= i64::MAX
    &&& i64::MIN <= left <= i64::MAX
    &&& i64::MIN <= right <= i64::MAX
    &&& i64::MIN <= left + right <= i64::MAX
}

/// A quotient by the scale, rounded toward zero, lies less than one unit from
/// the exact quotient, on the side of zero.
pub proof fn lemma_quotient_near(x: int)
    ensures
        x - SCALE < quotient(x, SCALE as int) * SCALE < x + SCALE,
        x >= 0 ==> 0 <= quotient(x, SCALE as int) * SCALE <= x,
        x <= 0 ==> x <= quotient(x, SCALE as int) * SCALE <= 0,
{
    let m = magnitude(x);
    let q = m / (SCALE as int);
    assert(q * SCALE <= m < q * SCALE + SCALE && q >= 0) by (nonlinear_arith)
        requires
            q == m / (SCALE as int),
            m >= 0,
            SCALE == 100_000_000,
    ;
    assert((-q) * SCALE == -(q * SCALE)) by (nonlinear_arith);
}

/// With a rate between 0 and 1 no step of the smoothed average leaves the
/// range, whatever the numbers.
pub proof fn lemma_rate_keeps_exact(previous: int, sample: int, rate: int)
    requires
        i64::MIN <= previous <= i64::MAX,
        i64::MIN <= sample <= i64::MAX,
        0 <= rate <= SCALE,
    ensures
        blend_exact(previous, sample, rate),
{
    let keep = SCALE - rate;
    let left = quotient(previous * keep, SCALE as int);
    let right = quotient(sample * rate, SCALE as int);
    lemma_quotient_near(previous * keep);
    lemma_quotient_near(sample * rate);
    let lo = i64::MIN as int;
    let hi = i64::MAX as int;
    assert(lo * keep <= previous * keep <= hi * keep) by (nonlinear_arith)
        requires
            lo <= previous <= hi,
            keep >= 0,
    ;
    assert(lo * rate <= sample * rate <= hi * rate) by (nonlinear_arith)
        requires
            lo <= sample <= hi,
            rate >= 0,
    ;
    assert(lo * keep + lo * rate == lo * SCALE && hi * keep + hi * rate == hi * SCALE)
        by (nonlinear_arith)
        requires
            keep == SCALE - rate,
    ;
    assert(lo * keep <= 0 && lo * rate <= 0 && hi * keep >= 0 && hi * rate >= 0)
        by (nonlinear_arith)
        requires
            lo < 0,
            hi > 0,
            keep >= 0,
            rate >= 0,
    ;
    assert(lo * SCALE <= left * SCALE <= hi * SCALE);
    assert(lo * SCALE <= right * SCALE <= hi * SCALE);
    assert(lo * SCALE <= left * SCALE + right * SCALE <= hi * SCALE);
    assert((left + right) * SCALE == left * SCALE + right * SCALE) by (nonlinear_arith);
    assert(lo <= left <= hi) by (nonlinear_arith)
        requires
            lo * SCALE <= left * SCALE <= hi * SCALE,
            SCALE == 100_000_000,
    ;
    assert(lo <= right <= hi) by (nonlinear_arith)
        requires
            lo * SCALE <= right * SCALE <= hi * SCALE,
            SCALE == 100_000_000,
    ;
    assert(lo <= left + right <= hi) by (nonlinear_arith)
        requires
            lo * SCALE <= (left + right) * SCALE <= hi * SCALE,
            SCALE == 100_000_000,
    ;
}

/// Each smoothing step closes in on the sample by the factor `1 - rate`, up
/// to the rounding of the two products: where no step leaves the range, the
/// new distance to the sample, scaled, lies less than two units from
/// `(previous - sample) * (1 - rate)`.
pub proof fn lemma_blend_contracts(previous: int, sample: int, rate: int)
    requires
        blend_exact(previous, sample, rate),
    ensures
        -2 * SCALE < (blend_raw(previous, sample, rate) - sample) * SCALE - (previous - sample)
            * (SCALE - rate) < 2 * SCALE,
{
    let keep = SCALE - rate;
    let left = quotient(previous * keep, SCALE as int);
    let right = quotient(sample * rate, SCALE as int);
    lemma_quotient_near(previous * keep);
    lemma_quotient_near(sample * rate);
    assert(blend_raw(previous, sample, rate) == left + right);
    assert((previous - sample) * keep == previous * keep + sample * rate - sample * SCALE)
        by (nonlinear_arith)
        requires
            keep == SCALE - rate,
    ;
    assert((left + right - sample) * SCALE == left * SCALE + right * SCALE - sample * SCALE)
        by (nonlinear_arith);
}

/// A change of one entry changes the value of its key alone, where the entry
/// is the last one for its key.
pub proof fn lemma_lookup_update<Move>(
    entries: Seq<((Player, Move), Fixed)>,
    i: int,
    value: Fixed,
    key: (Player, Move),
)
    requires
        0 <= i < entries.len(),
        forall|j: int| i < j < entries.len() ==> (#[trigger] entries[j]).0 != entries[i].0,
    ensures
        lookup(entries.update(i, (entries[i].0, value)), key) == if key == entries[i].0 {
            Some(value)
        } else {
            lookup(entries, key)
        },
    decreases entries.len(),
{
    let changed = entries.update(i, (entries[i].0, value));
    if i == entries.len() - 1 {
        assert(changed.drop_last() =~= entries.drop_last());
    } else {
        assert(changed.drop_last() =~= entries.drop_last().update(i, (entries[i].0, value)));
        assert(entries.last().0 != entries[i].0);
        lemma_lookup_update(entries.drop_last(), i, value, key);
    }
}

/// A table from side and move to the smoothed average of the outcomes seen
/// for them.
pub struct MoveMap<Move: BarracudaMove> {
    move_map: Vec<((Player, Move), Fixed)>,
    rolling_avg: Fixed,
}

impl<Move: BarracudaMove> MoveMap<Move> {
    /// The entries in the order in which their keys were first seen.
    pub closed spec fn entries(self) -> Seq<((Player, Move), Fixed)> {
        self.move_map@
    }

    /// The weight of a new outcome in the average.
    pub closed spec fn rolling_avg(self) -> Fixed {
        self.rolling_avg
    }

    /// The value kept for `color` and `mv`.
    pub open spec fn value_of(self, color: Player, mv: Move) -> Option<Fixed> {
        lookup(self.entries(), (color, mv))
    }

    /// An empty table that gives each new outcome the weight `rolling_avg`.
    pub fn new(rolling_avg: Fixed) -> (table: Self)
        ensures
            table.entries().len() == 0,
            table.rolling_avg() == rolling_avg,
    {
        Self { move_map: Vec::new(), rolling_avg }
    }

    /// All entries.
    pub fn all_moves(&self) -> (all: Vec<((Player, Move), Fixed)>)
        ensures
            all@ == self.entries(),
    {
        let mut all: Vec<((Player, Move), Fixed)> = Vec::new();
        let mut i: usize = 0;
        while i < self.move_map.len()
            invariant
                i <= self.move_map@.len(),
                all@ == self.move_map@.take(i as int),
            decreases self.move_map@.len() - i,
        {
            let entry = self.move_map[i];
            all.push(entry);
            assert(all@ =~= self.move_map@.take(i + 1));
            i += 1;
        }
        assert(self.move_map@.take(self.move_map@.len() as int) =~= self.move_map@);
        all
    }

    /// The index of the last entry for the key, if there is one.
    fn position(&self, color: Player, mv: Move) -> (found: Option<usize>)
        ensures
            match found {
                Some(i) => {
                    &&& i < self.entries().len()
                    &&& self.entries()[i as int].0 == (color, mv)
                    &&& lookup(self.entries(), (color, mv)) == Some(self.entries()[i as int].1)
                    &&& forall|j: int|
                        i < j < self.entries().len() ==> (#[trigger] self.entries()[j]).0 != (
                            color,
                            mv,
                        )
                },
                None => lookup(self.entries(), (color, mv)).is_none(),
            },
    {
        let mut i: usize = self.move_map.len();
        assert(self.move_map@.take(i as int) =~= self.move_map@);
        while i > 0
            invariant
                i <= self.move_map@.len(),
                lookup(self.move_map@, (color, mv)) == lookup(
                    self.move_map@.take(i as int),
                    (color, mv),
                ),
                forall|j: int|
                    i <= j < self.move_map@.len() ==> (#[trigger] self.move_map@[j]).0 != (
                        color,
                        mv,
                    ),
            decreases i,
        {
            i -= 1;
            let entry = self.move_map[i];
            proof {
                let upto = self.move_map@.take(i + 1);
                assert(upto.last() == self.move_map@[i as int]);
                assert(upto.drop_last() =~= self.move_map@.take(i as int));
            }
            if entry.0.0 == color && entry.0.1.same(&mv) {
                return Some(i);
            }
        }
        proof {
            assert(self.move_map@.take(0).len() == 0);
        }
        None
    }

    /// Takes in an outcome for `color` and `mv`: the first one is kept as it
    /// is, a later one is blended into the average. No other key is touched.
    pub fn add(&mut self, color: Player, mv: Move, score: Fixed)
        ensures
            final(self).rolling_avg() == old(self).rolling_avg(),
            final(self).value_of(color, mv) == Some(
                match old(self).value_of(color, mv) {
                    Some(previous) => Fixed {
                        raw: blend_raw(previous@, score@, old(self).rolling_avg()@) as i64,
                    },
                    None => score,
                },
            ),
            forall|other: (Player, Move)|
                other != (color, mv) ==> lookup(final(self).entries(), other) == lookup(
                    old(self).entries(),
                    other,
                ),
            final(self).entries().len() == old(self).entries().len() + if old(self).value_of(
                color,
                mv,
            ).is_some() {
                0int
            } else {
                1int
            },
    {
        match self.position(color, mv) {
            Some(i) => {
                let previous = self.move_map[i].1;
                let keep = Fixed::one().minus(self.rolling_avg);
                let blended = previous.times(keep).plus(score.times(self.rolling_avg));
                proof {
                    assert forall|other: (Player, Move)|
                        lookup(
                            self.move_map@.update(i as int, ((color, mv), blended)),
                            other,
                        ) == if other == (color, mv) {
                            Some(blended)
                        } else {
                            lookup(self.move_map@, other)
                        } by {
                        lemma_lookup_update(self.move_map@, i as int, blended, other);
                    }
                }
                self.move_map[i] = ((color, mv), blended);
            },
            None => {
                let ghost before = self.move_map@;
                self.move_map.push(((color, mv), score));
                proof {
                    assert(self.move_map@.drop_last() =~= before);
                }
            },
        }
    }

    /// The value kept for `color` and `mv`.
    pub fn get(&self, color: Player, mv: Move) -> (value: Option<Fixed>)
        ensures
            value == self.value_of(color, mv),
    {
        match self.position(color, mv) {
            Some(i) => Some(self.move_map[i].1),
            None => None,
        }
    }
}

/// The value of a looked-up entry, or 0 where there is none.
pub open spec fn or_zero(value: Option<Fixed>) -> int {
    match value {
        Some(v) => v@,
        None => 0,
    }
}

/// Move-average sampling: remembers for each side and move the smoothed
/// outcome of the playouts that began with it, and gives a node the value of
/// the move that led to it, over the node's visits.
pub struct Mast<Board: BarracudaBoard<Params, Move>, Params: BarracudaParams, Move: BarracudaMove> {
    move_map: MoveMap<Move>,
    p: PhantomData<(Board, Params)>,
}

impl<
    Board: BarracudaBoard<Params, Move>,
    Params: BarracudaParams,
    Move: BarracudaMove,
> BarracudaAlgorithm for Mast<Board, Params, Move> {

}

impl<Board: BarracudaBoard<Params, Move>, Params: BarracudaParams, Move: BarracudaMove> Mast<
    Board,
    Params,
    Move,
> {
    /// The table of move values.
    pub closed spec fn table(self) -> MoveMap<Move> {
        self.move_map
    }

    /// An empty memory that gives each new outcome the weight `rolling_avg`.
    pub fn new(rolling_avg: Fixed) -> (mast: Self)
        ensures
            mast.table().entries().len() == 0,
            mast.table().rolling_avg() == rolling_avg,
    {
        Self { move_map: MoveMap::new(rolling_avg), p: PhantomData }
    }

    /// The value kept for each of `moves` with the side to move on `board`,
    /// 0 for a move without one: the scores from which a move is drawn.
    pub fn scores(&self, board: &Board, moves: &[Move]) -> (scores: Vec<Fixed>)
        ensures
            scores@.len() == moves@.len(),
            forall|k: int|
                0 <= k < moves@.len() ==> (#[trigger] scores@[k])@ == or_zero(
                    self.table().value_of(Board::to_move(board@), moves@[k]),
                ),
    {
        let side = board.turn();
        let mut scores: Vec<Fixed> = Vec::new();
        let mut k: usize = 0;
        while k < moves.len()
            invariant
                k <= moves@.len(),
                side == Board::to_move(board@),
                scores@.len() == k,
                forall|j: int|
                    0 <= j < k ==> (#[trigger] scores@[j])@ == or_zero(
                        self.table().value_of(side, moves@[j]),
                    ),
            decreases moves@.len() - k,
        {
            let score = match self.move_map.get(side, moves[k]) {
                Some(v) => v,
                None => Fixed::zero(),
            };
            scores.push(score);
            k += 1;
        }
        scores
    }
}

impl<
    Board: BarracudaBoard<Params, Move>,
    Params: BarracudaParams,
    Move: BarracudaMove,
    const DATA_REGISTERS: usize,
> BarracudaSimulationParams<Board, Params, Move, DATA_REGISTERS> for Mast<Board, Params, Move> {
    fn set_node(
        &mut self,
        tree: &mut Tree<Board, Params, Move, DATA_REGISTERS>,
        node: usize,
        last_move: &Move,
        eval: Fixed,
    )
        ensures
            *final(tree) == *old(tree),
            final(self).table().rolling_avg() == old(self).table().rolling_avg(),
            ({
                let side = Board::to_move(old(tree).nodes@[node as int].board@);
                &&& final(self).table().value_of(side, *last_move) == Some(
                    match old(self).table().value_of(side, *last_move) {
                        Some(previous) => Fixed {
                            raw: blend_raw(previous@, eval@, old(self).table().rolling_avg()@) as i64,
                        },
                        None => eval,
                    },
                )
                &&& forall|other: (Player, Move)|
                    other != (side, *last_move) ==> lookup(final(self).table().entries(), other)
                        == lookup(old(self).table().entries(), other)
            }),
    {
        let side = tree.nodes[node].board.turn();
        self.move_map.add(side, *last_move, eval);
    }
}

impl<
    Board: BarracudaBoard<Params, Move>,
    Params: BarracudaParams,
    Move: BarracudaMove,
    const DATA_REGISTERS: usize,
> Formula<Board, Params, Move, DATA_REGISTERS> for Mast<Board, Params, Move> {
    open spec fn value(&self, tree: Tree<Board, Params, Move, DATA_REGISTERS>, node: usize, last_move: Move) -> Fixed {
        Fixed {
            raw: ratio_raw(
                or_zero(
                    self.table().value_of(Board::to_move(tree.nodes@[node as int].board@), last_move),
                ),
                tree.nodes@[node as int].visits@,
            ) as i64,
        }
    }

    open spec fn told(
        before: Self,
        tree: Tree<Board, Params, Move, DATA_REGISTERS>,
        event: Event<Move>,
        after: Self,
        tree_after: Tree<Board, Params, Move, DATA_REGISTERS>,
    ) -> bool {
        match event {
            Event::Playout { node, last_move, eval } => {
                let side = Board::to_move(tree.nodes@[node as int].board@);
                &&& tree_after == tree
                &&& after.table().rolling_avg() == before.table().rolling_avg()
                &&& after.table().value_of(side, last_move) == Some(
                    match before.table().value_of(side, last_move) {
                        Some(previous) => Fixed {
                            raw: blend_raw(previous@, eval@, before.table().rolling_avg()@) as i64,
                        },
                        None => eval,
                    },
                )
                &&& forall|other: (Player, Move)|
                    other != (side, last_move) ==> lookup(after.table().entries(), other)
                        == lookup(before.table().entries(), other)
            },
            _ => after == before && tree_after == tree,
        }
    }

    open spec fn plain(&self) -> bool {
        true
    }

    fn get(&self, tree: &Tree<Board, Params, Move, DATA_REGISTERS>, node: usize, last_move: &Move) -> (r: Fixed) {
        let state = &tree.nodes[node];
        let kept = match self.move_map.get(state.board.turn(), *last_move) {
            Some(v) => v,
            None => Fixed::zero(),
        };
        kept.divided_by(state.visits)
    }

    fn on_score(&mut self, tree: &mut Tree<Board, Params, Move, DATA_REGISTERS>, node: usize, last_move: &Move) {
    }

    fn on_playout(
        &mut self,
        tree: &mut Tree<Board, Params, Move, DATA_REGISTERS>,
        node: usize,
        last_move: &Move,
        eval: Fixed,
    ) {
        BarracudaSimulationParams::set_node(self, tree, node, last_move, eval);
    }

    fn on_backprop(&mut self, tree: &mut Tree<Board, Params, Move, DATA_REGISTERS>, node: usize, score: Fixed) {
    }
}

/// What is kept for a position: the sum of the outcomes propagated through
/// it and their number.
pub struct TableEntry<Board> {
    pub board: Board,
    pub score: Fixed,
    pub visits: Fixed,
}

/// The index of the last entry for `position`, or -1.
pub open spec fn slot<Board: View>(entries: Seq<TableEntry<Board>>, position: Board::V) -> int
    decreases entries.len(),
{
    if entries.len() == 0 {
        -1
    } else if entries.last().board@ == position {
        entries.len() - 1
    } else {
        slot(entries.drop_last(), position)
    }
}

/// The slot of a position is the last entry that holds it.
pub proof fn lemma_slot<Board: View>(entries: Seq<TableEntry<Board>>, position: Board::V)
    ensures
        -1 <= slot(entries, position) < entries.len(),
        slot(entries, position) >= 0 ==> entries[slot(entries, position)].board@ == position,
        forall|j: int|
            slot(entries, position) < j < entries.len() ==> (#[trigger] entries[j]).board@
                != position,
    decreases entries.len(),
{
    if entries.len() > 0 && entries.last().board@ != position {
        let front = entries.drop_last();
        lemma_slot(front, position);
        assert forall|j: int| slot(entries, position) < j < entries.len() implies (
        #[trigger] entries[j]).board@ != position by {
            if j < front.len() {
                assert(front[j] == entries[j]);
            }
        }
    }
}

/// A change of the numbers of one entry moves no slot.
pub proof fn lemma_slot_update<Board: View>(
    entries: Seq<TableEntry<Board>>,
    i: int,
    entry: TableEntry<Board>,
    position: Board::V,
)
    requires
        0 <= i < entries.len(),
        entry.board@ == entries[i].board@,
    ensures
        slot(entries.update(i, entry), position) == slot(entries, position),
    decreases entries.len(),
{
    let changed = entries.update(i, entry);
    if i == entries.len() - 1 {
        assert(changed.drop_last() =~= entries.drop_last());
    } else {
        assert(changed.drop_last() =~= entries.drop_last().update(i, entry));
        lemma_slot_update(entries.drop_last(), i, entry, position);
    }
}

/// Statistics by position, shared by all the ways that lead to it. The
/// search updates the entries that exist and adds none.
pub struct TranspositionTable<
    Board: BarracudaBoard<Params, Move>,
    Params: BarracudaParams,
    Move: BarracudaMove,
    const DATA_REGISTERS: usize,
> {
    table: Vec<TableEntry<Board>>,
    p: PhantomData<(Params, Move)>,
}

impl<
    Board: BarracudaBoard<Params, Move>,
    Params: BarracudaParams,
    Move: BarracudaMove,
    const DATA_REGISTERS: usize,
> BarracudaAlgorithm for TranspositionTable<Board, Params, Move, DATA_REGISTERS> {

}

impl<
    Board: BarracudaBoard<Params, Move>,
    Params: BarracudaParams,
    Move: BarracudaMove,
    const DATA_REGISTERS: usize,
> TranspositionTable<Board, Params, Move, DATA_REGISTERS> {
    /// The entries.
    pub closed spec fn entries(self) -> Seq<TableEntry<Board>> {
        self.table@
    }

    /// What is kept for `position`.
    pub open spec fn stats_of(self, position: Board::V) -> Option<(Fixed, Fixed)> {
        let i = slot(self.entries(), position);
        if i >= 0 {
            Some((self.entries()[i].score, self.entries()[i].visits))
        } else {
            None
        }
    }

    /// An empty table.
    pub fn new() -> (table: Self)
        ensures
            table.entries().len() == 0,
    {
        Self { table: Vec::new(), p: PhantomData }
    }

    /// Forgets every position.
    pub fn clear(&mut self)
        ensures
            final(self).entries().len() == 0,
    {
        self.table.clear();
    }

    /// The index of the last entry for the position of `board`.
    fn find(&self, board: &Board) -> (found: Option<usize>)
        ensures
            match found {
                Some(i) => i == slot(self.entries(), board@),
                None => slot(self.entries(), board@) == -1,
            },
    {
        let mut i: usize = self.table.len();
        assert(self.table@.take(i as int) =~= self.table@);
        while i > 0
            invariant
                i <= self.table@.len(),
                slot(self.table@, board@) == slot(self.table@.take(i as int), board@),
            decreases i,
        {
            i -= 1;
            proof {
                let upto = self.table@.take(i + 1);
                assert(upto.last() == self.table@[i as int]);
                assert(upto.drop_last() =~= self.table@.take(i as int));
            }
            if self.table[i].board.same_position(board) {
                return Some(i);
            }
        }
        proof {
            assert(self.table@.take(0).len() == 0);
        }
        None
    }

    /// Starts the statistics of the position of `board` with the given
    /// numbers, in place of what was kept for it.
    pub fn seed(&mut self, board: Board, score: Fixed, visits: Fixed)
        ensures
            final(self).stats_of(board@) == Some((score, visits)),
            forall|other: Board::V|
                other != board@ ==> final(self).stats_of(other) == old(self).stats_of(other),
    {
        let ghost before = self.table@;
        let ghost position = board@;
        self.table.push(TableEntry { board, score, visits });
        proof {
            assert(self.table@.drop_last() =~= before);
            assert forall|other: Board::V| other != position implies self.stats_of(other) == old(self).stats_of(other) by {
                lemma_slot(before, other);
                let i = slot(before, other);
                if i >= 0 {
                    assert(self.table@[i] == before[i]);
                }
            }
        }
    }
}

impl<
    Board: BarracudaBoard<Params, Move>,
    Params: BarracudaParams,
    Move: BarracudaMove,
    const DATA_REGISTERS: usize,
> Backprop<Board, Params, Move, DATA_REGISTERS> for TranspositionTable<
    Board,
    Params,
    Move,
    DATA_REGISTERS,
> {
    fn backprop(
        &mut self,
        tree: &mut Tree<Board, Params, Move, DATA_REGISTERS>,
        node: usize,
        score: Fixed,
    )
        ensures
            *final(tree) == *old(tree),
            ({
                let position = old(tree).nodes@[node as int].board@;
                &&& final(self).stats_of(position) == match old(self).stats_of(position) {
                    Some((s, v)) => Some(
                        (
                            Fixed { raw: sum_raw(s@, score@) as i64 },
                            Fixed { raw: sum_raw(v@, SCALE as int) as i64 },
                        ),
                    ),
                    None => None,
                }
                &&& forall|other: Board::V|
                    other != position ==> final(self).stats_of(other) == old(self).stats_of(
                        other,
                    )
            }),
    {
        let ghost position = tree.nodes@[node as int].board@;
        let ghost before = self.table@;
        match self.find(&tree.nodes[node].board) {
            Some(i) => {
                proof {
                    lemma_slot(before, position);
                }
                let s = self.table[i].score.plus(score);
                let v = self.table[i].visits.plus(Fixed::one());
                self.table[i].score = s;
                self.table[i].visits = v;
                proof {
                    let entry = self.table@[i as int];
                    assert(self.table@ =~= before.update(i as int, entry));
                    assert(entry.board == before[i as int].board);
                    lemma_slot_update(before, i as int, entry, position);
                    assert forall|other: Board::V| other != position implies self.stats_of(
                        other,
                    ) == old(self).stats_of(other) by {
                        lemma_slot_update(before, i as int, entry, other);
                        lemma_slot(before, other);
                    }
                }
            },
            None => {},
        }
    }
}

impl<
    Board: BarracudaBoard<Params, Move>,
    Params: BarracudaParams,
    Move: BarracudaMove,
    const DATA_REGISTERS: usize,
> Formula<Board, Params, Move, DATA_REGISTERS> for TranspositionTable<
    Board,
    Params,
    Move,
    DATA_REGISTERS,
> {
    open spec fn value(&self, tree: Tree<Board, Params, Move, DATA_REGISTERS>, node: usize, last_move: Move) -> Fixed {
        match self.stats_of(tree.nodes@[node as int].board@) {
            Some((s, v)) => Fixed { raw: difference_raw(SCALE as int, ratio_raw(s@, v@)) as i64 },
            None => Fixed { raw: 0 },
        }
    }

    open spec fn told(
        before: Self,
        tree: Tree<Board, Params, Move, DATA_REGISTERS>,
        event: Event<Move>,
        after: Self,
        tree_after: Tree<Board, Params, Move, DATA_REGISTERS>,
    ) -> bool {
        match event {
            Event::Backprop { node, score } => {
                let position = tree.nodes@[node as int].board@;
                &&& tree_after == tree
                &&& after.stats_of(position) == match before.stats_of(position) {
                    Some((s, v)) => Some(
                        (
                            Fixed { raw: sum_raw(s@, score@) as i64 },
                            Fixed { raw: sum_raw(v@, SCALE as int) as i64 },
                        ),
                    ),
                    None => None,
                }
                &&& forall|other: Board::V|
                    other != position ==> after.stats_of(other) == before.stats_of(other)
            },
            _ => after == before && tree_after == tree,
        }
    }

    open spec fn plain(&self) -> bool {
        true
    }

    fn get(&self, tree: &Tree<Board, Params, Move, DATA_REGISTERS>, node: usize, last_move: &Move) -> (r: Fixed) {
        proof {
            lemma_slot(self.table@, tree.nodes@[node as int].board@);
        }
        match self.find(&tree.nodes[node].board) {
            Some(i) => Fixed::one().minus(self.table[i].score.divided_by(self.table[i].visits)),
            None => Fixed::zero(),
        }
    }

    fn on_score(&mut self, tree: &mut Tree<Board, Params, Move, DATA_REGISTERS>, node: usize, last_move: &Move) {
    }

    fn on_playout(
        &mut self,
        tree: &mut Tree<Board, Params, Move, DATA_REGISTERS>,
        node: usize,
        last_move: &Move,
        eval: Fixed,
    ) {
    }

    fn on_backprop(&mut self, tree: &mut Tree<Board, Params, Move, DATA_REGISTERS>, node: usize, score: Fixed) {
        self.backprop(tree, node, score);
    }
}

/// The number of steps from vertex `from` up to vertex `to`, where `to` is
/// `from` itself or lies above it.
pub open spec fn steps_up<
    Board: BarracudaBoard<Params, Move>,
    Params: BarracudaParams,
    Move: BarracudaMove,
    const DATA_REGISTERS: usize,
>(tree: Tree<Board, Params, Move, DATA_REGISTERS>, from: int, to: int) -> Option<nat>
    decreases from,
{
    if from < 0 || from >= tree.nodes@.len() {
        None
    } else if from == to {
        Some(0)
    } else {
        match tree.nodes@[from].parent {
            Some(p) => if p < from {
                match steps_up(tree, p as int, to) {
                    Some(d) => Some(d + 1),
                    None => None,
                }
            } else {
                None
            },
            None => None,
        }
    }
}

/// Whether the result of a playout that began with `mv` at vertex `node` is
/// shared with vertex `i`: with `node` itself, and with every vertex an even
/// number of steps above it, four at least, that has `mv` among its moves.
pub open spec fn shares<
    Board: BarracudaBoard<Params, Move>,
    Params: BarracudaParams,
    Move: BarracudaMove,
    const DATA_REGISTERS: usize,
>(tree: Tree<Board, Params, Move, DATA_REGISTERS>, node: int, i: int, mv: Move) -> bool {
    i == node || match steps_up(tree, node, i) {
        Some(d) => d > 2 && d % 2 == 0 && tree.nodes@[i].moves@.contains(mv),
        None => false,
    }
}

/// The registers after a result was added: `eval` to register `s`, then one
/// to register `v`.
pub open spec fn bumped(registers: Seq<Fixed>, s: int, v: int, eval: int) -> Seq<Fixed> {
    let scored = registers.update(s, Fixed { raw: sum_raw(registers[s]@, eval) as i64 });
    scored.update(v, Fixed { raw: sum_raw(scored[v]@, SCALE as int) as i64 })
}

/// A vertex is not above the vertices that come before it.
pub proof fn lemma_steps_bound<
    Board: BarracudaBoard<Params, Move>,
    Params: BarracudaParams,
    Move: BarracudaMove,
    const DATA_REGISTERS: usize,
>(tree: Tree<Board, Params, Move, DATA_REGISTERS>, from: int, to: int)
    requires
        steps_up(tree, from, to).is_some(),
    ensures
        0 <= to <= from < tree.nodes@.len(),
    decreases from,
{
    if from != to {
        lemma_steps_bound(tree, tree.nodes@[from].parent.unwrap() as int, to);
    }
}

/// The parent of a vertex above `node` lies one step further up.
pub proof fn lemma_steps_parent<
    Board: BarracudaBoard<Params, Move>,
    Params: BarracudaParams,
    Move: BarracudaMove,
    const DATA_REGISTERS: usize,
>(tree: Tree<Board, Params, Move, DATA_REGISTERS>, node: int, at: int, d: nat)
    requires
        tree.wf(),
        steps_up(tree, node, at) == Some(d),
        tree.nodes@[at].parent.is_some(),
    ensures
        steps_up(tree, node, tree.nodes@[at].parent.unwrap() as int) == Some(d + 1),
    decreases node,
{
    lemma_steps_bound(tree, node, at);
    let p = tree.nodes@[at].parent.unwrap() as int;
    assert(tree.node_wf(at));
    if node == at {
        assert(steps_up(tree, p, p) == Some(0nat));
    } else {
        let q = tree.nodes@[node as int].parent.unwrap() as int;
        lemma_steps_parent(tree, q, at, (d - 1) as nat);
        lemma_steps_bound(tree, q, at);
    }
}

/// No vertex between a vertex above `node` and its parent is above `node`.
pub proof fn lemma_steps_between<
    Board: BarracudaBoard<Params, Move>,
    Params: BarracudaParams,
    Move: BarracudaMove,
    const DATA_REGISTERS: usize,
>(tree: Tree<Board, Params, Move, DATA_REGISTERS>, node: int, at: int, i: int)
    requires
        tree.wf(),
        steps_up(tree, node, at).is_some(),
        match tree.nodes@[at].parent {
            Some(p) => p < i < at,
            None => i < at,
        },
    ensures
        steps_up(tree, node, i).is_none(),
    decreases node,
{
    lemma_steps_bound(tree, node, at);
    if node == at {
        match tree.nodes@[at].parent {
            Some(p) => {
                if steps_up(tree, p as int, i).is_some() {
                    lemma_steps_bound(tree, p as int, i);
                }
            },
            None => {},
        }
    } else {
        let q = tree.nodes@[node as int].parent.unwrap() as int;
        lemma_steps_between(tree, q, at, i);
    }
}

/// Rapid action values: every node carries, in two registers, the sum and
/// the number of the playout results that are shared with it, and is scored
/// by their quotient.
pub struct Rave<Board: BarracudaBoard<Params, Move>, Params: BarracudaParams, Move: BarracudaMove> {
    score_register: usize,
    visit_register: usize,
    p: PhantomData<(Board, Params, Move)>,
}

impl<
    Board: BarracudaBoard<Params, Move>,
    Params: BarracudaParams,
    Move: BarracudaMove,
> BarracudaAlgorithm for Rave<Board, Params, Move> {

}

/// Whether `mv` is among `moves`.
pub fn has_move<Move: BarracudaMove>(moves: &Vec<Move>, mv: &Move) -> (found: bool)
    ensures
        found == moves@.contains(*mv),
{
    let mut k: usize = 0;
    while k < moves.len()
        invariant
            k <= moves@.len(),
            forall|j: int| 0 <= j < k ==> moves@[j] != *mv,
        decreases moves@.len() - k,
    {
        if moves[k].same(mv) {
            return true;
        }
        k += 1;
    }
    false
}

impl<Board: BarracudaBoard<Params, Move>, Params: BarracudaParams, Move: BarracudaMove> Rave<
    Board,
    Params,
    Move,
> {
    /// The register of the sum and the register of the number.
    pub closed spec fn registers(self) -> (usize, usize) {
        (self.score_register, self.visit_register)
    }

    /// The term that keeps its sum in `score_register` and its number in
    /// `visit_register`.
    pub fn new(score_register: usize, visit_register: usize) -> (rave: Self)
        ensures
            rave.registers() == (score_register, visit_register),
    {
        Self { score_register, visit_register, p: PhantomData }
    }

    /// Adds a result to the two registers of vertex `i`.
    fn bump<const DATA_REGISTERS: usize>(
        &self,
        tree: &mut Tree<Board, Params, Move, DATA_REGISTERS>,
        i: usize,
        eval: Fixed,
    )
        requires
            old(tree).wf(),
            i < old(tree).nodes@.len(),
            self.score_register < DATA_REGISTERS,
            self.visit_register < DATA_REGISTERS,
        ensures
            final(tree).same_structure(*old(tree)),
            final(tree).nodes@[i as int].registers@ == bumped(
                old(tree).nodes@[i as int].registers@,
                self.score_register as int,
                self.visit_register as int,
                eval@,
            ),
            forall|j: int|
                0 <= j < old(tree).nodes@.len() && j != i ==> final(tree).nodes@[j] == old(tree).nodes@[j],
    {
        assert(tree.node_wf(i as int));
        let ghost before = *tree;
        let sum = tree.nodes[i].registers[self.score_register].plus(eval);
        tree.nodes[i].registers[self.score_register] = sum;
        let count = tree.nodes[i].registers[self.visit_register].plus(Fixed::one());
        tree.nodes[i].registers[self.visit_register] = count;
        proof {
            assert(tree.nodes@[i as int].registers@ =~= bumped(
                before.nodes@[i as int].registers@,
                self.score_register as int,
                self.visit_register as int,
                eval@,
            ));
            assert forall|j: int| 0 <= j < tree.nodes@.len() implies {
                let a = #[trigger] tree.nodes@[j];
                let b = before.nodes@[j];
                &&& a.board@ == b.board@
                &&& a.moves@ == b.moves@
                &&& a.child_nodes@ == b.child_nodes@
                &&& a.parent == b.parent
                &&& a.score == b.score
                &&& a.visits == b.visits
                &&& a.registers@.len() == b.registers@.len()
            } by {}
        }
    }
}

impl<
    Board: BarracudaBoard<Params, Move>,
    Params: BarracudaParams,
    Move: BarracudaMove,
    const DATA_REGISTERS: usize,
> BarracudaSimulationParams<Board, Params, Move, DATA_REGISTERS> for Rave<Board, Params, Move> {
    fn set_node(
        &mut self,
        tree: &mut Tree<Board, Params, Move, DATA_REGISTERS>,
        node: usize,
        last_move: &Move,
        eval: Fixed,
    )
        ensures
            final(self).registers() == old(self).registers(),
            ({
                let s = old(self).registers().0 as int;
                let v = old(self).registers().1 as int;
                if s < DATA_REGISTERS && v < DATA_REGISTERS {
                    forall|i: int|
                        0 <= i < old(tree).nodes@.len() ==> (#[trigger] final(tree).nodes@[i]).registers@
                            == if shares(
                            *old(tree),
                            node as int,
                            i,
                            *last_move,
                        ) {
                            bumped(old(tree).nodes@[i].registers@, s, v, eval@)
                        } else {
                            old(tree).nodes@[i].registers@
                        }
                } else {
                    *final(tree) == *old(tree)
                }
            }),
    {
        if self.score_register >= DATA_REGISTERS || self.visit_register >= DATA_REGISTERS {
            return ;
        }
        let ghost t0 = *tree;
        let ghost s = self.score_register as int;
        let ghost v = self.visit_register as int;
        let ghost mv = *last_move;
        self.bump(tree, node, eval);
        proof {
            tree.lemma_same_structure_wf(t0);
            assert(steps_up(t0, node as int, node as int) == Some(0nat));
            assert forall|i: int| node < i < t0.nodes@.len() implies !shares(
                t0,
                node as int,
                i,
                mv,
            ) by {
                if steps_up(t0, node as int, i).is_some() {
                    lemma_steps_bound(t0, node as int, i);
                }
            }
        }
        let mut skips: usize = 0;
        let mut current: usize = node;
        loop
            invariant
                t0.wf(),
                tree.wf(),
                tree.same_structure(t0),
                s == self.score_register,
                v == self.visit_register,
                s < DATA_REGISTERS,
                v < DATA_REGISTERS,
                mv == *last_move,
                node < t0.nodes@.len(),
                current <= node,
                skips <= node - current,
                steps_up(t0, node as int, current as int) == Some(skips as nat),
                forall|i: int|
                    current <= i < t0.nodes@.len() ==> (#[trigger] tree.nodes@[i]).registers@
                        == if shares(t0, node as int, i, mv) {
                        bumped(t0.nodes@[i].registers@, s, v, eval@)
                    } else {
                        t0.nodes@[i].registers@
                    },
                forall|i: int|
                    0 <= i < current ==> (#[trigger] tree.nodes@[i]).registers@
                        == t0.nodes@[i].registers@,
            ensures
                tree.wf(),
                tree.same_structure(t0),
                forall|i: int|
                    0 <= i < t0.nodes@.len() ==> (#[trigger] tree.nodes@[i]).registers@
                        == if shares(t0, node as int, i, mv) {
                        bumped(t0.nodes@[i].registers@, s, v, eval@)
                    } else {
                        t0.nodes@[i].registers@
                    },
            decreases current,
        {
            assert(tree.node_wf(current as int));
            assert(t0.node_wf(current as int));
            match tree.nodes[current].parent {
                None => {
                    proof {
                        assert forall|i: int| 0 <= i < current implies !shares(
                            t0,
                            node as int,
                            i,
                            mv,
                        ) by {
                            lemma_steps_between(t0, node as int, current as int, i);
                        }
                    }
                    break ;
                },
                Some(parent) => {
                    proof {
                        lemma_steps_parent(t0, node as int, current as int, skips as nat);
                        assert forall|i: int| parent < i < current implies !shares(
                            t0,
                            node as int,
                            i,
                            mv,
                        ) by {
                            lemma_steps_between(t0, node as int, current as int, i);
                        }
                    }
                    skips += 1;
                    let ghost entered = *tree;
                    if skips > 2 && skips % 2 == 0 && has_move(&tree.nodes[parent].moves, last_move) {
                        self.bump(tree, parent, eval);
                        proof {
                            tree.lemma_same_structure_wf(entered);
                            tree.lemma_same_structure_trans(entered, t0);
                        }
                    }
                    current = parent;
                },
            }
        }
    }
}

impl<
    Board: BarracudaBoard<Params, Move>,
    Params: BarracudaParams,
    Move: BarracudaMove,
    const DATA_REGISTERS: usize,
> Formula<Board, Params, Move, DATA_REGISTERS> for Rave<Board, Params, Move> {
    open spec fn value(&self, tree: Tree<Board, Params, Move, DATA_REGISTERS>, node: usize, last_move: Move) -> Fixed {
        let s = self.registers().0 as int;
        let v = self.registers().1 as int;
        let registers = tree.nodes@[node as int].registers@;
        if s < DATA_REGISTERS && v < DATA_REGISTERS {
            Fixed { raw: ratio_raw(registers[s]@, sum_raw(registers[v]@, 1)) as i64 }
        } else {
            Fixed { raw: 0 }
        }
    }

    open spec fn told(
        before: Self,
        tree: Tree<Board, Params, Move, DATA_REGISTERS>,
        event: Event<Move>,
        after: Self,
        tree_after: Tree<Board, Params, Move, DATA_REGISTERS>,
    ) -> bool {
        match event {
            Event::Playout { node, last_move, eval } => {
                let s = before.registers().0 as int;
                let v = before.registers().1 as int;
                &&& after.registers() == before.registers()
                &&& if s < DATA_REGISTERS && v < DATA_REGISTERS {
                    forall|i: int|
                        0 <= i < tree.nodes@.len() ==> (#[trigger] tree_after.nodes@[i]).registers@
                            == if shares(tree, node as int, i, last_move) {
                            bumped(tree.nodes@[i].registers@, s, v, eval@)
                        } else {
                            tree.nodes@[i].registers@
                        }
                } else {
                    tree_after == tree
                }
            },
            _ => after == before && tree_after == tree,
        }
    }

    open spec fn plain(&self) -> bool {
        false
    }

    fn get(&self, tree: &Tree<Board, Params, Move, DATA_REGISTERS>, node: usize, last_move: &Move) -> (r: Fixed) {
        assert(tree.node_wf(node as int));
        if self.score_register >= DATA_REGISTERS || self.visit_register >= DATA_REGISTERS {
            Fixed::zero()
        } else {
            let state = &tree.nodes[node];
            state.registers[self.score_register].divided_by(
                state.registers[self.visit_register].plus(Fixed::epsilon()),
            )
        }
    }

    fn on_score(&mut self, tree: &mut Tree<Board, Params, Move, DATA_REGISTERS>, node: usize, last_move: &Move) {
    }

    fn on_playout(
        &mut self,
        tree: &mut Tree<Board, Params, Move, DATA_REGISTERS>,
        node: usize,
        last_move: &Move,
        eval: Fixed,
    ) {
        BarracudaSimulationParams::set_node(self, tree, node, last_move, eval);
    }

    fn on_backprop(&mut self, tree: &mut Tree<Board, Params, Move, DATA_REGISTERS>, node: usize, score: Fixed) {
    }
}

} // verus!
