//! A static evaluation of Connect Four: pieces count for more the nearer
//! their column is to the middle of the grid.

use crate::cf::{CfParams, ConnectFour, Position};
use crate::components::StaticEval;
use crate::fixed::{difference_raw, sum_raw, Fixed, SCALE};
use crate::traits::{BarracudaAlgorithm, BarracudaBoard, Player};
use vstd::prelude::*;

verus! {

/// What a piece in column `index` of `width` columns counts: one over one
/// plus the square of the column's distance from the middle, rounded down.
pub open spec fn column_weight(index: int, width: int) -> int {
    (4 * SCALE) / (4 + (2 * index - width) * (2 * index - width))
}

/// The evaluation after the first `k` cells of a column whose pieces count
/// `weight`, begun at `start`: pieces of the first side add, pieces of the
/// second take away.
pub open spec fn tally(col: Seq<Option<Player>>, k: nat, weight: int, start: int) -> int
    decreases k,
{
    if k == 0 {
        start
    } else {
        let before = tally(col, (k - 1) as nat, weight, start);
        match col[k - 1] {
            Some(Player::P1) => sum_raw(before, weight),
            Some(Player::P2) => difference_raw(before, weight),
            None => before,
        }
    }
}

/// The evaluation after the first `c` columns.
pub open spec fn tally_columns(cells: Seq<Seq<Option<Player>>>, c: nat) -> int
    decreases c,
{
    if c == 0 {
        0
    } else {
        tally(
            cells[c - 1],
            cells[c - 1].len(),
            column_weight(c - 1, cells.len() as int),
            tally_columns(cells, (c - 1) as nat),
        )
    }
}

/// The evaluation of a position for the side to move.
pub open spec fn evaluation(p: Position) -> int {
    let total = tally_columns(p.cells, p.cells.len());
    match p.turn {
        Player::P1 => total,
        Player::P2 => difference_raw(0, total),
    }
}

/// What a piece in column `index` of `width` columns counts.
pub fn weight_of(index: usize, width: usize) -> (weight: Fixed)
    ensures
        weight@ == column_weight(index as int, width as int),
{
    let twice: u128 = 2 * (index as u128);
    let w: u128 = width as u128;
    let d: u128 = if twice >= w {
        twice - w
    } else {
        w - twice
    };
    let ghost e = 2 * index - width;
    assert(e * e == d * d) by (nonlinear_arith)
        requires
            e == d || e == -d,
    ;
    if d >= 20000 {
        assert(d * d >= 400_000_000) by (nonlinear_arith)
            requires
                d >= 20000,
        ;
        assert((4 * SCALE) / (4 + d * d) == 0) by (nonlinear_arith)
            requires
                d * d >= 400_000_000,
                SCALE == 100_000_000,
        ;
        Fixed::zero()
    } else {
        assert(d * d < 400_000_000) by (nonlinear_arith)
            requires
                d < 20000,
        ;
        let q: u128 = 400_000_000u128 / (4 + d * d);
        Fixed::from_raw(q as i64)
    }
}

/// The static evaluation of Connect Four.
pub struct CfEval {}

impl BarracudaAlgorithm for CfEval {

}

impl StaticEval<ConnectFour, CfParams, usize> for CfEval {
    open spec fn answers(before: Self, position: Position, score: Fixed, after: Self) -> bool {
        score@ == evaluation(position)
    }

    fn evaluate(&mut self, board: &ConnectFour) -> (score: Fixed)
        ensures
            score@ == evaluation(board@),
    {
        let columns = board.board();
        let width = columns.len();
        let mut eval = Fixed::zero();
        let mut index: usize = 0;
        while index < width
            invariant
                width == columns@.len(),
                columns@.len() == board@.cells.len(),
                forall|x: int| 0 <= x < columns@.len() ==> (#[trigger] columns@[x])@ == board@.cells[x],
                index <= width,
                eval@ == tally_columns(board@.cells, index as nat),
            decreases width - index,
        {
            let col_score = weight_of(index, width);
            let col = &columns[index];
            let ghost start = eval@;
            let mut y: usize = 0;
            while y < col.len()
                invariant
                    col@ == board@.cells[index as int],
                    y <= col@.len(),
                    eval@ == tally(col@, y as nat, col_score@, start),
                decreases col@.len() - y,
            {
                match col[y] {
                    Some(Player::P1) => {
                        eval = eval.plus(col_score);
                    },
                    Some(Player::P2) => {
                        eval = eval.minus(col_score);
                    },
                    None => {},
                }
                y += 1;
            }
            index += 1;
        }
        match board.turn() {
            Player::P1 => eval,
            Player::P2 => Fixed::zero().minus(eval),
        }
    }
}

} // verus!
