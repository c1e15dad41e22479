//! Reports on a running search: how often to report, and what a report says.

use crate::fixed::Fixed;
use crate::text::{decimal, decimal_text, fixed_text, fixed_to_text};
use crate::traits::{BarracudaBoard, BarracudaMove, BarracudaParams};
use vstd::prelude::*;
use vstd::string::StringExecFns;

verus! {

/// The interval of a debugger that never reports.
pub const NEVER: u64 = 0xffff_ffff_ffff_ffff;

/// The texts of the first `k` moves, each followed by a blank.
pub open spec fn line_text<Board: BarracudaBoard<Params, Move>, Params, Move>(
    pv: Seq<Move>,
    k: nat,
) -> Seq<char>
    decreases k,
{
    if k == 0 {
        Seq::empty()
    } else {
        line_text::<Board, Params, Move>(pv, (k - 1) as nat) + Board::move_text(pv[k - 1]) + " "@
    }
}

/// The report of a search: the mean outcome at the root, its visits, and the
/// principal variation with its length.
pub open spec fn report_text<Board: BarracudaBoard<Params, Move>, Params, Move>(
    eval: Fixed,
    nodes: u32,
    depth: u32,
    pv: Seq<Move>,
) -> Seq<char> {
    "pwin: "@ + fixed_text(eval@) + " visits: "@ + decimal_text(nodes as nat) + " depth: "@
        + decimal_text(depth as nat) + " pv: "@ + line_text::<Board, Params, Move>(pv, pv.len())
}

/// What is told about a running search.
pub trait Debugger<
    Board: BarracudaBoard<Params, Move>,
    Params: BarracudaParams,
    Move: BarracudaMove,
>: Sized {
    /// The debugger.
    fn new() -> Self;

    /// The milliseconds between two reports of this debugger.
    spec fn sampling_interval() -> u64;

    /// The milliseconds between two reports.
    fn sampling_rate() -> (rate: u64)
        ensures
            rate == Self::sampling_interval(),
    ;

    /// The report on a search of `board` whose root has the mean outcome
    /// `eval` and `nodes` visits, and whose principal variation is `pv`, of
    /// length `depth`.
    fn debug(board: &Board, eval: Fixed, nodes: u32, depth: u32, pv: &[Move]) -> String;
}

/// Reports nothing.
pub struct NoDebug;

impl NoDebug {
    /// The interval of this debugger: it never reports.
    pub fn interval() -> (rate: u64)
        ensures
            rate == NEVER,
    {
        NEVER
    }
}

impl<
    Board: BarracudaBoard<Params, Move>,
    Params: BarracudaParams,
    Move: BarracudaMove,
> Debugger<Board, Params, Move> for NoDebug {
    fn new() -> Self {
        Self {  }
    }

    open spec fn sampling_interval() -> u64 {
        NEVER
    }

    fn sampling_rate() -> u64 {
        NoDebug::interval()
    }

    fn debug(board: &Board, eval: Fixed, nodes: u32, depth: u32, pv: &[Move]) -> (text: String)
        ensures
            text@.len() == 0,
    {
        let text = String::from_str("");
        proof {
            reveal_strlit("");
        }
        text
    }
}

/// Reports five times a second.
pub struct BarracudaDebug;

impl BarracudaDebug {
    /// The interval of this debugger: 200 milliseconds.
    pub fn interval() -> (rate: u64)
        ensures
            rate == 200,
    {
        200
    }
}

impl<
    Board: BarracudaBoard<Params, Move>,
    Params: BarracudaParams,
    Move: BarracudaMove,
> Debugger<Board, Params, Move> for BarracudaDebug {
    fn new() -> Self {
        Self {  }
    }

    open spec fn sampling_interval() -> u64 {
        200
    }

    fn sampling_rate() -> u64 {
        BarracudaDebug::interval()
    }

    fn debug(board: &Board, eval: Fixed, nodes: u32, depth: u32, pv: &[Move]) -> (text: String)
        ensures
            text@ == report_text::<Board, Params, Move>(eval, nodes, depth, pv@),
    {
        let mut text = String::from_str("pwin: ");
        let e = fixed_to_text(eval);
        text.append(e.as_str());
        text.append(" visits: ");
        let n = decimal(nodes as u64);
        text.append(n.as_str());
        text.append(" depth: ");
        let d = decimal(depth as u64);
        text.append(d.as_str());
        text.append(" pv: ");
        let ghost head = text@;
        let mut k: usize = 0;
        while k < pv.len()
            invariant
                k <= pv@.len(),
                text@ == head + line_text::<Board, Params, Move>(pv@, k as nat),
            decreases pv@.len() - k,
        {
            let m = board.move_to_str(pv[k]);
            text.append(m.as_str());
            text.append(" ");
            assert(text@ =~= head + line_text::<Board, Params, Move>(pv@, (k + 1) as nat));
            k += 1;
        }
        text
    }
}

} // verus!
