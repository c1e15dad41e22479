//! Tic-Tac-Toe.

use crate::text::{decimal, decimal_text};
use crate::traits::{BarracudaBoard, BarracudaMove, BarracudaParams, GameState, Player};
use vstd::string::StringExecFns;
use vstd::prelude::*;

verus! {

/// Tic-Tac-Toe has nothing to configure.
#[derive(Default)]
pub struct TicTacToeParams;

impl BarracudaParams for TicTacToeParams {

}

/// A cell of the grid.
#[derive(Debug, Copy, Clone, PartialEq, Eq, Hash, Structural)]
pub struct Square {
    pub x: usize,
    pub y: usize,
}

impl BarracudaMove for Square {
    fn same(&self, other: &Self) -> (r: bool) {
        self.x == other.x && self.y == other.y
    }
}

/// A Tic-Tac-Toe position: three rows of three cells, the side to move and
/// the number of marks set.
pub struct Position {
    pub cells: Seq<Seq<Option<Player>>>,
    pub turn: Player,
    pub cnt: nat,
}

/// 1 where the cell holds a mark, else 0.
pub open spec fn mark_count(c: Option<Player>) -> nat {
    if c.is_some() {
        1
    } else {
        0
    }
}

/// The number of marks among the first `k` cells, row by row.
pub open spec fn marks_upto(cells: Seq<Seq<Option<Player>>>, k: nat) -> nat
    decreases k,
{
    if k == 0 {
        0
    } else {
        marks_upto(cells, (k - 1) as nat) + mark_count(cells[(k - 1) / 3][(k - 1) % 3])
    }
}

/// The empty squares among the first `k` cells, row by row.
pub open spec fn empty_upto(cells: Seq<Seq<Option<Player>>>, k: nat) -> Seq<Square>
    decreases k,
{
    if k == 0 {
        Seq::empty()
    } else {
        let before = empty_upto(cells, (k - 1) as nat);
        let x = (k - 1) / 3;
        let y = (k - 1) % 3;
        if cells[x][y].is_none() {
            before.push(Square { x: x as usize, y: y as usize })
        } else {
            before
        }
    }
}

/// The owner of the line through the three cells, if one side holds them all.
pub open spec fn line_owner(
    cells: Seq<Seq<Option<Player>>>,
    a: (int, int),
    b: (int, int),
    c: (int, int),
) -> Option<Player> {
    let root = cells[a.0][a.1];
    if root.is_some() && cells[b.0][b.1] == root && cells[c.0][c.1] == root {
        root
    } else {
        None
    }
}

/// The owner of the `k`-th line: rows 0 to 2, columns 0 to 2, the diagonal,
/// the anti-diagonal.
pub open spec fn nth_line_owner(cells: Seq<Seq<Option<Player>>>, k: int) -> Option<Player> {
    if 0 <= k < 3 {
        line_owner(cells, (k, 0), (k, 1), (k, 2))
    } else if 3 <= k < 6 {
        line_owner(cells, (0, k - 3), (1, k - 3), (2, k - 3))
    } else if k == 6 {
        line_owner(cells, (0, 0), (1, 1), (2, 2))
    } else if k == 7 {
        line_owner(cells, (2, 0), (1, 1), (0, 2))
    } else {
        None
    }
}

/// The owner of the first owned line among the lines from `k` on.
pub open spec fn first_owner_from(cells: Seq<Seq<Option<Player>>>, k: int) -> Option<Player>
    decreases 8 - k,
{
    if k >= 8 || k < 0 {
        None
    } else if nth_line_owner(cells, k).is_some() {
        nth_line_owner(cells, k)
    } else {
        first_owner_from(cells, k + 1)
    }
}

impl Position {
    /// Three rows of three cells, and a mark count that matches them.
    pub open spec fn valid(self) -> bool {
        &&& self.cells.len() == 3
        &&& forall|x: int| 0 <= x < 3 ==> (#[trigger] self.cells[x]).len() == 3
        &&& self.cnt == marks_upto(self.cells, 9)
    }

    /// The empty grid with the first side to move.
    pub open spec fn initial() -> Position {
        Position {
            cells: Seq::new(3, |x: int| Seq::new(3, |y: int| None)),
            turn: Player::P1,
            cnt: 0,
        }
    }

    /// A square of the grid that holds no mark.
    pub open spec fn legal(self, mv: Square) -> bool {
        mv.x < 3 && mv.y < 3 && self.cells[mv.x as int][mv.y as int].is_none()
    }

    /// The empty squares, row by row.
    pub open spec fn legal_moves(self) -> Seq<Square> {
        empty_upto(self.cells, 9)
    }

    /// The side to move marks the square; the turn passes.
    pub open spec fn play(self, mv: Square) -> Position {
        Position {
            cells: self.cells.update(
                mv.x as int,
                self.cells[mv.x as int].update(mv.y as int, Some(self.turn)),
            ),
            turn: self.turn.opponent(),
            cnt: self.cnt + 1,
        }
    }

    /// Won by the owner of the first owned line; drawn when the grid is full;
    /// running otherwise.
    pub open spec fn state(self) -> GameState {
        let owner = first_owner_from(self.cells, 0);
        if owner.is_some() {
            GameState::End(owner)
        } else if self.cnt == 9 {
            GameState::End(None)
        } else {
            GameState::Ongoing
        }
    }
}

/// A Tic-Tac-Toe board.
#[derive(Debug, Copy, Clone, Eq, PartialEq, Hash)]
pub struct TicTacToeBoard {
    board: [[Option<Player>; 3]; 3],
    turn: Player,
    cnt: u8,
}

impl View for TicTacToeBoard {
    type V = Position;

    closed spec fn view(&self) -> Position {
        Position {
            cells: Seq::new(3, |x: int| Seq::new(3, |y: int| self.board[x][y])),
            turn: self.turn,
            cnt: self.cnt as nat,
        }
    }
}

/// The text of a square: both coordinates in brackets.
pub open spec fn square_text_of(mv: Square) -> Seq<char> {
    "("@ + decimal_text(mv.x as nat) + ", "@ + decimal_text(mv.y as nat) + ")"@
}

/// Among the first `k` cells every cell is either counted as a mark or listed
/// as empty.
pub proof fn lemma_marks_and_empties(cells: Seq<Seq<Option<Player>>>, k: nat)
    ensures
        marks_upto(cells, k) + empty_upto(cells, k).len() == k,
    decreases k,
{
    if k > 0 {
        lemma_marks_and_empties(cells, (k - 1) as nat);
    }
}

/// The listed squares are the empty ones among the first `k` cells.
pub proof fn lemma_empty_upto_contains(cells: Seq<Seq<Option<Player>>>, k: nat, mv: Square)
    requires
        k <= 9,
    ensures
        empty_upto(cells, k).contains(mv) <==> (mv.x < 3 && mv.y < 3 && 3 * mv.x + mv.y < k
            && cells[mv.x as int][mv.y as int].is_none()),
    decreases k,
{
    if k > 0 {
        let before = empty_upto(cells, (k - 1) as nat);
        lemma_empty_upto_contains(cells, (k - 1) as nat, mv);
        let x = (k - 1) / 3;
        let y = (k - 1) % 3;
        let sq = Square { x: x as usize, y: y as usize };
        if cells[x as int][y as int].is_none() {
            let after = before.push(sq);
            assert(after[before.len() as int] == sq);
            assert forall|i: int| 0 <= i < before.len() implies after[i] == before[i] by {}
            if before.contains(mv) {
                let i = choose|i: int| 0 <= i < before.len() && before[i] == mv;
                assert(after[i] == mv);
            }
            if after.contains(mv) {
                let i = choose|i: int| 0 <= i < after.len() && after[i] == mv;
                if i < before.len() {
                    assert(before[i] == mv);
                }
            }
        }
    }
}

impl BarracudaBoard<TicTacToeParams, Square> for TicTacToeBoard {
    open spec fn valid(p: Position) -> bool {
        p.valid()
    }

    open spec fn accepts(params: TicTacToeParams) -> bool {
        true
    }

    open spec fn initial(params: TicTacToeParams) -> Position {
        Position::initial()
    }

    open spec fn legal(p: Position, mv: Square) -> bool {
        p.legal(mv)
    }

    open spec fn legal_moves(p: Position) -> Seq<Square> {
        p.legal_moves()
    }

    open spec fn play(p: Position, mv: Square) -> Position {
        p.play(mv)
    }

    open spec fn state_of(p: Position) -> GameState {
        p.state()
    }

    open spec fn to_move(p: Position) -> Player {
        p.turn
    }

    open spec fn move_text(mv: Square) -> Seq<char> {
        square_text_of(mv)
    }

    proof fn enumeration_is_exact(p: Position, mv: Square) {
        lemma_empty_upto_contains(p.cells, 9, mv);
    }

    proof fn stuck_is_over(p: Position) {
        lemma_marks_and_empties(p.cells, 9);
    }

    fn new(_params: TicTacToeParams) -> (b: Self) {
        let b = TicTacToeBoard { board: [[None;3];3], turn: Player::P1, cnt: 0 };
        proof {
            reveal_with_fuel(marks_upto, 10);
            assert(b@.cells =~~= Position::initial().cells);
        }
        b
    }

    fn make_move(&mut self, mv: Square) {
        proof {
            lemma_play_counts(self@, mv);
            lemma_marks_and_empties(self@.cells, 9);
            lemma_empty_upto_contains(self@.cells, 9, mv);
        }
        self.board[mv.x][mv.y] = Some(self.turn);
        self.turn = self.turn.other();
        self.cnt += 1;
        proof {
            assert(self@.cells =~~= old(self)@.play(mv).cells);
        }
    }

    fn get_moves(&self) -> (moves: Vec<Square>) {
        let mut moves: Vec<Square> = Vec::new();
        let mut x: usize = 0;
        while x < 3
            invariant
                x <= 3,
                moves@ == empty_upto(self@.cells, (3 * x) as nat),
            decreases 3 - x,
        {
            let mut y: usize = 0;
            while y < 3
                invariant
                    x < 3,
                    y <= 3,
                    moves@ == empty_upto(self@.cells, (3 * x + y) as nat),
                decreases 3 - y,
            {
                proof {
                    assert((3 * x + y) / 3 == x);
                    assert((3 * x + y) % 3 == y);
                }
                if self.board[x][y].is_none() {
                    moves.push(Square { x, y });
                }
                y += 1;
            }
            x += 1;
        }
        moves
    }

    fn game_state(&self) -> (state: GameState) {
        proof {
            reveal_with_fuel(first_owner_from, 9);
        }
        let mut x: usize = 0;
        while x < 3
            invariant
                x <= 3,
                forall|k: int| 0 <= k < x ==> nth_line_owner(self@.cells, k).is_none(),
            decreases 3 - x,
        {
            let root = self.board[x][0];
            if root.is_some() && self.board[x][1] == root && self.board[x][2] == root {
                proof {
                    reveal_with_fuel(first_owner_from, 9);
                    assert(nth_line_owner(self@.cells, x as int) == root);
                }
                return GameState::End(root);
            }
            x += 1;
        }
        let mut y: usize = 0;
        while y < 3
            invariant
                y <= 3,
                forall|k: int| 0 <= k < 3 + y ==> nth_line_owner(self@.cells, k).is_none(),
            decreases 3 - y,
        {
            let root = self.board[0][y];
            if root.is_some() && self.board[1][y] == root && self.board[2][y] == root {
                proof {
                    reveal_with_fuel(first_owner_from, 9);
                    assert(nth_line_owner(self@.cells, 3 + y) == root);
                }
                return GameState::End(root);
            }
            y += 1;
        }
        let root = self.board[0][0];
        if root.is_some() && self.board[1][1] == root && self.board[2][2] == root {
            return GameState::End(root);
        }
        let root = self.board[2][0];
        if root.is_some() && self.board[1][1] == root && self.board[0][2] == root {
            return GameState::End(root);
        }
        if self.cnt == 9 {
            GameState::End(None)
        } else {
            GameState::Ongoing
        }
    }

    fn turn(&self) -> (side: Player) {
        self.turn
    }

    fn move_to_str(&self, mv: Square) -> (text: String) {
        let mut text = String::from_str("(");
        let x = decimal(mv.x as u64);
        text.append(x.as_str());
        text.append(", ");
        let y = decimal(mv.y as u64);
        text.append(y.as_str());
        text.append(")");
        text
    }

    fn duplicate(&self) -> (copy: Self) {
        *self
    }

    fn same_position(&self, other: &Self) -> (r: bool) {
        let mut same: bool = self.turn == other.turn && self.cnt == other.cnt;
        let mut x: usize = 0;
        while x < 3
            invariant
                x <= 3,
                same == (self.turn == other.turn && self.cnt == other.cnt && forall|a: int, b: int|
                    0 <= a < x && 0 <= b < 3 ==> self.board[a][b] == other.board[a][b]),
            decreases 3 - x,
        {
            let mut y: usize = 0;
            while y < 3
                invariant
                    x < 3,
                    y <= 3,
                    same == (self.turn == other.turn && self.cnt == other.cnt && (forall|
                        a: int,
                        b: int,
                    |
                        0 <= a < x && 0 <= b < 3 ==> self.board[a][b] == other.board[a][b])
                        && forall|b: int| 0 <= b < y ==> self.board[x as int][b] == other.board[x as int][b]),
                decreases 3 - y,
            {
                if self.board[x][y] != other.board[x][y] {
                    same = false;
                }
                y += 1;
            }
            x += 1;
        }
        proof {
            if same {
                assert(self@.cells =~~= other@.cells);
            } else if self.turn == other.turn && self.cnt == other.cnt {
                let (a, b) = choose|a: int, b: int|
                    0 <= a < 3 && 0 <= b < 3 && self.board[a][b] != other.board[a][b];
                assert(self@.cells[a][b] != other@.cells[a][b]);
            }
        }
        same
    }
}

/// Marking an empty square adds one mark.
pub proof fn lemma_play_counts(p: Position, mv: Square)
    requires
        p.valid(),
        p.legal(mv),
    ensures
        p.play(mv).valid(),
        p.cnt < 9,
{
    reveal_with_fuel(marks_upto, 10);
    let q = p.play(mv);
    assert(q.cells.len() == 3);
    assert forall|x: int| 0 <= x < 3 implies (#[trigger] q.cells[x]).len() == 3 by {}
}

/// A game ends within nine moves: while it runs fewer than nine marks are
/// set and a move can be made, every legal move marks an empty square and
/// sets one mark more, and with nine marks the game is over.
pub proof fn lemma_ends_within_nine(p: Position, mv: Square)
    requires
        p.valid(),
    ensures
        p.cnt <= 9,
        p.state() == GameState::Ongoing ==> p.cnt < 9 && p.legal_moves().len() > 0,
        p.cnt == 9 ==> p.state() != GameState::Ongoing && p.legal_moves().len() == 0,
        p.legal_moves().contains(mv) ==> p.cells[mv.x as int][mv.y as int].is_none() && p.play(
            mv,
        ).cnt == p.cnt + 1 && p.play(mv).valid(),
{
    lemma_marks_and_empties(p.cells, 9);
    lemma_empty_upto_contains(p.cells, 9, mv);
    if p.legal_moves().contains(mv) {
        lemma_play_counts(p, mv);
    }
}

} // verus!
