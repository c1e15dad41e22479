//! Connect Four on a grid of any size: pieces drop into columns, and four
//! equal pieces in a row, in a column or on a diagonal win.

use crate::text::{decimal, decimal_text};
use crate::traits::{BarracudaBoard, BarracudaMove, BarracudaParams, GameState, Player};
use vstd::prelude::*;

verus! {

impl BarracudaMove for usize {
    fn same(&self, other: &Self) -> (r: bool) {
        *self == *other
    }
}

/// The size of the grid.
pub struct CfParams {
    width: usize,
    height: usize,
}

impl BarracudaParams for CfParams {

}

impl CfParams {
    /// Width and height.
    pub closed spec fn dims(self) -> (nat, nat) {
        (self.width as nat, self.height as nat)
    }

    /// A grid of `width` columns of `height` cells.
    pub fn new(width: usize, height: usize) -> (params: Self)
        ensures
            params.dims() == (width as nat, height as nat),
    {
        Self { width, height }
    }
}

impl Default for CfParams {
    /// Seven columns of six cells.
    fn default() -> (params: Self)
        ensures
            params.dims() == (7nat, 6nat),
    {
        Self { width: 7, height: 6 }
    }
}

/// A Connect Four position: the columns from the bottom up, the side to move,
/// the size of the grid and the number of pieces in it.
pub struct Position {
    pub cells: Seq<Seq<Option<Player>>>,
    pub turn: Player,
    pub width: nat,
    pub height: nat,
    pub piece_cnt: nat,
}

/// The number of pieces among the first `k` cells of a column.
pub open spec fn filled(col: Seq<Option<Player>>, k: nat) -> nat
    decreases k,
{
    if k == 0 {
        0
    } else {
        filled(col, (k - 1) as nat) + if col[k - 1].is_some() {
            1nat
        } else {
            0nat
        }
    }
}

/// The number of pieces in the first `c` columns.
pub open spec fn pieces(cells: Seq<Seq<Option<Player>>>, c: nat) -> nat
    decreases c,
{
    if c == 0 {
        0
    } else {
        pieces(cells, (c - 1) as nat) + filled(cells[c - 1], cells[c - 1].len())
    }
}

/// No piece of the column floats above an empty cell.
pub open spec fn settled(col: Seq<Option<Player>>) -> bool {
    forall|i: int, j: int| 0 <= i < j < col.len() && col[j].is_some() ==> col[i].is_some()
}

/// The index of the first empty cell of the column from `i` on, or its length.
pub open spec fn landing_from(col: Seq<Option<Player>>, i: int) -> int
    decreases col.len() - i,
{
    if i < 0 || i >= col.len() {
        col.len() as int
    } else if col[i].is_none() {
        i
    } else {
        landing_from(col, i + 1)
    }
}

/// Whether the four cells that end at `i` hold equal pieces.
pub open spec fn four_at(s: Seq<Option<Player>>, i: int) -> bool {
    &&& 3 <= i < s.len()
    &&& s[i].is_some()
    &&& s[i - 1] == s[i]
    &&& s[i - 2] == s[i]
    &&& s[i - 3] == s[i]
}

/// The owner of the first four equal pieces in a row that end at `i` or later.
pub open spec fn run_from(s: Seq<Option<Player>>, i: int) -> Option<Player>
    decreases s.len() - i,
{
    if i < 0 || i >= s.len() {
        None
    } else if four_at(s, i) {
        s[i]
    } else {
        run_from(s, i + 1)
    }
}

/// The owner of the first four equal pieces in a row of the sequence.
pub open spec fn run_winner(s: Seq<Option<Player>>) -> Option<Player> {
    run_from(s, 0)
}

/// The first result that is not `None` among `f(lo)`, ..., `f(hi - 1)`.
pub open spec fn first_in(lo: int, hi: int, f: spec_fn(int) -> Option<Player>) -> Option<Player>
    decreases hi - lo,
{
    if lo >= hi {
        None
    } else if f(lo).is_some() {
        f(lo)
    } else {
        first_in(lo + 1, hi, f)
    }
}

/// `a`, or `b` where `a` is `None`.
pub open spec fn or_else(a: Option<Player>, b: Option<Player>) -> Option<Player> {
    if a.is_some() {
        a
    } else {
        b
    }
}

/// The columns among the first `k` whose top cell is empty.
pub open spec fn open_upto(p: Position, k: nat) -> Seq<usize>
    decreases k,
{
    if k == 0 {
        Seq::empty()
    } else {
        let before = open_upto(p, (k - 1) as nat);
        if p.legal((k - 1) as usize) {
            before.push((k - 1) as usize)
        } else {
            before
        }
    }
}

impl Position {
    /// The grid has the stated size, its pieces rest on each other, the piece
    /// count matches, and the number of cells is a machine number.
    pub open spec fn valid(self) -> bool {
        &&& self.cells.len() == self.width
        &&& forall|x: int| 0 <= x < self.width ==> (#[trigger] self.cells[x]).len() == self.height
        &&& forall|x: int| 0 <= x < self.width ==> settled(#[trigger] self.cells[x])
        &&& self.piece_cnt == pieces(self.cells, self.width)
        &&& self.width <= usize::MAX
        &&& self.height <= usize::MAX
        &&& self.width * self.height <= usize::MAX
    }

    /// The empty grid with the first side to move.
    pub open spec fn initial(width: nat, height: nat) -> Position {
        Position {
            cells: Seq::new(width, |x: int| Seq::new(height, |y: int| None)),
            turn: Player::P1,
            width,
            height,
            piece_cnt: 0,
        }
    }

    /// A column of the grid whose top cell is empty.
    pub open spec fn legal(self, column: usize) -> bool {
        column < self.width && self.height > 0 && self.cells[column as int][self.height
            - 1].is_none()
    }

    /// The columns with an empty top cell, from the left.
    pub open spec fn legal_moves(self) -> Seq<usize> {
        open_upto(self, self.width)
    }

    /// The piece of the side to move lands on the lowest empty cell of the
    /// column; the turn passes.
    pub open spec fn play(self, column: usize) -> Position {
        let col = self.cells[column as int];
        Position {
            cells: self.cells.update(
                column as int,
                col.update(landing_from(col, 0), Some(self.turn)),
            ),
            turn: self.turn.opponent(),
            width: self.width,
            height: self.height,
            piece_cnt: self.piece_cnt + 1,
        }
    }

    /// The cells of row `y`, from the left.
    pub open spec fn row(self, y: int) -> Seq<Option<Player>> {
        Seq::new(self.width, |x: int| self.cells[x][y])
    }

    /// The owner of the four cells from (x, y) upward to the right.
    pub open spec fn rising(self, x: int, y: int) -> Option<Player> {
        let s = self.cells[x][y];
        if s.is_some() && self.cells[x + 1][y + 1] == s && self.cells[x + 2][y + 2] == s
            && self.cells[x + 3][y + 3] == s {
            s
        } else {
            None
        }
    }

    /// The owner of the four cells from (x, y) downward to the right.
    pub open spec fn falling(self, x: int, y: int) -> Option<Player> {
        let s = self.cells[x][y];
        if s.is_some() && self.cells[x + 1][y - 1] == s && self.cells[x + 2][y - 2] == s
            && self.cells[x + 3][y - 3] == s {
            s
        } else {
            None
        }
    }

    /// Column number to the owner of its first run of four.
    pub open spec fn column_scan(self) -> spec_fn(int) -> Option<Player> {
        |c: int| run_winner(self.cells[c])
    }

    /// Row number to the owner of its first run of four.
    pub open spec fn row_scan(self) -> spec_fn(int) -> Option<Player> {
        |y: int| run_winner(self.row(y))
    }

    /// Row to the owner of the rising diagonal from (x, row).
    pub open spec fn rising_scan(self, x: int) -> spec_fn(int) -> Option<Player> {
        |y: int| self.rising(x, y)
    }

    /// Row to the owner of the falling diagonal from (x, row).
    pub open spec fn falling_scan(self, x: int) -> spec_fn(int) -> Option<Player> {
        |y: int| self.falling(x, y)
    }

    /// The owner of the first diagonal that starts in column `x`: the rising
    /// ones from the bottom up, then the falling ones.
    pub open spec fn diagonals_at(self, x: int) -> Option<Player> {
        or_else(
            first_in(0, self.height - 3, self.rising_scan(x)),
            first_in(3, self.height as int, self.falling_scan(x)),
        )
    }

    /// Column to the owner of the first diagonal that starts in it.
    pub open spec fn diagonal_scan(self) -> spec_fn(int) -> Option<Player> {
        |x: int| self.diagonals_at(x)
    }

    /// The owner of the first line of four: the columns from the left, then
    /// the rows from the bottom up, then the diagonals by the
    /// column they start in.
    pub open spec fn winner(self) -> Option<Player> {
        or_else(
            first_in(0, self.width as int, self.column_scan()),
            or_else(
                first_in(0, self.height as int, self.row_scan()),
                first_in(0, self.width - 3, self.diagonal_scan()),
            ),
        )
    }

    /// Over with the winner, if any, when the grid is full; won when there is
    /// a line of four; running otherwise.
    pub open spec fn state(self) -> GameState {
        let winner = self.winner();
        if self.piece_cnt >= self.width * self.height {
            GameState::End(winner)
        } else if winner.is_some() {
            GameState::End(winner)
        } else {
            GameState::Ongoing
        }
    }
}

/// A column holds at most as many pieces as cells.
pub proof fn lemma_filled_bound(col: Seq<Option<Player>>, k: nat)
    ensures
        filled(col, k) <= k,
    decreases k,
{
    if k > 0 {
        lemma_filled_bound(col, (k - 1) as nat);
    }
}

/// A column without empty cells holds as many pieces as cells.
pub proof fn lemma_filled_full(col: Seq<Option<Player>>, k: nat)
    requires
        k <= col.len(),
        forall|i: int| 0 <= i < k ==> col[i].is_some(),
    ensures
        filled(col, k) == k,
    decreases k,
{
    if k > 0 {
        lemma_filled_full(col, (k - 1) as nat);
    }
}

/// A column of empty cells holds no piece.
pub proof fn lemma_filled_empty(col: Seq<Option<Player>>, k: nat)
    requires
        k <= col.len(),
        forall|i: int| 0 <= i < k ==> col[i].is_none(),
    ensures
        filled(col, k) == 0,
    decreases k,
{
    if k > 0 {
        lemma_filled_empty(col, (k - 1) as nat);
    }
}

/// Setting a piece on an empty cell adds one to the count of every prefix
/// that reaches the cell.
pub proof fn lemma_filled_update(col: Seq<Option<Player>>, i: int, piece: Player, k: nat)
    requires
        0 <= i < col.len(),
        col[i].is_none(),
        k <= col.len(),
    ensures
        filled(col.update(i, Some(piece)), k) == filled(col, k) + if i < k {
            1nat
        } else {
            0nat
        },
    decreases k,
{
    if k > 0 {
        lemma_filled_update(col, i, piece, (k - 1) as nat);
    }
}

/// Replacing column `x` changes the piece count by the difference of the two
/// columns' counts.
pub proof fn lemma_pieces_update(
    cells: Seq<Seq<Option<Player>>>,
    x: int,
    col: Seq<Option<Player>>,
    c: nat,
)
    requires
        0 <= x < cells.len(),
        c <= cells.len(),
    ensures
        pieces(cells.update(x, col), c) + (if x < c {
            filled(cells[x], cells[x].len())
        } else {
            0nat
        }) == pieces(cells, c) + (if x < c {
            filled(col, col.len())
        } else {
            0nat
        }),
    decreases c,
{
    if c > 0 {
        lemma_pieces_update(cells, x, col, (c - 1) as nat);
    }
}

/// `c` columns of `height` cells hold at most `c * height` pieces.
pub proof fn lemma_pieces_bound(cells: Seq<Seq<Option<Player>>>, c: nat, height: nat)
    requires
        c <= cells.len(),
        forall|x: int| 0 <= x < c ==> (#[trigger] cells[x]).len() == height,
    ensures
        pieces(cells, c) <= c * height,
    decreases c,
{
    if c > 0 {
        lemma_pieces_bound(cells, (c - 1) as nat, height);
        assert(cells[c - 1].len() == height);
        lemma_filled_bound(cells[c - 1], height);
        assert((c - 1) * height + height == c * height) by (nonlinear_arith);
    }
}

/// `c` full columns of `height` cells hold `c * height` pieces.
pub proof fn lemma_pieces_full(cells: Seq<Seq<Option<Player>>>, c: nat, height: nat)
    requires
        c <= cells.len(),
        forall|x: int| 0 <= x < c ==> (#[trigger] cells[x]).len() == height,
        forall|x: int, y: int| 0 <= x < c && 0 <= y < height ==> (#[trigger] cells[x][y]).is_some(),
    ensures
        pieces(cells, c) == c * height,
    decreases c,
{
    if c > 0 {
        lemma_pieces_full(cells, (c - 1) as nat, height);
        let last = cells[c - 1];
        assert(last.len() == height);
        assert forall|i: int| 0 <= i < height implies last[i].is_some() by {
            assert(cells[c - 1][i].is_some());
        }
        lemma_filled_full(last, height);
        assert((c - 1) * height + height == c * height) by (nonlinear_arith);
    } else {
        assert(c * height == 0) by (nonlinear_arith)
            requires
                c == 0,
        ;
    }
}

/// `c` empty columns hold no piece.
pub proof fn lemma_pieces_empty(cells: Seq<Seq<Option<Player>>>, c: nat)
    requires
        c <= cells.len(),
        forall|x: int, y: int|
            0 <= x < c && 0 <= y < cells[x].len() ==> (#[trigger] cells[x][y]).is_none(),
    ensures
        pieces(cells, c) == 0,
    decreases c,
{
    if c > 0 {
        lemma_pieces_empty(cells, (c - 1) as nat);
        let last = cells[c - 1];
        assert forall|i: int| 0 <= i < last.len() implies last[i].is_none() by {
            assert(cells[c - 1][i].is_none());
        }
        lemma_filled_empty(last, last.len());
    }
}

/// The landing cell is the first empty one: pieces below it, and no piece on
/// it where it lies in the column.
pub proof fn lemma_landing(col: Seq<Option<Player>>, i: int)
    requires
        0 <= i <= col.len(),
    ensures
        i <= landing_from(col, i) <= col.len(),
        forall|j: int| i <= j < landing_from(col, i) ==> col[j].is_some(),
        landing_from(col, i) < col.len() ==> col[landing_from(col, i)].is_none(),
    decreases col.len() - i,
{
    if i < col.len() && col[i].is_some() {
        lemma_landing(col, i + 1);
    }
}

/// The listed columns are the legal ones among the first `k`.
pub proof fn lemma_open_upto_contains(p: Position, k: nat, mv: usize)
    requires
        k <= usize::MAX,
    ensures
        open_upto(p, k).contains(mv) <==> (mv < k && p.legal(mv)),
    decreases k,
{
    if k > 0 {
        let before = open_upto(p, (k - 1) as nat);
        lemma_open_upto_contains(p, (k - 1) as nat, mv);
        let last = (k - 1) as usize;
        if p.legal(last) {
            let after = before.push(last);
            assert(after[before.len() as int] == last);
            assert forall|i: int| 0 <= i < before.len() implies after[i] == before[i] by {}
            if before.contains(mv) {
                let i = choose|i: int| 0 <= i < before.len() && before[i] == mv;
                assert(after[i] == mv);
            }
            if after.contains(mv) {
                let i = choose|i: int| 0 <= i < after.len() && after[i] == mv;
                if i < before.len() {
                    assert(before[i] == mv);
                }
            }
        }
    }
}

/// Results that are `None` at the start of the range can be skipped.
pub proof fn lemma_first_in_skip(lo: int, mid: int, hi: int, f: spec_fn(int) -> Option<Player>)
    requires
        lo <= mid,
        forall|k: int| lo <= k < mid ==> (#[trigger] f(k)).is_none(),
    ensures
        first_in(lo, hi, f) == first_in(mid, hi, f),
    decreases mid - lo,
{
    if lo < mid {
        lemma_first_in_skip(lo + 1, mid, hi, f);
    }
}

/// A legal move leads to a valid position, and the grid was not full.
pub proof fn lemma_play(p: Position, column: usize)
    requires
        p.valid(),
        p.legal(column),
    ensures
        p.play(column).valid(),
        landing_from(p.cells[column as int], 0) < p.height,
        p.piece_cnt < usize::MAX,
{
    let col = p.cells[column as int];
    let row = landing_from(col, 0);
    lemma_landing(col, 0);
    assert(settled(col));
    let q = p.play(column);
    let new_col = col.update(row, Some(p.turn));
    assert(q.cells[column as int] == new_col);
    assert forall|x: int| 0 <= x < q.width implies (#[trigger] q.cells[x]).len() == q.height by {
        assert(p.cells[x].len() == p.height);
    }
    assert forall|x: int| 0 <= x < q.width implies settled(#[trigger] q.cells[x]) by {
        assert(settled(p.cells[x]));
        if x == column {
            assert forall|i: int, j: int|
                0 <= i < j < new_col.len() && new_col[j].is_some() implies new_col[i].is_some() by {
                if j != row && i == row {
                    assert(col[j].is_some());
                    assert(col[row].is_some());
                }
            }
        }
    }
    lemma_filled_update(col, row, p.turn, col.len());
    lemma_pieces_update(p.cells, column as int, new_col, p.width);
    lemma_pieces_bound(q.cells, q.width, q.height);
}

/// A Connect Four board.
#[derive(Debug, Clone, PartialEq, Eq, Hash)]
pub struct ConnectFour {
    board: Vec<Vec<Option<Player>>>,
    turn: Player,
    width: usize,
    height: usize,
    piece_cnt: usize,
}

impl View for ConnectFour {
    type V = Position;

    closed spec fn view(&self) -> Position {
        Position {
            cells: Seq::new(self.board@.len(), |x: int| self.board@[x]@),
            turn: self.turn,
            width: self.width as nat,
            height: self.height as nat,
            piece_cnt: self.piece_cnt as nat,
        }
    }
}

/// The owner of the first four equal pieces in a row of `cells`.
pub fn scan(cells: &Vec<Option<Player>>) -> (w: Option<Player>)
    ensures
        w == run_winner(cells@),
{
    let n = cells.len();
    proof {
        reveal_with_fuel(run_from, 5);
    }
    if n < 4 {
        return None;
    }
    let mut i: usize = 3;
    while i < n
        invariant
            3 <= i <= n,
            n == cells@.len(),
            run_winner(cells@) == run_from(cells@, i as int),
        decreases n - i,
    {
        let here = cells[i];
        if here.is_some() && cells[i - 1] == here && cells[i - 2] == here && cells[i - 3] == here {
            return here;
        }
        i += 1;
    }
    None
}

impl ConnectFour {
    /// The columns of the grid, each from the bottom up.
    pub fn board(&self) -> (columns: &[Vec<Option<Player>>])
        ensures
            columns@.len() == self@.cells.len(),
            forall|x: int| 0 <= x < columns@.len() ==> (#[trigger] columns@[x])@ == self@.cells[x],
    {
        self.board.as_slice()
    }

    /// The cells of row `y`.
    fn row_cells(&self, y: usize) -> (cells: Vec<Option<Player>>)
        requires
            self@.valid(),
            y < self@.height,
        ensures
            cells@ == self@.row(y as int),
    {
        let mut cells: Vec<Option<Player>> = Vec::new();
        let mut x: usize = 0;
        while x < self.width
            invariant
                self@.valid(),
                self.board@.len() == self.width,
                x <= self.width,
                y < self.height,
                cells@.len() == x,
                forall|k: int| 0 <= k < x ==> cells@[k] == self@.cells[k][y as int],
            decreases self.width - x,
        {
            assert(self@.cells[x as int].len() == self.height);
            cells.push(self.board[x][y]);
            x += 1;
        }
        assert(cells@ =~= self@.row(y as int));
        cells
    }

    /// The owner of the first diagonal that starts in column `x`.
    fn diagonals(&self, x: usize) -> (w: Option<Player>)
        requires
            self@.valid(),
            x + 3 < self.width,
        ensures
            w == self@.diagonals_at(x as int),
    {
        let ghost p = self@;
        proof {
            assert(p.cells[x as int].len() == self.height);
            assert(p.cells[x + 1].len() == self.height);
            assert(p.cells[x + 2].len() == self.height);
            assert(p.cells[x + 3].len() == self.height);
        }
        let mut y: usize = 0;
        while y < self.height && self.height - y > 3
            invariant
                p == self@,
                p.valid(),
                self.board@.len() == self.width,
                x + 3 < self.width,
                p.cells[x as int].len() == self.height,
                p.cells[x + 1].len() == self.height,
                p.cells[x + 2].len() == self.height,
                p.cells[x + 3].len() == self.height,
                forall|k: int| 0 <= k < y ==> (#[trigger] p.rising_scan(x as int)(k)).is_none(),
            decreases self.height - y,
        {
            let s = self.board[x][y];
            if s.is_some() && self.board[x + 1][y + 1] == s && self.board[x + 2][y + 2] == s
                && self.board[x + 3][y + 3] == s {
                proof {
                    lemma_first_in_skip(0, y as int, self.height - 3, p.rising_scan(x as int));
                    assert(p.rising_scan(x as int)(y as int) == s);
                }
                return s;
            }
            assert(p.rising_scan(x as int)(y as int).is_none());
            y += 1;
        }
        proof {
            lemma_first_in_skip(0, y as int, self.height - 3, p.rising_scan(x as int));
        }
        let mut y: usize = 3;
        while y < self.height
            invariant
                p == self@,
                p.valid(),
                self.board@.len() == self.width,
                x + 3 < self.width,
                3 <= y,
                p.cells[x as int].len() == self.height,
                p.cells[x + 1].len() == self.height,
                p.cells[x + 2].len() == self.height,
                p.cells[x + 3].len() == self.height,
                first_in(0, self.height - 3, p.rising_scan(x as int)).is_none(),
                forall|k: int| 3 <= k < y ==> (#[trigger] p.falling_scan(x as int)(k)).is_none(),
            decreases self.height - y,
        {
            let s = self.board[x][y];
            if s.is_some() && self.board[x + 1][y - 1] == s && self.board[x + 2][y - 2] == s
                && self.board[x + 3][y - 3] == s {
                proof {
                    lemma_first_in_skip(3, y as int, self.height as int, p.falling_scan(x as int));
                    assert(p.falling_scan(x as int)(y as int) == s);
                }
                return s;
            }
            assert(p.falling_scan(x as int)(y as int).is_none());
            y += 1;
        }
        proof {
            lemma_first_in_skip(3, y as int, self.height as int, p.falling_scan(x as int));
        }
        None
    }

    /// The owner of the first line of four.
    pub fn winner(&self) -> (w: Option<Player>)
        requires
            self@.valid(),
        ensures
            w == self@.winner(),
    {
        let ghost p = self@;
        let mut c: usize = 0;
        while c < self.width
            invariant
                p == self@,
                p.valid(),
                self.board@.len() == self.width,
                c <= self.width,
                forall|k: int| 0 <= k < c ==> (#[trigger] p.column_scan()(k)).is_none(),
            decreases self.width - c,
        {
            let w = scan(&self.board[c]);
            assert(p.column_scan()(c as int) == w);
            if w.is_some() {
                proof {
                    lemma_first_in_skip(0, c as int, self.width as int, p.column_scan());
                }
                return w;
            }
            c += 1;
        }
        proof {
            lemma_first_in_skip(0, c as int, self.width as int, p.column_scan());
        }
        let mut y: usize = 0;
        while y < self.height
            invariant
                p == self@,
                p.valid(),
                y <= self.height,
                first_in(0, self.width as int, p.column_scan()).is_none(),
                forall|k: int| 0 <= k < y ==> (#[trigger] p.row_scan()(k)).is_none(),
            decreases self.height - y,
        {
            let row = self.row_cells(y);
            let w = scan(&row);
            assert(p.row_scan()(y as int) == w);
            if w.is_some() {
                proof {
                    lemma_first_in_skip(0, y as int, self.height as int, p.row_scan());
                }
                return w;
            }
            y += 1;
        }
        proof {
            lemma_first_in_skip(0, y as int, self.height as int, p.row_scan());
        }
        let mut x: usize = 0;
        while x < self.width && self.width - x > 3
            invariant
                p == self@,
                p.valid(),
                first_in(0, self.width as int, p.column_scan()).is_none(),
                first_in(0, self.height as int, p.row_scan()).is_none(),
                forall|k: int| 0 <= k < x ==> (#[trigger] p.diagonal_scan()(k)).is_none(),
            decreases self.width - x,
        {
            let w = self.diagonals(x);
            assert(p.diagonal_scan()(x as int) == w);
            if w.is_some() {
                proof {
                    lemma_first_in_skip(0, x as int, self.width - 3, p.diagonal_scan());
                }
                return w;
            }
            x += 1;
        }
        proof {
            lemma_first_in_skip(0, x as int, self.width - 3, p.diagonal_scan());
        }
        None
    }
}

/// The text of a column: its number.
pub open spec fn column_text_of(mv: usize) -> Seq<char> {
    decimal_text(mv as nat)
}

impl BarracudaBoard<CfParams, usize> for ConnectFour {
    open spec fn valid(p: Position) -> bool {
        p.valid()
    }

    open spec fn accepts(params: CfParams) -> bool {
        params.dims().0 * params.dims().1 <= usize::MAX
    }

    open spec fn initial(params: CfParams) -> Position {
        Position::initial(params.dims().0, params.dims().1)
    }

    open spec fn legal(p: Position, mv: usize) -> bool {
        p.legal(mv)
    }

    open spec fn legal_moves(p: Position) -> Seq<usize> {
        p.legal_moves()
    }

    open spec fn play(p: Position, mv: usize) -> Position {
        p.play(mv)
    }

    open spec fn state_of(p: Position) -> GameState {
        p.state()
    }

    open spec fn to_move(p: Position) -> Player {
        p.turn
    }

    open spec fn move_text(mv: usize) -> Seq<char> {
        column_text_of(mv)
    }

    proof fn enumeration_is_exact(p: Position, mv: usize) {
        lemma_open_upto_contains(p, p.width, mv);
    }

    proof fn stuck_is_over(p: Position) {
        if p.height > 0 {
            assert forall|x: int, y: int| 0 <= x < p.width && 0 <= y < p.height implies (
            #[trigger] p.cells[x][y]).is_some() by {
                lemma_open_upto_contains(p, p.width, x as usize);
                assert(!open_upto(p, p.width).contains(x as usize));
                assert(settled(p.cells[x]));
                assert(p.cells[x].len() == p.height);
            }
            lemma_pieces_full(p.cells, p.width, p.height);
        } else {
            assert(p.width * p.height == 0) by (nonlinear_arith)
                requires
                    p.height == 0,
            ;
        }
    }

    fn new(params: CfParams) -> (b: Self) {
        let mut board: Vec<Vec<Option<Player>>> = Vec::new();
        let mut x: usize = 0;
        while x < params.width
            invariant
                x <= params.width,
                board@.len() == x,
                forall|a: int| 0 <= a < x ==> (#[trigger] board@[a])@.len() == params.height,
                forall|a: int, c: int|
                    0 <= a < x && 0 <= c < params.height ==> (#[trigger] board@[a]@[c]).is_none(),
            decreases params.width - x,
        {
            let mut column: Vec<Option<Player>> = Vec::new();
            let mut y: usize = 0;
            while y < params.height
                invariant
                    y <= params.height,
                    column@.len() == y,
                    forall|c: int| 0 <= c < y ==> (#[trigger] column@[c]).is_none(),
                decreases params.height - y,
            {
                column.push(None);
                y += 1;
            }
            board.push(column);
            x += 1;
        }
        let b = ConnectFour {
            width: params.width,
            height: params.height,
            turn: Player::P1,
            board,
            piece_cnt: 0,
        };
        proof {
            let init = Position::initial(params.dims().0, params.dims().1);
            assert(b@.cells.len() == init.cells.len());
            assert forall|a: int| 0 <= a < b@.cells.len() implies b@.cells[a] =~= init.cells[a] by {
                assert(b.board@[a]@.len() == params.height);
            }
            assert(b@.cells =~= init.cells);
            lemma_pieces_empty(b@.cells, b@.width);
        }
        b
    }

    fn make_move(&mut self, column: usize) {
        let ghost p = self@;
        proof {
            lemma_play(p, column);
            lemma_landing(p.cells[column as int], 0);
            assert(p.cells[column as int].len() == self.height);
        }
        let mut row: usize = 0;
        while row < self.height && self.board[column][row].is_some()
            invariant
                p == self@,
                p.valid(),
                column < self.width,
                self.board@.len() == self.width,
                p.cells[column as int].len() == self.height,
                row <= self.height,
                landing_from(p.cells[column as int], 0) == landing_from(
                    p.cells[column as int],
                    row as int,
                ),
                landing_from(p.cells[column as int], 0) < self.height,
            decreases self.height - row,
        {
            row += 1;
        }
        self.board[column][row] = Some(self.turn);
        self.piece_cnt += 1;
        self.turn = self.turn.other();
        proof {
            let q = p.play(column);
            assert(self@.cells.len() == q.cells.len());
            assert forall|x: int| 0 <= x < q.cells.len() implies self@.cells[x] =~= q.cells[x] by {}
            assert(self@.cells =~= q.cells);
        }
    }

    fn get_moves(&self) -> (moves: Vec<usize>) {
        let mut moves: Vec<usize> = Vec::new();
        let mut index: usize = 0;
        while index < self.width
            invariant
                self@.valid(),
                self.board@.len() == self.width,
                index <= self.width,
                moves@ == open_upto(self@, index as nat),
            decreases self.width - index,
        {
            assert(self@.cells[index as int].len() == self.height);
            if self.height > 0 && self.board[index][self.height - 1].is_none() {
                moves.push(index);
            }
            index += 1;
        }
        moves
    }

    fn game_state(&self) -> (state: GameState) {
        let winner = self.winner();
        if self.piece_cnt >= self.width * self.height {
            GameState::End(winner)
        } else if let Some(winner) = winner {
            GameState::End(Some(winner))
        } else {
            GameState::Ongoing
        }
    }

    fn turn(&self) -> (side: Player) {
        self.turn
    }

    fn move_to_str(&self, mv: usize) -> (text: String) {
        decimal(mv as u64)
    }

    fn duplicate(&self) -> (copy: Self) {
        let mut board: Vec<Vec<Option<Player>>> = Vec::new();
        let mut x: usize = 0;
        while x < self.board.len()
            invariant
                x <= self.board@.len(),
                board@.len() == x,
                forall|a: int| 0 <= a < x ==> (#[trigger] board@[a])@ == self.board@[a]@,
            decreases self.board@.len() - x,
        {
            let source = &self.board[x];
            let mut column: Vec<Option<Player>> = Vec::new();
            let mut y: usize = 0;
            while y < source.len()
                invariant
                    y <= source@.len(),
                    column@.len() == y,
                    forall|c: int| 0 <= c < y ==> column@[c] == source@[c],
                decreases source@.len() - y,
            {
                column.push(source[y]);
                y += 1;
            }
            assert(column@ =~= source@);
            board.push(column);
            x += 1;
        }
        let copy = ConnectFour {
            board,
            turn: self.turn,
            width: self.width,
            height: self.height,
            piece_cnt: self.piece_cnt,
        };
        assert(copy@.cells =~= self@.cells);
        copy
    }

    fn same_position(&self, other: &Self) -> (r: bool) {
        if self.turn != other.turn || self.width != other.width || self.height != other.height
            || self.piece_cnt != other.piece_cnt || self.board.len() != other.board.len() {
            assert(self@.turn != other@.turn || self@.width != other@.width || self@.height
                != other@.height || self@.piece_cnt != other@.piece_cnt || self@.cells.len()
                != other@.cells.len());
            return false;
        }
        let mut x: usize = 0;
        while x < self.board.len()
            invariant
                self.board@.len() == other.board@.len(),
                x <= self.board@.len(),
                forall|a: int| 0 <= a < x ==> (#[trigger] self.board@[a])@ == other.board@[a]@,
            decreases self.board@.len() - x,
        {
            let mine = &self.board[x];
            let theirs = &other.board[x];
            if mine.len() != theirs.len() {
                assert(self@.cells[x as int].len() != other@.cells[x as int].len());
                return false;
            }
            let mut y: usize = 0;
            while y < mine.len()
                invariant
                    mine@.len() == theirs@.len(),
                    y <= mine@.len(),
                    mine@ == self.board@[x as int]@,
                    theirs@ == other.board@[x as int]@,
                    x < self.board@.len(),
                    self.board@.len() == other.board@.len(),
                    forall|c: int| 0 <= c < y ==> mine@[c] == theirs@[c],
                decreases mine@.len() - y,
            {
                if mine[y] != theirs[y] {
                    assert(self@.cells[x as int][y as int] != other@.cells[x as int][y as int]);
                    return false;
                }
                y += 1;
            }
            assert(mine@ =~= theirs@);
            x += 1;
        }
        assert(self@.cells =~= other@.cells);
        true
    }
}

} // verus!
