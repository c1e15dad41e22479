//! The capabilities a game offers to the search: sides, game states, moves,
//! parameters and boards.

use vstd::prelude::*;

verus! {

/// One of the two sides.
#[derive(Debug, Copy, Clone, Eq, PartialEq, Hash, Structural)]
pub enum Player {
    P1,
    P2,
}

/// Whether a game is still running, and who won it if not.
#[derive(Debug, Copy, Clone, Eq, PartialEq, Hash, Structural)]
pub enum GameState {
    Ongoing,
    End(Option<Player>),
}

impl Player {
    /// The other side.
    pub open spec fn opponent(self) -> Player {
        match self {
            Player::P1 => Player::P2,
            Player::P2 => Player::P1,
        }
    }

    /// The other side.
    pub fn other(self) -> (r: Player)
        ensures
            r == self.opponent(),
    {
        match self {
            Player::P1 => Player::P2,
            Player::P2 => Player::P1,
        }
    }
}

/// Marks a strategy object of the search.
pub trait BarracudaAlgorithm {

}

/// A move of a game: a small value that can be copied and compared.
pub trait BarracudaMove: Copy + Sized {
    /// Whether the two moves are the same move.
    fn same(&self, other: &Self) -> (r: bool)
        ensures
            r == (*self == *other),
    ;
}

/// The configuration from which a board is built.
pub trait BarracudaParams: Sized {

}

/// A board of a two-player game with perfect information.
///
/// The rules are stated over the board's view, its position: which moves are
/// legal, what position a move leads to, whose turn it is and whether the game
/// is over. The executable methods compute exactly that.
pub trait BarracudaBoard<Params, Move>: View + Sized {
    /// The positions that the rules speak of.
    spec fn valid(p: Self::V) -> bool;

    /// The parameters from which a board can be built.
    spec fn accepts(params: Params) -> bool;

    /// The starting position.
    spec fn initial(params: Params) -> Self::V;

    /// Whether `mv` may be played in `p`.
    spec fn legal(p: Self::V, mv: Move) -> bool;

    /// The legal moves of `p`, in the order in which they are enumerated.
    spec fn legal_moves(p: Self::V) -> Seq<Move>;

    /// The position after `mv` is played in `p`.
    spec fn play(p: Self::V, mv: Move) -> Self::V;

    /// Whether the game is over in `p`, and who won.
    spec fn state_of(p: Self::V) -> GameState;

    /// The side to move in `p`.
    spec fn to_move(p: Self::V) -> Player;

    /// The display text of `mv`.
    spec fn move_text(mv: Move) -> Seq<char>;

    /// The enumeration holds the legal moves and nothing else.
    proof fn enumeration_is_exact(p: Self::V, mv: Move)
        requires
            Self::valid(p),
        ensures
            Self::legal_moves(p).contains(mv) <==> Self::legal(p, mv),
    ;

    /// A position without legal moves is a finished game.
    proof fn stuck_is_over(p: Self::V)
        requires
            Self::valid(p),
            Self::legal_moves(p).len() == 0,
        ensures
            Self::state_of(p) != GameState::Ongoing,
    ;

    /// The board of the starting position.
    fn new(params: Params) -> (b: Self)
        requires
            Self::accepts(params),
        ensures
            b@ == Self::initial(params),
            Self::valid(b@),
    ;

    /// Plays `mv`, which must be legal.
    fn make_move(&mut self, mv: Move)
        requires
            Self::valid(old(self)@),
            Self::legal(old(self)@, mv),
        ensures
            final(self)@ == Self::play(old(self)@, mv),
            Self::valid(final(self)@),
    ;

    /// The legal moves.
    fn get_moves(&self) -> (moves: Vec<Move>)
        requires
            Self::valid(self@),
        ensures
            moves@ == Self::legal_moves(self@),
    ;

    /// Whether the game is over, and who won.
    fn game_state(&self) -> (state: GameState)
        requires
            Self::valid(self@),
        ensures
            state == Self::state_of(self@),
    ;

    /// The side to move.
    fn turn(&self) -> (side: Player)
        ensures
            side == Self::to_move(self@),
    ;

    /// The move as display text.
    fn move_to_str(&self, mv: Move) -> (text: String)
        ensures
            text@ == Self::move_text(mv),
    ;

    /// A copy of the board.
    fn duplicate(&self) -> (copy: Self)
        ensures
            copy@ == self@,
    ;

    /// Whether the two boards hold the same position.
    fn same_position(&self, other: &Self) -> (r: bool)
        ensures
            r == (self@ == other@),
    ;
}

/// The position after `moves` were played from `start`, one after the other.
pub open spec fn replayed<Board: BarracudaBoard<Params, Move>, Params, Move>(
    start: Board::V,
    moves: Seq<Move>,
) -> Board::V
    decreases moves.len(),
{
    if moves.len() == 0 {
        start
    } else {
        Board::play(replayed::<Board, Params, Move>(start, moves.drop_last()), moves.last())
    }
}

/// Whether each of `moves` is legal where it is played, from `start` on.
pub open spec fn legal_line<Board: BarracudaBoard<Params, Move>, Params, Move>(
    start: Board::V,
    moves: Seq<Move>,
) -> bool
    decreases moves.len(),
{
    moves.len() == 0 || (legal_line::<Board, Params, Move>(start, moves.drop_last())
        && Board::legal(
        replayed::<Board, Params, Move>(start, moves.drop_last()),
        moves.last(),
    ))
}

} // verus!
