//! Monte-Carlo tree search over two-player games with perfect information,
//! with pluggable scoring, move selection, playouts and propagation hooks.
//!
//! A search tree ([`mcts::Tree`]) holds its vertices in one vector, the root
//! first and every vertex after its parent. One iteration
//! ([`mcts::Node::search`]) walks from the root to a vertex that has not been
//! expanded, ranking the children on the way by a scoring expression
//! ([`formula`], [`ucb`], [`extensions`]); expands it by one child for each
//! legal move; estimates one child by a simulation ([`simulate`]) that a
//! policy ([`policy`]) chooses; and propagates the result back to the root,
//! turned round at every step. A runner ([`b_runner`]) owns the board that is
//! played on and the tree of its position.
//!
//! Games offer the capabilities of [`traits::BarracudaBoard`]; two are here:
//! Tic-Tac-Toe ([`ttt`]) and Connect Four ([`cf`], [`cf_eval`]).
//!
//! All quantities are exact fixed-point numbers ([`fixed::Fixed`]) with
//! saturating arithmetic. A scoring expression gives a node its value as a
//! function of the tree, the node and the move that led to it. The search
//! tells the hooks and then the expression of every event: that a node is
//! about to be scored, that a playout has ended, that a result is on its way
//! up. An object that scores and listens is one term of the expression.
//!
//! Every function carries a contract that Verus proves. What is believed
//! without proof is one call into the `rand` crate ([`rng`]).

pub mod b_runner;
pub mod cf;
pub mod cf_eval;
pub mod cli;
pub mod components;
pub mod debugger;
pub mod extensions;
pub mod fixed;
pub mod formula;
pub mod mcts;
pub mod policy;
pub mod rng;
pub mod simulate;
pub mod text;
pub mod traits;
pub mod ttt;
pub mod ucb;
