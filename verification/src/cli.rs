//! What a command of the command line comes to.

use vstd::prelude::*;

verus! {

/// The outcome of a command: done, done with a warning, or refused.
pub enum CommandOut<T, U, V> {
    Success(T),
    Warning((T, U)),
    Error(V),
}

} // verus!
