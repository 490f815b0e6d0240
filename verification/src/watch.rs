//! Watching a solver at work.

use vstd::prelude::*;
use crate::board::GameBoard;

verus! {

/// Someone who is shown every board that a solver visits, for instance to
/// draw it. A solver's result never depends on its observer.
pub trait Observer {
    /// Called with each board the solver has just reached.
    fn visit(&mut self, board: &GameBoard);
}

/// The observer that looks away.
#[derive(Debug, Clone, Copy)]
pub struct Silent;

impl Observer for Silent {
    fn visit(&mut self, board: &GameBoard) {
    }
}

} // verus!
