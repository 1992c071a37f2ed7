use vstd::prelude::*;
use crate::board::{Cell, TicTacToe, count_marks, winner_of};
use crate::search::{is_terminal, outcome};

verus! {

/// Why a human move is refused.
#[derive(Clone, Copy, Debug, PartialEq, Eq, Structural)]
pub enum MoveError {
    OutOfRange,
    Occupied,
}

/// Where a game stands between rounds.
#[derive(Clone, Copy, Debug, PartialEq, Eq, Structural)]
pub enum Status {
    Won(Cell),
    Draw,
    InProgress,
}

impl TicTacToe {
    /// Accepts `pos` only as an empty slot of the board.
    pub fn check_move(&self, pos: usize) -> (r: Result<(), MoveError>)
        ensures
            pos >= 9 ==> r == Err::<(), MoveError>(MoveError::OutOfRange),
            pos < 9 && self@[pos as int] is Some ==> r == Err::<(), MoveError>(MoveError::Occupied),
            pos < 9 && self@[pos as int] is None ==> r is Ok,
    {
        if pos >= 9 {
            Err(MoveError::OutOfRange)
        } else if self.0[pos].is_some() {
            Err(MoveError::Occupied)
        } else {
            Ok(())
        }
    }

    /// A completed line decides the game; otherwise it is drawn once `moves`
    /// moves were made, and goes on before.
    pub fn status(&self, moves: usize) -> (r: Status)
        ensures
            winner_of(self@) matches Some(m) ==> r == Status::Won(m),
            winner_of(self@) is None && moves >= 9 ==> r == Status::Draw,
            winner_of(self@) is None && moves < 9 ==> r == Status::InProgress,
    {
        match self.check_win() {
            Some(m) => Status::Won(m),
            None => if moves >= 9 {
                Status::Draw
            } else {
                Status::InProgress
            },
        }
    }

    /// Plays O's best reply by a full-window search, unless the game is over.
    pub fn engine_reply(&mut self) -> (r: Option<usize>)
        ensures
            is_terminal(old(self)@, count_marks(old(self)@)) ==> r is None && *final(self)
                == *old(self),
            !is_terminal(old(self)@, count_marks(old(self)@)) ==> (r matches Some(m) && m
                == outcome(old(self)@, count_marks(old(self)@), false).0 && old(self)@[m as int] is None
                && final(self)@ == old(self)@.update(m as int, Some(Cell::O))),
    {
        let depth = self.marks();
        if depth == 9 || self.check_win().is_some() {
            return None;
        }
        let (m, _) = self.minimax(depth, false, i8::MIN, i8::MAX);
        let pos = m as usize;
        self.make_move(pos, Some(Cell::O));
        Some(pos)
    }
}

} // verus!
