use vstd::prelude::*;
use crate::board::defs::Pieces;

verus! {

/// The playfield: 72 cells, row-major, six columns, row 0 at the bottom.
pub type Board = [Pieces; 72];

/// A board together with the water level of the current round.
#[derive(Clone, Copy)]
pub struct GameState {
    pub board: Board,
    /// Crabs in rows strictly above this one are washed away.
    pub water_level: u8,
}

/// A cell given by column `x` and row `y`.
#[derive(Copy, Clone, Debug)]
pub struct Move {
    pub x: usize,
    pub y: usize,
}

/// A move together with its score.
#[derive(Debug, Copy, Clone)]
pub struct SearchResult {
    pub move_id: usize,
    pub score: i16,
}

impl PartialEq for GameState {
    fn eq(&self, other: &Self) -> (r: bool) {
        let mut i: usize = 0;
        while i < 72
            invariant
                i <= 72,
                forall|j: int| 0 <= j < i ==> self.board@[j] == other.board@[j],
            decreases 72 - i,
        {
            if self.board[i] != other.board[i] {
                return false;
            }
            i = i + 1;
        }
        assert(self.board@ =~= other.board@);
        true
    }
}

impl Eq for GameState {

}

impl vstd::std_specs::cmp::PartialEqSpecImpl for GameState {
    open spec fn obeys_eq_spec() -> bool {
        true
    }

    open spec fn eq_spec(&self, other: &GameState) -> bool {
        self.board@ == other.board@
    }
}

} // verus!
