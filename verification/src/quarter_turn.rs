use vstd::prelude::*;
use crate::constants::{GRID_HEIGHT, GRID_WIDTH};

verus! {

/// A rotation of the board by a multiple of a quarter turn.
///
/// Seen through a turn, every move is a fall toward column 0 of each line.
#[derive(Clone, Copy, PartialEq, Eq, Structural, Debug)]
pub enum QuarterTurn {
    Deg000,
    Deg090,
    Deg180,
    Deg270,
}

impl QuarterTurn {
    /// The number of quarter turns, from 0 to 3.
    pub open spec fn count(self) -> nat {
        match self {
            QuarterTurn::Deg000 => 0,
            QuarterTurn::Deg090 => 1,
            QuarterTurn::Deg180 => 2,
            QuarterTurn::Deg270 => 3,
        }
    }

    /// The turn that undoes `self`: together they make a full turn.
    pub open spec fn inverse(self) -> QuarterTurn {
        match self {
            QuarterTurn::Deg000 => QuarterTurn::Deg000,
            QuarterTurn::Deg090 => QuarterTurn::Deg270,
            QuarterTurn::Deg180 => QuarterTurn::Deg180,
            QuarterTurn::Deg270 => QuarterTurn::Deg090,
        }
    }

    /// Number of lines of the board seen through the turn.
    pub open spec fn spec_width(self) -> nat {
        match self {
            QuarterTurn::Deg000 | QuarterTurn::Deg180 => GRID_WIDTH as nat,
            QuarterTurn::Deg090 | QuarterTurn::Deg270 => GRID_HEIGHT as nat,
        }
    }

    /// Number of cells in each line of the board seen through the turn.
    pub open spec fn spec_height(self) -> nat {
        match self {
            QuarterTurn::Deg000 | QuarterTurn::Deg180 => GRID_HEIGHT as nat,
            QuarterTurn::Deg090 | QuarterTurn::Deg270 => GRID_WIDTH as nat,
        }
    }

    /// `(i, j)` names a cell of the board seen through the turn.
    pub open spec fn in_view(self, i: int, j: int) -> bool {
        0 <= i < self.spec_width() && 0 <= j < self.spec_height()
    }

    /// The cell of the board that is read at line `i`, column `j` through the turn.
    pub open spec fn source(self, i: int, j: int) -> (int, int) {
        match self {
            QuarterTurn::Deg000 => (i, j),
            QuarterTurn::Deg090 => (j, GRID_HEIGHT - 1 - i),
            QuarterTurn::Deg180 => (GRID_WIDTH - 1 - i, GRID_HEIGHT - 1 - j),
            QuarterTurn::Deg270 => (GRID_WIDTH - 1 - j, i),
        }
    }

    /// The line and column through the turn at which the cell `(x, y)` of the board is read.
    pub open spec fn target(self, x: int, y: int) -> (int, int) {
        match self {
            QuarterTurn::Deg000 => (x, y),
            QuarterTurn::Deg090 => (GRID_HEIGHT - 1 - y, x),
            QuarterTurn::Deg180 => (GRID_WIDTH - 1 - x, GRID_HEIGHT - 1 - y),
            QuarterTurn::Deg270 => (y, GRID_WIDTH - 1 - x),
        }
    }

    /// The step on the board that is one column toward column 0 through the turn.
    pub open spec fn spec_downward_unit(self) -> (isize, isize) {
        match self {
            QuarterTurn::Deg000 => (0isize, -1isize),
            QuarterTurn::Deg090 => (-1isize, 0isize),
            QuarterTurn::Deg180 => (0isize, 1isize),
            QuarterTurn::Deg270 => (1isize, 0isize),
        }
    }

    pub fn downward_unit(&self) -> (d: (isize, isize))
        ensures
            d == self.spec_downward_unit(),
    {
        match self {
            QuarterTurn::Deg000 => (0, -1),
            QuarterTurn::Deg090 => (-1, 0),
            QuarterTurn::Deg180 => (0, 1),
            QuarterTurn::Deg270 => (1, 0),
        }
    }

    /// Every cell seen through the turn is read from a cell of the board, and
    /// `target` leads back from that cell to where it is seen.
    pub proof fn lemma_source_in_grid(self, i: int, j: int)
        requires
            self.in_view(i, j),
        ensures
            0 <= self.source(i, j).0 < GRID_WIDTH,
            0 <= self.source(i, j).1 < GRID_HEIGHT,
            self.target(self.source(i, j).0, self.source(i, j).1) == (i, j),
    {
    }

    /// Every cell of the board is seen through the turn, at `target`.
    pub proof fn lemma_target_in_view(self, x: int, y: int)
        requires
            0 <= x < GRID_WIDTH,
            0 <= y < GRID_HEIGHT,
        ensures
            self.in_view(self.target(x, y).0, self.target(x, y).1),
            self.source(self.target(x, y).0, self.target(x, y).1) == (x, y),
    {
    }

    /// Through the turn, the cell one column nearer to column 0 is the cell of
    /// the board that lies one `downward_unit` further.
    pub proof fn lemma_downward_unit_steps_to_front(self, i: int, j: int)
        ensures
            self.source(i, j - 1).0 == self.source(i, j).0 + self.spec_downward_unit().0,
            self.source(i, j - 1).1 == self.source(i, j).1 + self.spec_downward_unit().1,
    {
    }

    /// Reading through a turn what was read through its inverse gives the cell itself.
    pub proof fn lemma_inverse_undoes(self, i: int, j: int)
        ensures
            self.source(self.inverse().source(i, j).0, self.inverse().source(i, j).1) == (i, j),
            self.inverse().source(self.source(i, j).0, self.source(i, j).1) == (i, j),
            self.inverse().inverse() == self,
            (self.count() + self.inverse().count()) % 4 == 0,
    {
    }
}

impl Default for QuarterTurn {
    fn default() -> (t: Self)
        ensures
            t == QuarterTurn::Deg000,
    {
        QuarterTurn::Deg000
    }
}

} // verus!
