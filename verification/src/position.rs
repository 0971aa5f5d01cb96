use vstd::prelude::*;
use vstd::std_specs::convert::FromSpecImpl;
use crate::constants::{GRID_HEIGHT, GRID_WIDTH};

verus! {

/// A cell coordinate. Cells are ordered by `x`, then by `y`.
#[derive(Clone, Copy, PartialOrd, Ord, PartialEq, Eq, Structural, Debug)]
pub struct Position {
    pub x: usize,
    pub y: usize,
}

impl Position {
    /// The cell lies on the board.
    pub open spec fn in_grid(self) -> bool {
        self.x < GRID_WIDTH && self.y < GRID_HEIGHT
    }

    /// `self` comes strictly before `other` in the order of cells: `x` first, then `y`.
    pub open spec fn precedes(self, other: Position) -> bool {
        self.x < other.x || (self.x == other.x && self.y < other.y)
    }

    /// The cell reached from `self` by `delta`, as mathematical integers.
    pub open spec fn shifted(self, delta: (isize, isize)) -> (int, int) {
        (self.x + delta.0, self.y + delta.1)
    }

    /// `delta` leads from `self` to a cell of the board.
    pub open spec fn shift_in_grid(self, delta: (isize, isize)) -> bool {
        &&& 0 <= self.shifted(delta).0 < GRID_WIDTH
        &&& 0 <= self.shifted(delta).1 < GRID_HEIGHT
    }

    pub fn new(x: usize, y: usize) -> (p: Self)
        ensures
            p == (Position { x, y }),
    {
        Self { x, y }
    }

    /// Moves the position by `delta`.
    pub fn shift(&mut self, delta: (isize, isize))
        requires
            0 <= old(self).shifted(delta).0 <= usize::MAX,
            0 <= old(self).shifted(delta).1 <= usize::MAX,
        ensures
            final(self).x == old(self).shifted(delta).0,
            final(self).y == old(self).shifted(delta).1,
    {
        let x = self.x.checked_add_signed(delta.0);
        let y = self.y.checked_add_signed(delta.1);
        self.x = x.unwrap();
        self.y = y.unwrap();
    }

    /// The position moved by `delta`, if that is a cell of the board.
    pub fn checked_shift(self, delta: (isize, isize)) -> (r: Option<Position>)
        ensures
            r.is_some() <==> self.shift_in_grid(delta),
            r matches Some(p) ==> p.x == self.shifted(delta).0 && p.y == self.shifted(delta).1,
    {
        match (self.x.checked_add_signed(delta.0), self.y.checked_add_signed(delta.1)) {
            (Some(x), Some(y)) => {
                if x < GRID_WIDTH && y < GRID_HEIGHT {
                    Some(Position { x, y })
                } else {
                    None
                }
            },
            _ => None,
        }
    }
}

/// The order of cells is a strict total order: no cell comes before itself,
/// of two different cells one comes before the other, and what comes before
/// a cell comes before every cell behind that one.
pub proof fn lemma_cells_are_totally_ordered(a: Position, b: Position, c: Position)
    ensures
        !a.precedes(a),
        a != b ==> (a.precedes(b) <==> !b.precedes(a)),
        a.precedes(b) && b.precedes(c) ==> a.precedes(c),
{
}

impl From<(usize, usize)> for Position {
    fn from(value: (usize, usize)) -> (p: Self) {
        Position::new(value.0, value.1)
    }
}

impl FromSpecImpl<(usize, usize)> for Position {
    open spec fn obeys_from_spec() -> bool {
        true
    }

    open spec fn from_spec(value: (usize, usize)) -> Self {
        Position { x: value.0, y: value.1 }
    }
}

} // verus!
