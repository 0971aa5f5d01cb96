use vstd::prelude::*;
use crate::constants::{GRID_HEIGHT, GRID_WIDTH};
use crate::quarter_turn::QuarterTurn;

verus! {

/// A value for every cell of the board: `grid@[x][y]` for `x < GRID_WIDTH`, `y < GRID_HEIGHT`.
pub struct GridArray<T>(pub [[T; GRID_HEIGHT]; GRID_WIDTH]);

impl<T> View for GridArray<T> {
    type V = Seq<Seq<T>>;

    open spec fn view(&self) -> Seq<Seq<T>> {
        Seq::new(GRID_WIDTH as nat, |x: int| self.0[x]@)
    }
}

/// `g` has a value for every cell of the board and for nothing else.
pub open spec fn grid_shaped<T>(g: Seq<Seq<T>>) -> bool {
    &&& g.len() == GRID_WIDTH
    &&& forall|x: int| 0 <= x < GRID_WIDTH ==> (#[trigger] g[x]).len() == GRID_HEIGHT
}

/// What is seen of `g` through `turn`: line `i`, column `j` holds what `g`
/// holds at `turn.source(i, j)`.
pub open spec fn rotated<T>(g: Seq<Seq<T>>, turn: QuarterTurn) -> Seq<Seq<T>> {
    Seq::new(
        turn.spec_width(),
        |i: int|
            Seq::new(
                turn.spec_height(),
                |j: int| g[turn.source(i, j).0][turn.source(i, j).1],
            ),
    )
}

/// Views of rows as sequences.
pub open spec fn rows_view<T>(rows: Seq<Vec<T>>) -> Seq<Seq<T>> {
    rows.map_values(|row: Vec<T>| row@)
}

impl<T: Copy> GridArray<T> {
    /// The grid that holds `a` in every cell.
    pub fn new(a: T) -> (g: Self)
        ensures
            grid_shaped(g@),
            forall|x: int, y: int|
                0 <= x < GRID_WIDTH && 0 <= y < GRID_HEIGHT ==> #[trigger] g@[x][y] == a,
    {
        GridArray([[a; GRID_HEIGHT]; GRID_WIDTH])
    }

    /// What the cell `(x, y)` holds.
    pub fn get(&self, x: usize, y: usize) -> (v: T)
        requires
            x < GRID_WIDTH,
            y < GRID_HEIGHT,
        ensures
            v == self@[x as int][y as int],
    {
        self.0[x][y]
    }

    /// Puts `v` into the cell `(x, y)` and leaves every other cell as it is.
    pub fn set(&mut self, x: usize, y: usize, v: T)
        requires
            x < GRID_WIDTH,
            y < GRID_HEIGHT,
        ensures
            final(self)@ == old(self)@.update(x as int, old(self)@[x as int].update(y as int, v)),
    {
        self.0[x][y] = v;
        assert(self@ =~~= old(self)@.update(x as int, old(self)@[x as int].update(y as int, v)));
    }
}

/// A grid seen through a quarter turn.
pub struct RotatedGridArray<T> {
    pub grid_array: GridArray<T>,
    pub turn: QuarterTurn,
}

impl<T> View for RotatedGridArray<T> {
    type V = Seq<Seq<T>>;

    open spec fn view(&self) -> Seq<Seq<T>> {
        rotated(self.grid_array@, self.turn)
    }
}

impl<T> RotatedGridArray<T> {
    pub fn new(grid_array: GridArray<T>, turn: QuarterTurn) -> (r: Self)
        ensures
            r.grid_array == grid_array,
            r.turn == turn,
    {
        Self { grid_array, turn }
    }

    /// Number of lines.
    pub fn width(&self) -> (w: usize)
        ensures
            w == self.turn.spec_width(),
            w == self@.len(),
    {
        match self.turn {
            QuarterTurn::Deg000 | QuarterTurn::Deg180 => GRID_WIDTH,
            QuarterTurn::Deg090 | QuarterTurn::Deg270 => GRID_HEIGHT,
        }
    }

    /// Number of cells in each line.
    pub fn height(&self) -> (h: usize)
        ensures
            h == self.turn.spec_height(),
            forall|i: int| 0 <= i < self@.len() ==> (#[trigger] self@[i]).len() == h,
    {
        match self.turn {
            QuarterTurn::Deg000 | QuarterTurn::Deg180 => GRID_HEIGHT,
            QuarterTurn::Deg090 | QuarterTurn::Deg270 => GRID_WIDTH,
        }
    }

    /// What is seen at line `i`, column `j`, if there is such a cell.
    pub fn get(&self, i: usize, j: usize) -> (r: Option<&T>)
        ensures
            r.is_some() <==> self.turn.in_view(i as int, j as int),
            r matches Some(v) ==> *v == self@[i as int][j as int],
    {
        if i >= self.width() || j >= self.height() {
            return None;
        }
        let (x, y): (usize, usize) = match self.turn {
            QuarterTurn::Deg000 => (i, j),
            QuarterTurn::Deg090 => (j, GRID_HEIGHT - 1 - i),
            QuarterTurn::Deg180 => (GRID_WIDTH - 1 - i, GRID_HEIGHT - 1 - j),
            QuarterTurn::Deg270 => (GRID_WIDTH - 1 - j, i),
        };
        Some(&self.grid_array.0[x][y])
    }
}

impl<T: Copy> RotatedGridArray<T> {
    /// The lines of the board as seen through the turn, each from column 0 on.
    pub fn into_vec(self) -> (rows: Vec<Vec<T>>)
        ensures
            rows_view(rows@) == self@,
    {
        let mut vec: Vec<Vec<T>> = Vec::new();
        let width = self.width();
        let height = self.height();
        let mut i: usize = 0;
        while i < width
            invariant
                i <= width,
                width == self.turn.spec_width(),
                height == self.turn.spec_height(),
                vec@.len() == i,
                forall|k: int| 0 <= k < i ==> (#[trigger] vec@[k])@ == self@[k],
            decreases width - i,
        {
            let mut y_axis: Vec<T> = Vec::new();
            let mut j: usize = 0;
            while j < height
                invariant
                    i < width,
                    j <= height,
                    width == self.turn.spec_width(),
                    height == self.turn.spec_height(),
                    y_axis@.len() == j,
                    forall|k: int| 0 <= k < j ==> #[trigger] y_axis@[k] == self@[i as int][k],
                decreases height - j,
            {
                let op = self.get(i, j);
                let val = *op.unwrap();
                y_axis.push(val);
                j += 1;
            }
            assert(y_axis@ =~= self@[i as int]);
            vec.push(y_axis);
            i += 1;
        }
        assert(rows_view(vec@) =~= self@);
        vec
    }
}

/// Turning the board by any quarter turn and then by its inverse, which
/// completes the full turn, gives the board back.
pub proof fn lemma_rotation_round_trip<T>(g: Seq<Seq<T>>, turn: QuarterTurn)
    requires
        grid_shaped(g),
    ensures
        rotated(rotated(g, turn), turn.inverse()) == g,
        rotated(rotated(g, turn.inverse()), turn) == g,
        (turn.count() + turn.inverse().count()) % 4 == 0,
{
    assert(rotated(rotated(g, turn), turn.inverse()) =~~= g);
    assert(rotated(rotated(g, turn.inverse()), turn) =~~= g);
}

} // verus!
