use vstd::prelude::*;
use crate::constants::{GRID_HEIGHT, GRID_WIDTH};
use crate::error::ModelFault;
use crate::grid_array::{grid_shaped, GridArray};
use crate::position::Position;
use crate::tile::{Tile, TileId};

verus! {

/// What the board knows of one tile: its rank and the cell it stands on.
#[derive(Clone, Copy, PartialEq, Eq, Structural, Debug)]
pub struct TileBundle {
    pub tile: Tile,
    pub position: Position,
}

/// The tiles of a board by handle: `tiles[i]` is the tile with handle `i`,
/// or `None` once that tile has left the board.
pub type Tiles = Seq<Option<TileBundle>>;

/// The tile with handle `id` is on the board.
pub open spec fn live(tiles: Tiles, id: TileId) -> bool {
    id.0 < tiles.len() && tiles[id.0 as int] is Some
}

/// The tile with handle `i` is on the board and stands on the cell `p`.
pub open spec fn stands_at(tiles: Tiles, i: int, p: Position) -> bool {
    0 <= i < tiles.len() && tiles[i] is Some && tiles[i].unwrap().position == p
}

/// The rank of the tile `id`, for a tile that is on the board.
#[verifier::inline]
pub open spec fn rank_of(tiles: Tiles, id: TileId) -> Tile {
    tiles[id.0 as int].unwrap().tile
}

/// The cell of the tile `id`, for a tile that is on the board.
#[verifier::inline]
pub open spec fn cell_of(tiles: Tiles, id: TileId) -> Position {
    tiles[id.0 as int].unwrap().position
}

/// Some tile stands on the cell `p`.
pub open spec fn occupied(tiles: Tiles, p: Position) -> bool {
    exists|i: int| #[trigger] stands_at(tiles, i, p)
}

/// Every tile has a rank of at least 1 and stands on a cell of the board, and
/// no two tiles on the same cell; and there are no more handles than a
/// machine word can count.
pub open spec fn well_formed(tiles: Tiles) -> bool {
    &&& tiles.len() <= usize::MAX
    &&& forall|i: int|
        0 <= i < tiles.len() && (#[trigger] tiles[i]) is Some
            ==> tiles[i].unwrap().position.in_grid() && tiles[i].unwrap().tile.0 >= 1
    &&& forall|i: int, j: int|
        0 <= i < tiles.len() && 0 <= j < tiles.len() && i != j && (#[trigger] tiles[i]) is Some
            && (#[trigger] tiles[j]) is Some ==> tiles[i].unwrap().position
            != tiles[j].unwrap().position
}

/// The cells on which a tile stands.
pub open spec fn occupied_cells(tiles: Tiles) -> Set<Position> {
    Set::new(|p: Position| p.in_grid() && occupied(tiles, p))
}

/// The cells of the board on which no tile stands.
pub open spec fn empty_cells(tiles: Tiles) -> Set<Position> {
    Set::new(|p: Position| p.in_grid() && !occupied(tiles, p))
}

/// `cell` says what stands on `p`: the handle of a tile that stands there, or
/// `None` where no tile does.
pub open spec fn cell_shows(tiles: Tiles, cell: Option<TileId>, p: Position) -> bool {
    match cell {
        Some(id) => stands_at(tiles, id.0 as int, p),
        None => !occupied(tiles, p),
    }
}

/// `grid` maps every cell of the board to the tile that stands on it.
pub open spec fn is_layout_of(grid: Seq<Seq<Option<TileId>>>, tiles: Tiles) -> bool {
    &&& grid_shaped(grid)
    &&& forall|x: int, y: int|
        0 <= x < GRID_WIDTH && 0 <= y < GRID_HEIGHT ==> cell_shows(
            tiles,
            #[trigger] grid[x][y],
            Position { x: x as usize, y: y as usize },
        )
}

/// The tile that stands on `p`, for a board on which at most one does.
pub open spec fn tile_on(tiles: Tiles, p: Position) -> Option<TileId> {
    if occupied(tiles, p) {
        Some(TileId((choose|i: int| #[trigger] stands_at(tiles, i, p)) as usize))
    } else {
        None
    }
}

/// The board as a grid: for every cell, the tile that stands on it.
pub open spec fn layout_of(tiles: Tiles) -> Seq<Seq<Option<TileId>>> {
    Seq::new(
        GRID_WIDTH as nat,
        |x: int|
            Seq::new(
                GRID_HEIGHT as nat,
                |y: int| tile_on(tiles, Position { x: x as usize, y: y as usize }),
            ),
    )
}

/// On a well-formed board, the grid that maps every cell to the tile on it is `layout_of`.
pub proof fn lemma_layout_unique(grid: Seq<Seq<Option<TileId>>>, tiles: Tiles)
    requires
        well_formed(tiles),
        is_layout_of(grid, tiles),
    ensures
        grid == layout_of(tiles),
{
    assert forall|x: int, y: int| 0 <= x < GRID_WIDTH && 0 <= y < GRID_HEIGHT implies grid[x][y]
        == layout_of(tiles)[x][y] by {
        let p = Position { x: x as usize, y: y as usize };
        assert(cell_shows(tiles, grid[x][y], p));
        match grid[x][y] {
            Some(id) => {
                assert(stands_at(tiles, id.0 as int, p));
                let i = choose|i: int| #[trigger] stands_at(tiles, i, p);
                assert(stands_at(tiles, i, p));
                assert(i == id.0);
            },
            None => {},
        }
    }
    assert forall|x: int| 0 <= x < GRID_WIDTH implies grid[x] == layout_of(tiles)[x] by {
        assert(grid[x].len() == GRID_HEIGHT);
        assert(grid[x] =~= layout_of(tiles)[x]);
    }
    assert(grid =~= layout_of(tiles));
}

/// `cells` is in the order of cells, without repetition.
pub open spec fn ascending(cells: Seq<Position>) -> bool {
    forall|i: int, j: int|
        0 <= i < j < cells.len() ==> (#[trigger] cells[i]).precedes(#[trigger] cells[j])
}

/// The tiles of a game, each under a handle that stays its own for as long as
/// the board lives.
pub struct Board {
    tiles: Vec<Option<TileBundle>>,
}

impl View for Board {
    type V = Tiles;

    closed spec fn view(&self) -> Tiles {
        self.tiles@
    }
}

impl Board {
    /// Every tile has a rank of at least 1 and stands on a cell of the
    /// board, and no two tiles on the same cell.
    pub open spec fn wf(&self) -> bool {
        well_formed(self@)
    }

    /// The board without tiles.
    pub fn new() -> (board: Self)
        ensures
            board@ == Seq::<Option<TileBundle>>::empty(),
            board.wf(),
    {
        Board { tiles: Vec::new() }
    }

    /// The number of handles given out so far.
    pub fn handles(&self) -> (n: usize)
        ensures
            n == self@.len(),
    {
        self.tiles.len()
    }

    /// Rank and cell of the tile `id`, if it is on the board.
    pub fn get(&self, id: TileId) -> (r: Option<TileBundle>)
        ensures
            r == (if live(self@, id) {
                self@[id.0 as int]
            } else {
                None
            }),
    {
        if id.0 < self.tiles.len() {
            self.tiles[id.0]
        } else {
            None
        }
    }

    /// The tile `id`, which has to be on the board.
    pub fn tile(&self, id: TileId) -> (r: Result<Tile, ModelFault>)
        ensures
            r == (if live(self@, id) {
                Ok::<Tile, ModelFault>(self@[id.0 as int].unwrap().tile)
            } else {
                Err::<Tile, ModelFault>(ModelFault::NoSuchTile(id))
            }),
    {
        match self.get(id) {
            Some(bundle) => Ok(bundle.tile),
            None => Err(ModelFault::NoSuchTile(id)),
        }
    }

    /// The tile that stands on `p`: the one with the least handle, should
    /// there be several.
    pub fn tile_at(&self, p: Position) -> (r: Option<TileId>)
        ensures
            cell_shows(self@, r, p),
            r matches Some(id) ==> forall|j: int| 0 <= j < id.0 ==> !stands_at(self@, j, p),
    {
        let mut i: usize = 0;
        while i < self.tiles.len()
            invariant
                i <= self.tiles.len(),
                forall|j: int| 0 <= j < i ==> !stands_at(self@, j, p),
            decreases self.tiles.len() - i,
        {
            match self.tiles[i] {
                Some(bundle) => {
                    if bundle.position == p {
                        return Some(TileId(i));
                    }
                },
                None => {},
            }
            i += 1;
        }
        None
    }

    /// Moves the tile `id` onto the free cell `to`.
    pub fn move_tile(&mut self, id: TileId, to: Position)
        requires
            old(self).wf(),
            live(old(self)@, id),
            to.in_grid(),
            !occupied(old(self)@, to),
        ensures
            final(self).wf(),
            final(self)@ == moved(old(self)@, id, to),
    {
        let bundle = self.tiles[id.0].unwrap();
        self.tiles[id.0] = Some(TileBundle { tile: bundle.tile, position: to });
        proof {
            lemma_moved_well_formed(old(self)@, id, to);
        }
    }

    /// Gives the tile `id` the rank of `tile`.
    pub fn set_tile(&mut self, id: TileId, tile: Tile)
        requires
            old(self).wf(),
            live(old(self)@, id),
            tile.0 >= 1,
        ensures
            final(self).wf(),
            final(self)@ == ranked(old(self)@, id, tile),
    {
        let bundle = self.tiles[id.0].unwrap();
        self.tiles[id.0] = Some(TileBundle { tile, position: bundle.position });
        proof {
            lemma_ranked_well_formed(old(self)@, id, tile);
        }
    }

    /// Takes the tile `id` off the board.
    pub fn despawn(&mut self, id: TileId)
        requires
            old(self).wf(),
            live(old(self)@, id),
        ensures
            final(self).wf(),
            final(self)@ == removed(old(self)@, id),
    {
        self.tiles[id.0] = None;
        proof {
            lemma_removed_well_formed(old(self)@, id);
        }
    }
}

/// `tiles` with the tile `id` on the cell `to`.
pub open spec fn moved(tiles: Tiles, id: TileId, to: Position) -> Tiles {
    tiles.update(
        id.0 as int,
        Some(TileBundle { tile: rank_of(tiles, id), position: to }),
    )
}

/// `tiles` with the tile `id` at the rank of `tile`.
pub open spec fn ranked(tiles: Tiles, id: TileId, tile: Tile) -> Tiles {
    tiles.update(
        id.0 as int,
        Some(TileBundle { tile, position: cell_of(tiles, id) }),
    )
}

/// `tiles` without the tile `id`.
pub open spec fn removed(tiles: Tiles, id: TileId) -> Tiles {
    tiles.update(id.0 as int, None)
}

/// A tile that moves onto a free cell of the board leaves the board well-formed.
pub proof fn lemma_moved_well_formed(tiles: Tiles, id: TileId, to: Position)
    requires
        well_formed(tiles),
        live(tiles, id),
        to.in_grid(),
        !occupied(tiles, to),
    ensures
        well_formed(moved(tiles, id, to)),
{
    let after = moved(tiles, id, to);
    assert forall|i: int, j: int|
        0 <= i < after.len() && 0 <= j < after.len() && i != j && (#[trigger] after[i]) is Some && (
        #[trigger] after[j]) is Some implies after[i].unwrap().position
        != after[j].unwrap().position by {
        if i == id.0 {
            assert(!stands_at(tiles, j, to));
        } else if j == id.0 {
            assert(!stands_at(tiles, i, to));
        } else {
            assert(tiles[i] is Some && tiles[j] is Some);
        }
    }
    assert forall|i: int|
        0 <= i < after.len() && (#[trigger] after[i]) is Some
            implies after[i].unwrap().position.in_grid() && after[i].unwrap().tile.0 >= 1 by {
        if i != id.0 {
            assert(tiles[i] is Some);
        }
    }
}

/// A change of rank leaves the board well-formed.
pub proof fn lemma_ranked_well_formed(tiles: Tiles, id: TileId, tile: Tile)
    requires
        well_formed(tiles),
        live(tiles, id),
        tile.0 >= 1,
    ensures
        well_formed(ranked(tiles, id, tile)),
{
    let after = ranked(tiles, id, tile);
    assert forall|i: int, j: int|
        0 <= i < after.len() && 0 <= j < after.len() && i != j && (#[trigger] after[i]) is Some && (
        #[trigger] after[j]) is Some implies after[i].unwrap().position
        != after[j].unwrap().position by {
        assert(tiles[i] is Some && tiles[j] is Some);
    }
    assert forall|i: int|
        0 <= i < after.len() && (#[trigger] after[i]) is Some
            implies after[i].unwrap().position.in_grid() && after[i].unwrap().tile.0 >= 1 by {
        assert(tiles[i] is Some);
    }
}

/// A tile that leaves the board leaves it well-formed.
pub proof fn lemma_removed_well_formed(tiles: Tiles, id: TileId)
    requires
        well_formed(tiles),
        id.0 < tiles.len(),
    ensures
        well_formed(removed(tiles, id)),
{
    let after = removed(tiles, id);
    assert forall|i: int, j: int|
        0 <= i < after.len() && 0 <= j < after.len() && i != j && (#[trigger] after[i]) is Some && (
        #[trigger] after[j]) is Some implies after[i].unwrap().position
        != after[j].unwrap().position by {
        assert(tiles[i] is Some && tiles[j] is Some);
    }
    assert forall|i: int|
        0 <= i < after.len() && (#[trigger] after[i]) is Some
            implies after[i].unwrap().position.in_grid() && after[i].unwrap().tile.0 >= 1 by {
        assert(tiles[i] is Some);
    }
}

/// Puts a new tile onto the free cell `position` and returns its handle.
pub fn create_tile(board: &mut Board, tile: Tile, position: Position) -> (r: Result<
    TileId,
    ModelFault,
>)
    requires
        old(board).wf(),
    ensures
        final(board).wf(),
        r == (if tile.0 == 0 {
            Err::<TileId, ModelFault>(ModelFault::NoSuchRank(tile))
        } else if !position.in_grid() {
            Err::<TileId, ModelFault>(ModelFault::NoSuchCell(position))
        } else if occupied(old(board)@, position) {
            Err::<TileId, ModelFault>(ModelFault::CellOccupied(position))
        } else {
            Ok::<TileId, ModelFault>(TileId(old(board)@.len() as usize))
        }),
        r is Ok ==> final(board)@ == old(board)@.push(Some(TileBundle { tile, position })),
        r is Err ==> final(board)@ == old(board)@,
{
    if tile.0 == 0 {
        return Err(ModelFault::NoSuchRank(tile));
    }
    if position.x >= GRID_WIDTH || position.y >= GRID_HEIGHT {
        return Err(ModelFault::NoSuchCell(position));
    }
    if board.tile_at(position).is_some() {
        return Err(ModelFault::CellOccupied(position));
    }
    let id = TileId(board.tiles.len());
    board.tiles.push(Some(TileBundle { tile, position }));
    proof {
        let before = old(board)@;
        let after = board@;
        assert(after.len() == board.tiles.len());
        assert forall|i: int, j: int|
            0 <= i < after.len() && 0 <= j < after.len() && i != j && (
            #[trigger] after[i]) is Some && (#[trigger] after[j]) is Some
                implies after[i].unwrap().position
            != after[j].unwrap().position by {
            if i == before.len() {
                assert(!stands_at(before, j, position));
            } else if j == before.len() {
                assert(!stands_at(before, i, position));
            } else {
                assert(before[i] is Some && before[j] is Some);
            }
        }
    }
    Ok(id)
}

/// Which cells hold a tile.
pub fn get_tiles_layout(board: &Board) -> (layout: GridArray<bool>)
    requires
        board.wf(),
    ensures
        grid_shaped(layout@),
        forall|x: int, y: int|
            0 <= x < GRID_WIDTH && 0 <= y < GRID_HEIGHT ==> #[trigger] layout@[x][y] == occupied(
                board@,
                Position { x: x as usize, y: y as usize },
            ),
{
    let mut tiles_layout: GridArray<bool> = GridArray::new(false);
    let mut i: usize = 0;
    while i < board.tiles.len()
        invariant
            i <= board.tiles.len(),
            board.wf(),
            grid_shaped(tiles_layout@),
            forall|x: int, y: int|
                0 <= x < GRID_WIDTH && 0 <= y < GRID_HEIGHT ==> #[trigger] tiles_layout@[x][y] == (
                exists|j: int|
                    0 <= j < i && #[trigger] stands_at(
                        board@,
                        j,
                        Position { x: x as usize, y: y as usize },
                    )),
        decreases board.tiles.len() - i,
    {
        match board.tiles[i] {
            Some(bundle) => {
                let pos = bundle.position;
                assert(board@[i as int] is Some);
                let ghost prev = tiles_layout@;
                tiles_layout.set(pos.x, pos.y, true);
                assert forall|x: int, y: int|
                    0 <= x < GRID_WIDTH && 0 <= y < GRID_HEIGHT
                        implies #[trigger] tiles_layout@[x][y]
                    == (exists|j: int|
                    0 <= j < i + 1 && #[trigger] stands_at(
                        board@,
                        j,
                        Position { x: x as usize, y: y as usize },
                    )) by {
                    let p = Position { x: x as usize, y: y as usize };
                    if p == pos {
                        assert(stands_at(board@, i as int, p));
                    } else {
                        assert(tiles_layout@[x][y] == prev[x][y]);
                        if prev[x][y] {
                            let j = choose|j: int| 0 <= j < i && #[trigger] stands_at(board@, j, p);
                            assert(stands_at(board@, j, p));
                        }
                    }
                }
            },
            None => {
                assert forall|x: int, y: int|
                    0 <= x < GRID_WIDTH && 0 <= y < GRID_HEIGHT
                        implies #[trigger] tiles_layout@[x][y]
                    == (exists|j: int|
                    0 <= j < i + 1 && #[trigger] stands_at(
                        board@,
                        j,
                        Position { x: x as usize, y: y as usize },
                    )) by {
                    let p = Position { x: x as usize, y: y as usize };
                    if tiles_layout@[x][y] {
                        let j = choose|j: int| 0 <= j < i && #[trigger] stands_at(board@, j, p);
                        assert(stands_at(board@, j, p));
                    }
                }
            },
        }
        i += 1;
    }
    tiles_layout
}

/// Which tile stands on which cell.
pub fn get_tiles_layout_with_entity(board: &Board) -> (layout: GridArray<Option<TileId>>)
    requires
        board.wf(),
    ensures
        is_layout_of(layout@, board@),
        layout@ == layout_of(board@),
{
    let mut tiles_layout: GridArray<Option<TileId>> = GridArray::new(None);
    let mut i: usize = 0;
    while i < board.tiles.len()
        invariant
            i <= board.tiles.len(),
            board.wf(),
            grid_shaped(tiles_layout@),
            forall|x: int, y: int|
                0 <= x < GRID_WIDTH && 0 <= y < GRID_HEIGHT
                    ==> match #[trigger] tiles_layout@[x][y] {
                    Some(id) => id.0 < i && stands_at(
                        board@,
                        id.0 as int,
                        Position { x: x as usize, y: y as usize },
                    ),
                    None => forall|j: int|
                        0 <= j < i ==> !#[trigger] stands_at(
                            board@,
                            j,
                            Position { x: x as usize, y: y as usize },
                        ),
                },
        decreases board.tiles.len() - i,
    {
        match board.tiles[i] {
            Some(bundle) => {
                let pos = bundle.position;
                assert(board@[i as int] is Some);
                assert(stands_at(board@, i as int, pos));
                tiles_layout.set(pos.x, pos.y, Some(TileId(i)));
            },
            None => {},
        }
        i += 1;
    }
    proof {
        lemma_layout_unique(tiles_layout@, board@);
    }
    tiles_layout
}

/// The cell with the number `c` in the order of cells.
pub open spec fn cell_number(c: int) -> Position {
    Position { x: (c / (GRID_HEIGHT as int)) as usize, y: (c % (GRID_HEIGHT as int)) as usize }
}

/// The number of the cell `p` in the order of cells.
pub open spec fn number_of(p: Position) -> int {
    p.x * GRID_HEIGHT + p.y
}

/// Of the first `n` cells in the order of cells, those of which `holds` is true.
pub open spec fn cells_where(holds: spec_fn(Position) -> bool, n: int) -> Seq<Position>
    decreases n,
{
    if n <= 0 {
        Seq::empty()
    } else {
        let sofar = cells_where(holds, n - 1);
        if holds(cell_number(n - 1)) {
            sofar.push(cell_number(n - 1))
        } else {
            sofar
        }
    }
}

/// The cells on which a tile stands, in the order of cells.
pub open spec fn occupied_cells_in_order(tiles: Tiles) -> Seq<Position> {
    cells_where(|p: Position| occupied(tiles, p), GRID_WIDTH * GRID_HEIGHT)
}

/// The cells of the board on which no tile stands, in the order of cells.
pub open spec fn empty_cells_in_order(tiles: Tiles) -> Seq<Position> {
    cells_where(|p: Position| !occupied(tiles, p), GRID_WIDTH * GRID_HEIGHT)
}

/// Every cell of the board, in the order of cells.
pub open spec fn all_cells_in_order() -> Seq<Position> {
    cells_where(|p: Position| true, GRID_WIDTH * GRID_HEIGHT)
}

/// Whether the cell `p` of `layout` holds `wanted`.
pub open spec fn holding(layout: Seq<Seq<bool>>, wanted: bool) -> spec_fn(Position) -> bool {
    |p: Position| layout[p.x as int][p.y as int] == wanted
}

/// `cells_where` lists, in the order of cells and each once, exactly the
/// cells among the first `n` of which `holds` is true.
pub proof fn lemma_cells_where(holds: spec_fn(Position) -> bool, n: int)
    requires
        0 <= n <= GRID_WIDTH * GRID_HEIGHT,
    ensures
        ascending(cells_where(holds, n)),
        cells_where(holds, n).len() <= n,
        forall|k: int|
            0 <= k < cells_where(holds, n).len() ==> {
                let p = #[trigger] cells_where(holds, n)[k];
                p.in_grid() && holds(p) && number_of(p) < n
            },
        forall|p: Position|
            p.in_grid() && number_of(p) < n && holds(p) ==> cells_where(holds, n).contains(p),
    decreases n,
{
    if n > 0 {
        lemma_cells_where(holds, n - 1);
        let sofar = cells_where(holds, n - 1);
        let cells = cells_where(holds, n);
        let q = cell_number(n - 1);
        assert(q.in_grid() && number_of(q) == n - 1);
        assert forall|p: Position|
            p.in_grid() && number_of(p) < n && holds(p) implies cells.contains(p) by {
            if number_of(p) == n - 1 {
                assert(p == q);
                assert(cells[cells.len() - 1] == q);
            } else {
                assert(sofar.contains(p));
                let k = choose|k: int| 0 <= k < sofar.len() && sofar[k] == p;
                assert(cells[k] == p);
            }
        }
        assert forall|i: int, j: int|
            0 <= i < j < cells.len() implies (#[trigger] cells[i]).precedes(
            #[trigger] cells[j],
        ) by {
            if j < sofar.len() {
                assert(sofar[i].precedes(sofar[j]));
            } else {
                let p = sofar[i];
                assert(p.in_grid() && number_of(p) < n - 1);
            }
        }
    }
}

/// Two conditions that agree on every cell of the board select the same cells.
pub proof fn lemma_cells_where_agree(
    f: spec_fn(Position) -> bool,
    g: spec_fn(Position) -> bool,
    n: int,
)
    requires
        0 <= n <= GRID_WIDTH * GRID_HEIGHT,
        forall|p: Position| p.in_grid() ==> f(p) == g(p),
    ensures
        cells_where(f, n) == cells_where(g, n),
    decreases n,
{
    if n > 0 {
        lemma_cells_where_agree(f, g, n - 1);
        assert(cell_number(n - 1).in_grid());
    }
}

/// The cells of `layout` that hold `wanted`, in the order of cells.
fn cells_holding(layout: &GridArray<bool>, wanted: bool) -> (cells: Vec<Position>)
    ensures
        cells@ == cells_where(holding(layout@, wanted), GRID_WIDTH * GRID_HEIGHT),
{
    let ghost holds = holding(layout@, wanted);
    let mut cells: Vec<Position> = Vec::new();
    let mut x: usize = 0;
    while x < GRID_WIDTH
        invariant
            x <= GRID_WIDTH,
            holds == holding(layout@, wanted),
            cells@ == cells_where(holds, x * GRID_HEIGHT),
        decreases GRID_WIDTH - x,
    {
        let mut y: usize = 0;
        while y < GRID_HEIGHT
            invariant
                x < GRID_WIDTH,
                y <= GRID_HEIGHT,
                holds == holding(layout@, wanted),
                cells@ == cells_where(holds, x * GRID_HEIGHT + y),
            decreases GRID_HEIGHT - y,
        {
            assert(cell_number(x * GRID_HEIGHT + y) == Position { x, y });
            if layout.get(x, y) == wanted {
                cells.push(Position::new(x, y));
            }
            y += 1;
        }
        x += 1;
    }
    cells
}

/// The cells on which a tile stands, in the order of cells.
pub fn get_positions_set(board: &Board) -> (cells: Vec<Position>)
    requires
        board.wf(),
    ensures
        cells@ == occupied_cells_in_order(board@),
        ascending(cells@),
        cells@.to_set() == occupied_cells(board@),
{
    let layout = get_tiles_layout(board);
    let cells = cells_holding(&layout, true);
    proof {
        let n = (GRID_WIDTH * GRID_HEIGHT) as int;
        lemma_cells_where_agree(holding(layout@, true), |p: Position| occupied(board@, p), n);
        lemma_cells_in_order(board@);
    }
    cells
}

/// Every cell of the board, in the order of cells.
pub fn generate_universal_position_set() -> (cells: Vec<Position>)
    ensures
        cells@ == all_cells_in_order(),
        ascending(cells@),
        cells@.len() == GRID_WIDTH * GRID_HEIGHT,
        cells@.to_set() == Set::new(|p: Position| p.in_grid()),
{
    let layout: GridArray<bool> = GridArray::new(true);
    let cells = cells_holding(&layout, true);
    proof {
        let n = (GRID_WIDTH * GRID_HEIGHT) as int;
        lemma_cells_where_agree(holding(layout@, true), |p: Position| true, n);
        lemma_all_cells_in_order();
    }
    cells
}

/// The cells of the board on which no tile stands, in the order of cells.
pub fn get_positions_complement_set(board: &Board) -> (cells: Vec<Position>)
    requires
        board.wf(),
    ensures
        cells@ == empty_cells_in_order(board@),
        ascending(cells@),
        cells@.to_set() == empty_cells(board@),
{
    let layout = get_tiles_layout(board);
    let cells = cells_holding(&layout, false);
    proof {
        let n = (GRID_WIDTH * GRID_HEIGHT) as int;
        lemma_cells_where_agree(holding(layout@, false), |p: Position| !occupied(board@, p), n);
        lemma_cells_in_order(board@);
    }
    cells
}

/// The listings of the occupied and of the empty cells are in the order of
/// cells and hold exactly those cells.
pub proof fn lemma_cells_in_order(tiles: Tiles)
    ensures
        ascending(occupied_cells_in_order(tiles)),
        occupied_cells_in_order(tiles).to_set() == occupied_cells(tiles),
        ascending(empty_cells_in_order(tiles)),
        empty_cells_in_order(tiles).to_set() == empty_cells(tiles),
{
    let n = (GRID_WIDTH * GRID_HEIGHT) as int;
    lemma_cells_where(|p: Position| occupied(tiles, p), n);
    lemma_cells_where(|p: Position| !occupied(tiles, p), n);
    assert(occupied_cells_in_order(tiles).to_set() =~= occupied_cells(tiles));
    assert(empty_cells_in_order(tiles).to_set() =~= empty_cells(tiles));
}

/// The listing of all cells is in the order of cells and holds every cell of the board.
pub proof fn lemma_all_cells_in_order()
    ensures
        ascending(all_cells_in_order()),
        all_cells_in_order().len() == GRID_WIDTH * GRID_HEIGHT,
        all_cells_in_order().to_set() == Set::new(|p: Position| p.in_grid()),
{
    let n = (GRID_WIDTH * GRID_HEIGHT) as int;
    lemma_cells_where(|p: Position| true, n);
    assert(all_cells_in_order().to_set() =~= Set::new(|p: Position| p.in_grid()));
    lemma_all_cells_count(n);
}

/// Where the condition is true of every cell, all of the first `n` cells are listed.
proof fn lemma_all_cells_count(n: int)
    requires
        0 <= n,
    ensures
        cells_where(|p: Position| true, n).len() == n,
    decreases n,
{
    if n > 0 {
        lemma_all_cells_count(n - 1);
    }
}

/// Whether a tile stands on every cell of the board.
pub fn board_is_full(board: &Board) -> (full: bool)
    requires
        board.wf(),
    ensures
        full <==> empty_cells(board@) == Set::<Position>::empty(),
        full <==> empty_cells_in_order(board@).len() == 0,
        full <==> forall|p: Position| p.in_grid() ==> occupied(board@, p),
{
    let cells = get_positions_complement_set(board);
    proof {
        if cells@.len() == 0 {
            assert(cells@.to_set() =~= Set::<Position>::empty());
            assert forall|p: Position| p.in_grid() implies occupied(board@, p) by {
                assert(!empty_cells(board@).contains(p));
            }
        } else {
            assert(cells@.to_set().contains(cells@[0]));
            assert(empty_cells(board@).contains(cells@[0]));
        }
    }
    cells.len() == 0
}

} // verus!
