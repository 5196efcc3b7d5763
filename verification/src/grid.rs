//! The grid: a rectangle of cells over one tile catalog.

use vstd::prelude::*;
use crate::catalog::TileDefinition;
use crate::cell::full_range;
use crate::cell::Tile;
use crate::error::ConfigurationError;
use crate::lattice::neighbor_seq;
use crate::laws::lemma_fresh_grid;
use crate::laws::settled;
use crate::lattice::neighbors;

verus! {

/// What a grid is, as mathematics: its dimensions, its catalog, and the
/// candidate set of every position, row by row.
pub struct GridView {
    pub width: usize,
    pub height: usize,
    pub tiles: Seq<TileDefinition>,
    pub cells: Seq<Set<usize>>,
}

/// A candidate set is finite and names tiles of the catalog only.
pub open spec fn cell_valid(cell: Set<usize>, tile_count: nat) -> bool {
    cell.finite() && forall|t: usize| cell.contains(t) ==> t < tile_count
}

/// Every cell of `cells` has exactly one candidate.
pub open spec fn fully_collapsed(cells: Seq<Set<usize>>) -> bool {
    forall|i: int| 0 <= i < cells.len() ==> (#[trigger] cells[i]).len() == 1
}

/// Cell `c` is not collapsed and has entropy `m`.
pub open spec fn open_with_entropy(cells: Seq<Set<usize>>, c: int, m: nat) -> bool {
    0 <= c < cells.len() && cells[c].len() != 1 && cells[c].len() == m
}

/// `m` is the largest entropy among the cells that are not collapsed.
pub open spec fn is_max_open_entropy(cells: Seq<Set<usize>>, m: nat) -> bool {
    &&& exists|c: int| open_with_entropy(cells, c, m)
    &&& forall|i: int|
        0 <= i < cells.len() && (#[trigger] cells[i]).len() != 1 ==> cells[i].len() <= m
}

impl GridView {
    /// The dimensions are positive, the catalog is not empty, there is one
    /// cell per position, and every cell is valid.
    pub open spec fn valid(self) -> bool {
        &&& 0 < self.width
        &&& 0 < self.height
        &&& 0 < self.tiles.len() <= usize::MAX
        &&& self.width * self.height <= usize::MAX
        &&& self.cells.len() == self.width * self.height
        &&& forall|i: int|
            0 <= i < self.cells.len() ==> cell_valid(#[trigger] self.cells[i], self.tiles.len())
    }

    /// The same grid with other cells.
    pub open spec fn with_cells(self, cells: Seq<Set<usize>>) -> GridView {
        GridView { width: self.width, height: self.height, tiles: self.tiles, cells }
    }
}

/// The grid in which every tile of the catalog is possible everywhere.
pub open spec fn fresh_grid(width: usize, height: usize, tiles: Seq<TileDefinition>) -> GridView {
    GridView {
        width,
        height,
        tiles,
        cells: Seq::new((width * height) as nat, |i: int| full_range(tiles.len() as usize)),
    }
}

/// A rectangle of cells over one catalog. Its cells change through the
/// solver only.
pub struct Grid {
    pub(crate) width: usize,
    pub(crate) height: usize,
    pub(crate) tiles: Vec<TileDefinition>,
    pub(crate) cells: Vec<Tile>,
}

impl Grid {
    /// The grid as mathematics.
    pub open(crate) spec fn view(&self) -> GridView {
        GridView {
            width: self.width,
            height: self.height,
            tiles: self.tiles@,
            cells: Seq::new(self.cells@.len(), |i: int| self.cells@[i]@),
        }
    }

    /// The grid's model is valid and no cell lists a candidate twice.
    pub open(crate) spec fn wf(&self) -> bool {
        &&& self@.valid()
        &&& forall|i: int| 0 <= i < self.cells@.len() ==> (#[trigger] self.cells@[i]).wf()
    }

    /// Builds the grid of `width` by `height` cells in which every tile of
    /// the catalog is possible everywhere. A grid without cells and a
    /// catalog without tiles are refused, in that order.
    pub fn create(width: usize, height: usize, tiles: Vec<TileDefinition>) -> (r: Result<
        Grid,
        ConfigurationError,
    >)
        requires
            width * height <= usize::MAX,
        ensures
            width == 0 || height == 0 ==> r == Err::<Grid, ConfigurationError>(
                ConfigurationError::EmptyGrid,
            ),
            width > 0 && height > 0 && tiles@.len() == 0 ==> r == Err::<Grid, ConfigurationError>(
                ConfigurationError::EmptyCatalog,
            ),
            width > 0 && height > 0 && tiles@.len() > 0 ==> r is Ok,
            r matches Ok(grid) ==> grid.wf() && grid@ == fresh_grid(width, height, tiles@),
            r matches Ok(grid) ==> tiles@.len() >= 2 ==> settled(grid@),
    {
        if width == 0 || height == 0 {
            return Err(ConfigurationError::EmptyGrid);
        }
        if tiles.len() == 0 {
            return Err(ConfigurationError::EmptyCatalog);
        }
        let count: usize = width * height;
        let size: usize = tiles.len();
        let mut cells: Vec<Tile> = Vec::new();
        let mut k: usize = 0;
        while k < count
            invariant
                k <= count,
                cells@.len() == k,
                forall|i: int|
                    0 <= i < k ==> (#[trigger] cells@[i]).wf() && cells@[i]@ == full_range(size),
            decreases count - k,
        {
            cells.push(Tile::new(size));
            k += 1;
        }
        let grid = Grid { width, height, tiles, cells };
        proof {
            assert(grid@.cells =~= fresh_grid(width, height, tiles@).cells);
            assert forall|i: int| 0 <= i < grid@.cells.len() implies cell_valid(
                #[trigger] grid@.cells[i],
                grid@.tiles.len(),
            ) by {
                grid.cells@[i].lemma_finite();
            }
            assert(grid@ == fresh_grid(width, height, grid.tiles@));
            lemma_fresh_grid(width, height, grid.tiles@);
        }
        Ok(grid)
    }

    /// The number of columns.
    pub fn width(&self) -> (w: usize)
        ensures
            w == self@.width,
    {
        self.width
    }

    /// The number of rows.
    pub fn height(&self) -> (h: usize)
        ensures
            h == self@.height,
    {
        self.height
    }

    /// The number of cells.
    pub fn len(&self) -> (n: usize)
        ensures
            n == self@.cells.len(),
    {
        self.cells.len()
    }

    /// The catalog.
    pub fn tiles(&self) -> (tiles: &Vec<TileDefinition>)
        ensures
            tiles@ == self@.tiles,
    {
        &self.tiles
    }

    /// The cell at `index`.
    pub fn cell(&self, index: usize) -> (cell: &Tile)
        requires
            self.wf(),
            index < self@.cells.len(),
        ensures
            cell.wf(),
            cell@ == self@.cells[index as int],
    {
        &self.cells[index]
    }

    /// The neighbors of `index` with the direction that leads to each.
    pub fn neighbors_of(&self, index: usize) -> (neighs: Vec<(usize, usize)>)
        requires
            self.wf(),
            index < self@.cells.len(),
        ensures
            neighs@ == neighbor_seq(index, self@.width, self@.height),
    {
        neighbors(index, self.width, self.height)
    }

    /// Whether every cell is collapsed.
    pub fn is_fully_collapsed(&self) -> (done: bool)
        requires
            self.wf(),
        ensures
            done == fully_collapsed(self@.cells),
    {
        let mut k: usize = 0;
        while k < self.cells.len()
            invariant
                self.wf(),
                k <= self.cells.len(),
                forall|i: int| 0 <= i < k ==> (#[trigger] self@.cells[i]).len() == 1,
            decreases self.cells.len() - k,
        {
            if !self.cells[k].is_collapsed() {
                assert(self@.cells[k as int].len() != 1);
                return false;
            }
            k += 1;
        }
        true
    }

    /// The largest entropy among the cells that are not collapsed, if there
    /// is such a cell.
    pub fn max_entropy_among_uncollapsed(&self) -> (max: Option<usize>)
        requires
            self.wf(),
        ensures
            max is None <==> fully_collapsed(self@.cells),
            max matches Some(m) ==> is_max_open_entropy(self@.cells, m as nat),
    {
        let mut max: Option<usize> = None;
        let ghost mut holder: int = 0;
        let mut k: usize = 0;
        while k < self.cells.len()
            invariant
                self.wf(),
                k <= self.cells.len(),
                max is None ==> forall|i: int| 0 <= i < k ==> (#[trigger] self@.cells[i]).len() == 1,
                max matches Some(m) ==> open_with_entropy(self@.cells, holder, m as nat),
                max matches Some(m) ==> forall|i: int|
                    0 <= i < k && (#[trigger] self@.cells[i]).len() != 1 ==> self@.cells[i].len() <= m,
            decreases self.cells.len() - k,
        {
            let cell = &self.cells[k];
            if !cell.is_collapsed() {
                let e = cell.entropy();
                let larger = match max {
                    None => true,
                    Some(m) => e > m,
                };
                if larger {
                    max = Some(e);
                    proof {
                        holder = k as int;
                    }
                }
            }
            k += 1;
        }
        proof {
            if max is Some {
                assert(self@.cells[holder].len() != 1);
            }
        }
        max
    }
}

} // verus!
