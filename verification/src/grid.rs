//! The rectangular grid: its index space and the terrain of each cell.

use crate::pos::Position;
use crate::tiles::{get_data, growable, tile_data, walkable, TileData, TileType};
use vstd::arithmetic::div_mod::{lemma_fundamental_div_mod, lemma_fundamental_div_mod_converse};
use vstd::prelude::*;

verus! {

/// The largest number of cells a grid can hold: every index and every
/// coordinate then fits a signed 32-bit integer.
pub const MAX_CELLS: usize = 2147483647;

/// Why a grid could not be built, or why a call on it was refused.
#[derive(Copy, Clone, Debug, PartialEq, Eq, Structural)]
pub enum GridError {
    /// The width or the height is zero.
    ZeroDimension,
    /// Width times height exceeds `MAX_CELLS`.
    TooLarge,
    /// The number of tiles handed over is not width times height.
    TileCountMismatch,
    /// A cell index is not below the number of cells.
    IndexOutOfRange,
    /// A position lies outside the grid.
    OutOfBounds,
}

/// Marker for maps that a path search can run on.
pub trait Searchable {
}

/// A rectangular map of tiles, stored row by row.
pub struct Grid {
    tiles: Vec<TileType>,
    width: usize,
    height: usize,
}

impl Searchable for Grid {
}

impl Grid {
    /// Number of columns.
    pub closed spec fn spec_width(&self) -> nat {
        self.width as nat
    }

    /// Number of rows.
    pub closed spec fn spec_height(&self) -> nat {
        self.height as nat
    }

    /// The terrain of every cell, row by row.
    pub closed spec fn cells(&self) -> Seq<TileType> {
        self.tiles@
    }

    /// Number of cells.
    pub open spec fn spec_len(&self) -> nat {
        self.cells().len()
    }

    /// What holds of every grid: both dimensions are positive and there is
    /// exactly one tile per cell.
    pub open spec fn wf(&self) -> bool {
        &&& self.spec_width() > 0
        &&& self.spec_height() > 0
        &&& self.cells().len() == self.spec_width() * self.spec_height()
        &&& self.cells().len() <= MAX_CELLS
    }

    #[verifier::type_invariant]
    pub(crate) open spec fn inv(&self) -> bool {
        self.wf()
    }

    /// Column of the cell with the given index.
    pub open spec fn col(&self, index: int) -> int {
        index % (self.spec_width() as int)
    }

    /// Row of the cell with the given index.
    pub open spec fn row(&self, index: int) -> int {
        index / (self.spec_width() as int)
    }

    /// Whether column `x`, row `y` names a cell of the grid.
    pub open spec fn has_cell(&self, x: int, y: int) -> bool {
        0 <= x < self.spec_width() && 0 <= y < self.spec_height()
    }

    /// Index of the cell in column `x`, row `y`.
    pub open spec fn cell_index(&self, x: int, y: int) -> int {
        y * self.spec_width() + x
    }

    /// Whether the position names a cell of the grid.
    pub open spec fn spec_in_bounds(&self, pos: Position) -> bool {
        self.has_cell(pos.x as int, pos.y as int)
    }

    /// Index of the cell at a position.
    pub open spec fn index_of(&self, pos: Position) -> int {
        self.cell_index(pos.x as int, pos.y as int)
    }

    /// Position of the cell with the given index.
    pub open spec fn coord_of(&self, index: int) -> Position {
        Position { x: self.col(index) as i32, y: self.row(index) as i32 }
    }

    /// Whether the cell allows movement onto it.
    pub open spec fn spec_walkable(&self, index: int) -> bool {
        walkable(self.cells()[index])
    }

    /// Whether flora can grow on the cell.
    pub open spec fn spec_growable(&self, index: int) -> bool {
        growable(self.cells()[index])
    }

    /// Whether the cell blocks all traversal.
    pub open spec fn spec_opaque(&self, index: int) -> bool {
        !walkable(self.cells()[index])
    }

    /// The cell in column `x`, row `y` has an index below the number of
    /// cells, and that index leads back to `x` and `y`.
    pub proof fn lemma_cell_index(&self, x: int, y: int)
        requires
            self.wf(),
            self.has_cell(x, y),
        ensures
            0 <= self.cell_index(x, y) < self.spec_len(),
            self.col(self.cell_index(x, y)) == x,
            self.row(self.cell_index(x, y)) == y,
    {
        let w = self.spec_width() as int;
        let h = self.spec_height() as int;
        assert(y * w + x < w * h) by (nonlinear_arith)
            requires
                0 <= x < w,
                0 <= y < h,
        ;
        assert(0 <= y * w + x) by (nonlinear_arith)
            requires
                0 <= x < w,
                0 <= y < h,
        ;
        lemma_fundamental_div_mod_converse(y * w + x, w, y, x);
    }

    /// Every index below the number of cells names a cell of the grid, and
    /// its column and row lead back to the index.
    pub proof fn lemma_col_row(&self, index: int)
        requires
            self.wf(),
            0 <= index < self.spec_len(),
        ensures
            self.has_cell(self.col(index), self.row(index)),
            self.cell_index(self.col(index), self.row(index)) == index,
    {
        let w = self.spec_width() as int;
        let h = self.spec_height() as int;
        lemma_fundamental_div_mod(index, w);
        let q = index / w;
        let r = index % w;
        assert(0 <= r < w);
        assert(q >= 0) by (nonlinear_arith)
            requires
                index == w * q + r,
                index >= 0,
                0 <= r < w,
        ;
        assert(q < h) by (nonlinear_arith)
            requires
                index == w * q + r,
                index < w * h,
                0 <= r < w,
                w > 0,
        ;
        assert(q * w + r == index) by (nonlinear_arith)
            requires
                index == w * q + r,
        ;
    }

    /// Converting a position inside the grid to its index and back gives
    /// the position again.
    pub proof fn lemma_position_round_trip(&self, pos: Position)
        requires
            self.wf(),
            self.spec_in_bounds(pos),
        ensures
            0 <= self.index_of(pos) < self.spec_len(),
            self.coord_of(self.index_of(pos)) == pos,
    {
        self.lemma_cell_index(pos.x as int, pos.y as int);
    }

    /// Converting an index below the number of cells to its position and
    /// back gives the index again.
    pub proof fn lemma_index_round_trip(&self, index: int)
        requires
            self.wf(),
            0 <= index < self.spec_len(),
        ensures
            self.spec_in_bounds(self.coord_of(index)),
            self.index_of(self.coord_of(index)) == index,
    {
        self.lemma_col_row(index);
    }

    /// Builds a grid of `width` columns and `height` rows, every cell grass.
    pub fn new(width: u32, height: u32) -> (r: Result<Grid, GridError>)
        ensures
            (width == 0 || height == 0) <==> r == Err::<Grid, GridError>(GridError::ZeroDimension),
            (width > 0 && height > 0 && width * height > MAX_CELLS) <==> r == Err::<
                Grid,
                GridError,
            >(GridError::TooLarge),
            (width > 0 && height > 0 && width * height <= MAX_CELLS) <==> r is Ok,
            r is Ok ==> {
                let grid = r->Ok_0;
                &&& grid.wf()
                &&& grid.spec_width() == width
                &&& grid.spec_height() == height
                &&& forall|i: int| 0 <= i < grid.spec_len() ==> grid.cells()[i] == TileType::Grass
            },
    {
        if width == 0 || height == 0 {
            return Err(GridError::ZeroDimension);
        }
        assert(width * height <= 0xffff_ffff * 0xffff_ffff) by (nonlinear_arith)
            requires
                0 <= width <= 0xffff_ffff,
                0 <= height <= 0xffff_ffff,
        ;
        let count: u64 = (width as u64) * (height as u64);
        if count > MAX_CELLS as u64 {
            return Err(GridError::TooLarge);
        }
        let mut tiles: Vec<TileType> = Vec::new();
        let mut filled: u64 = 0;
        while filled < count
            invariant
                filled <= count,
                tiles@.len() == filled,
                forall|i: int| 0 <= i < tiles@.len() ==> tiles@[i] == TileType::Grass,
            decreases count - filled,
        {
            tiles.push(TileType::Grass);
            filled = filled + 1;
        }
        Ok(Grid { tiles, width: width as usize, height: height as usize })
    }

    /// Builds a grid from the terrain of its cells, given row by row.
    pub fn from_tiles(width: u32, height: u32, tiles: Vec<TileType>) -> (r: Result<
        Grid,
        GridError,
    >)
        ensures
            (width == 0 || height == 0) <==> r == Err::<Grid, GridError>(GridError::ZeroDimension),
            (width > 0 && height > 0 && width * height > MAX_CELLS) <==> r == Err::<
                Grid,
                GridError,
            >(GridError::TooLarge),
            (width > 0 && height > 0 && width * height <= MAX_CELLS && tiles@.len() != width
                * height) <==> r == Err::<Grid, GridError>(GridError::TileCountMismatch),
            (width > 0 && height > 0 && width * height <= MAX_CELLS && tiles@.len() == width
                * height) <==> r is Ok,
            r is Ok ==> {
                let grid = r->Ok_0;
                &&& grid.wf()
                &&& grid.spec_width() == width
                &&& grid.spec_height() == height
                &&& grid.cells() == tiles@
            },
    {
        if width == 0 || height == 0 {
            return Err(GridError::ZeroDimension);
        }
        assert(width * height <= 0xffff_ffff * 0xffff_ffff) by (nonlinear_arith)
            requires
                0 <= width <= 0xffff_ffff,
                0 <= height <= 0xffff_ffff,
        ;
        let count: u64 = (width as u64) * (height as u64);
        if count > MAX_CELLS as u64 {
            return Err(GridError::TooLarge);
        }
        if tiles.len() as u64 != count {
            return Err(GridError::TileCountMismatch);
        }
        Ok(Grid { tiles, width: width as usize, height: height as usize })
    }

    /// Number of columns.
    pub fn width(&self) -> (w: usize)
        ensures
            w == self.spec_width(),
            self.wf(),
    {
        proof {
            use_type_invariant(self);
        }
        self.width
    }

    /// Number of rows.
    pub fn height(&self) -> (h: usize)
        ensures
            h == self.spec_height(),
            self.wf(),
    {
        proof {
            use_type_invariant(self);
        }
        self.height
    }

    /// Number of cells.
    pub fn len(&self) -> (n: usize)
        ensures
            n == self.spec_len(),
            self.wf(),
    {
        proof {
            use_type_invariant(self);
        }
        self.tiles.len()
    }

    /// The grid's extent as a position: its width as `x`, its height as `y`.
    pub fn dimensions(&self) -> (d: Position)
        ensures
            d.x == self.spec_width(),
            d.y == self.spec_height(),
    {
        proof {
            use_type_invariant(self);
            self.lemma_dimensions_fit();
        }
        Position { x: self.width as i32, y: self.height as i32 }
    }

    /// Neither dimension exceeds the number of cells.
    pub proof fn lemma_dimensions_fit(&self)
        requires
            self.wf(),
        ensures
            self.spec_width() <= self.spec_len() <= MAX_CELLS,
            self.spec_height() <= self.spec_len(),
    {
        let w = self.spec_width() as int;
        let h = self.spec_height() as int;
        assert(w <= w * h && h <= w * h) by (nonlinear_arith)
            requires
                w >= 1,
                h >= 1,
        ;
    }

    /// Whether the position names a cell of the grid.
    pub fn in_bounds(&self, pos: Position) -> (r: bool)
        ensures
            r == self.spec_in_bounds(pos),
    {
        proof {
            use_type_invariant(self);
            self.lemma_dimensions_fit();
        }
        pos.x >= 0 && (pos.x as usize) < self.width && pos.y >= 0 && (pos.y as usize)
            < self.height
    }

    /// Whether the index names a cell of the grid.
    pub fn index_exist(&self, index: usize) -> (r: bool)
        ensures
            r == (index < self.spec_len()),
    {
        index < self.tiles.len()
    }

    /// The index of the cell at a position inside the grid.
    pub fn coord_to_index(&self, pos: Position) -> (index: usize)
        requires
            self.spec_in_bounds(pos),
        ensures
            index == self.index_of(pos),
            index < self.spec_len(),
            self.coord_of(index as int) == pos,
    {
        proof {
            use_type_invariant(self);
            self.lemma_position_round_trip(pos);
        }
        (pos.y as usize) * self.width + (pos.x as usize)
    }

    /// The position of the cell with the given index.
    pub fn index_to_coord(&self, index: usize) -> (pos: Position)
        requires
            index < self.spec_len(),
        ensures
            pos == self.coord_of(index as int),
            self.spec_in_bounds(pos),
            self.index_of(pos) == index,
    {
        proof {
            use_type_invariant(self);
            self.lemma_index_round_trip(index as int);
            self.lemma_col_row(index as int);
            self.lemma_dimensions_fit();
        }
        Position { x: (index % self.width) as i32, y: (index / self.width) as i32 }
    }

    /// The terrain class of a cell.
    pub fn tile(&self, index: usize) -> (tile_type: TileType)
        requires
            index < self.spec_len(),
        ensures
            tile_type == self.cells()[index as int],
    {
        self.tiles[index]
    }

    /// The attributes of a cell, or `IndexOutOfRange` where there is no such cell.
    pub fn attributes_of(&self, index: usize) -> (r: Result<TileData, GridError>)
        ensures
            index < self.spec_len() ==> r == Ok::<TileData, GridError>(
                tile_data(self.cells()[index as int]),
            ),
            index >= self.spec_len() ==> r == Err::<TileData, GridError>(
                GridError::IndexOutOfRange,
            ),
    {
        if index < self.tiles.len() {
            Ok(get_data(&self.tiles[index]))
        } else {
            Err(GridError::IndexOutOfRange)
        }
    }

    /// Whether the cell blocks all traversal.
    pub fn is_opaque(&self, index: usize) -> (r: bool)
        requires
            index < self.spec_len(),
        ensures
            r == self.spec_opaque(index as int),
    {
        !self.tiles[index].is_walkable()
    }

    /// Whether something can move onto the cell.
    pub fn is_walkable(&self, index: &usize) -> (r: bool)
        requires
            *index < self.spec_len(),
        ensures
            r == self.spec_walkable(*index as int),
    {
        self.tiles[*index].is_walkable()
    }

    /// Whether flora can grow on the cell.
    pub fn is_growable(&self, index: &usize) -> (r: bool)
        requires
            *index < self.spec_len(),
        ensures
            r == self.spec_growable(*index as int),
    {
        self.tiles[*index].is_growable()
    }
}

} // verus!
