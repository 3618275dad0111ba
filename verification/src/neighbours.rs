//! The cells around a cell: all that lie in the grid, or only those that
//! can be stepped onto, each with the cost of the step.

use crate::grid::Grid;
use crate::lists::{ExitList, IndexList};
use crate::pos::Position;
use vstd::prelude::*;

verus! {

/// Cost of a step along a row or a column, in tenths of a cell.
pub const STRAIGHT_COST: u32 = 10;

/// Cost of a diagonal step, in tenths of a cell.
pub const DIAGONAL_COST: u32 = 14;

/// The eight steps in the order in which neighbours and exits are listed:
/// west, east, north, south, then the four diagonals.
pub open spec fn exit_deltas() -> Seq<(int, int)> {
    seq![(-1, 0), (1, 0), (0, -1), (0, 1), (-1, -1), (-1, 1), (1, -1), (1, 1)]
}

/// The eight steps in the order in which a search tries them: the four
/// straight ones (`y` growing first), then the four diagonals.
pub open spec fn compass_deltas() -> Seq<(int, int)> {
    seq![(0, 1), (1, 0), (0, -1), (-1, 0), (1, 1), (-1, 1), (1, -1), (-1, -1)]
}

/// Cost of the step `(dx, dy)`.
pub open spec fn delta_cost(dx: int, dy: int) -> int {
    if dx == 0 || dy == 0 {
        STRAIGHT_COST as int
    } else {
        DIAGONAL_COST as int
    }
}

/// Whether `(bx, by)` is one of the eight cells around `(ax, ay)`.
pub open spec fn adjacent(ax: int, ay: int, bx: int, by: int) -> bool {
    &&& -1 <= bx - ax <= 1
    &&& -1 <= by - ay <= 1
    &&& (bx != ax || by != ay)
}

impl Grid {
    /// The neighbours of the cell at column `x`, row `y` that the first `n`
    /// steps of `exit_deltas` reach.
    pub open spec fn neighbours_upto(&self, x: int, y: int, n: nat) -> Seq<usize>
        decreases n,
    {
        if n == 0 {
            Seq::empty()
        } else {
            let rest = self.neighbours_upto(x, y, (n - 1) as nat);
            let d = exit_deltas()[n - 1];
            if self.has_cell(x + d.0, y + d.1) {
                rest.push(self.cell_index(x + d.0, y + d.1) as usize)
            } else {
                rest
            }
        }
    }

    /// The cells of the grid around the cell with the given index.
    pub open spec fn spec_neighbours(&self, index: int) -> Seq<usize> {
        self.neighbours_upto(self.col(index), self.row(index), 8)
    }

    /// Whether one can step onto column `x`, row `y`: the cell exists and is
    /// not opaque.
    pub open spec fn enterable(&self, x: int, y: int) -> bool {
        self.has_cell(x, y) && !self.spec_opaque(self.cell_index(x, y))
    }

    /// The exits of the cell at column `x`, row `y` that the first `n` steps
    /// of `exit_deltas` reach.
    pub open spec fn exits_upto(&self, x: int, y: int, n: nat) -> Seq<(usize, u32)>
        decreases n,
    {
        if n == 0 {
            Seq::empty()
        } else {
            let rest = self.exits_upto(x, y, (n - 1) as nat);
            let d = exit_deltas()[n - 1];
            if self.enterable(x + d.0, y + d.1) {
                rest.push(
                    (self.cell_index(x + d.0, y + d.1) as usize, delta_cost(d.0, d.1) as u32),
                )
            } else {
                rest
            }
        }
    }

    /// The cells one can step onto from the cell with the given index, each
    /// with the cost of the step.
    pub open spec fn spec_exits(&self, index: int) -> Seq<(usize, u32)> {
        self.exits_upto(self.col(index), self.row(index), 8)
    }

    /// The steps from `source` that the first `n` entries of
    /// `compass_deltas` allow.
    pub open spec fn valid_upto(&self, source: Position, n: nat) -> Seq<(Position, i32)>
        decreases n,
    {
        if n == 0 {
            Seq::empty()
        } else {
            let rest = self.valid_upto(source, (n - 1) as nat);
            let d = compass_deltas()[n - 1];
            if self.enterable(source.x + d.0, source.y + d.1) {
                rest.push(
                    (
                        Position { x: (source.x + d.0) as i32, y: (source.y + d.1) as i32 },
                        delta_cost(d.0, d.1) as i32,
                    ),
                )
            } else {
                rest
            }
        }
    }

    /// The positions one can step onto from `source`, each with the cost of
    /// the step.
    pub open spec fn spec_valid_neighbours(&self, source: Position) -> Seq<(Position, i32)> {
        self.valid_upto(source, 8)
    }

    /// The index of the cell `delta` away from `location`, if the grid has
    /// such a cell.
    pub fn valid_neighbour(&self, location: Position, delta: Position) -> (r: Option<usize>)
        ensures
            self.has_cell(location.x + delta.x, location.y + delta.y) ==> r == Some(
                self.cell_index(location.x + delta.x, location.y + delta.y) as usize,
            ),
            !self.has_cell(location.x + delta.x, location.y + delta.y) ==> r is None,
    {
        let width = self.width();
        let height = self.height();
        let x: i64 = location.x as i64 + delta.x as i64;
        let y: i64 = location.y as i64 + delta.y as i64;
        proof {
            self.lemma_dimensions_fit();
        }
        if x >= 0 && x < width as i64 && y >= 0 && y < height as i64 {
            proof {
                self.lemma_cell_index(x as int, y as int);
            }
            Some((y as usize) * width + (x as usize))
        } else {
            None
        }
    }

    /// The index of the cell `delta` away from `location`, if the grid has
    /// such a cell and it can be stepped onto.
    pub fn valid_exit(&self, location: Position, delta: Position) -> (r: Option<usize>)
        ensures
            self.enterable(location.x + delta.x, location.y + delta.y) ==> r == Some(
                self.cell_index(location.x + delta.x, location.y + delta.y) as usize,
            ),
            !self.enterable(location.x + delta.x, location.y + delta.y) ==> r is None,
    {
        match self.valid_neighbour(location, delta) {
            Some(index) => {
                proof {
                    use_type_invariant(self);
                    self.lemma_cell_index(location.x + delta.x, location.y + delta.y);
                }
                if !self.is_opaque(index) {
                    Some(index)
                } else {
                    None
                }
            },
            None => None,
        }
    }

    /// Around a row beyond the one below the grid there is no cell.
    proof fn lemma_nothing_far_below(&self, x: int, y: int, n: nat)
        requires
            y > self.spec_height(),
            n <= 8,
        ensures
            self.neighbours_upto(x, y, n) == Seq::<usize>::empty(),
            self.exits_upto(x, y, n) == Seq::<(usize, u32)>::empty(),
        decreases n,
    {
        if n > 0 {
            self.lemma_nothing_far_below(x, y, (n - 1) as nat);
        }
    }

    /// The cells of the grid around the cell with the given index, in the
    /// order of `exit_deltas`.
    pub fn get_neighbours(&self, index: usize) -> (neighbours: IndexList)
        ensures
            neighbours@ == self.spec_neighbours(index as int),
    {
        let mut neighbours = IndexList::new();
        let width = self.width();
        let height = self.height();
        let ghost x = self.col(index as int);
        let ghost y = self.row(index as int);
        proof {
            self.lemma_dimensions_fit();
        }
        if index / width > height {
            proof {
                self.lemma_nothing_far_below(x, y, 8);
            }
            return neighbours;
        }
        let location = Position { x: (index % width) as i32, y: (index / width) as i32 };
        assert(neighbours@ == self.neighbours_upto(x, y, 0));
        if let Some(idx) = self.valid_neighbour(location, Position::new(-1, 0)) {
            neighbours.push(idx);
        }
        assert(neighbours@ == self.neighbours_upto(x, y, 1));
        if let Some(idx) = self.valid_neighbour(location, Position::new(1, 0)) {
            neighbours.push(idx);
        }
        assert(neighbours@ == self.neighbours_upto(x, y, 2));
        if let Some(idx) = self.valid_neighbour(location, Position::new(0, -1)) {
            neighbours.push(idx);
        }
        assert(neighbours@ == self.neighbours_upto(x, y, 3));
        if let Some(idx) = self.valid_neighbour(location, Position::new(0, 1)) {
            neighbours.push(idx);
        }
        assert(neighbours@ == self.neighbours_upto(x, y, 4));
        if let Some(idx) = self.valid_neighbour(location, Position::new(-1, -1)) {
            neighbours.push(idx);
        }
        assert(neighbours@ == self.neighbours_upto(x, y, 5));
        if let Some(idx) = self.valid_neighbour(location, Position::new(-1, 1)) {
            neighbours.push(idx);
        }
        assert(neighbours@ == self.neighbours_upto(x, y, 6));
        if let Some(idx) = self.valid_neighbour(location, Position::new(1, -1)) {
            neighbours.push(idx);
        }
        assert(neighbours@ == self.neighbours_upto(x, y, 7));
        if let Some(idx) = self.valid_neighbour(location, Position::new(1, 1)) {
            neighbours.push(idx);
        }
        assert(neighbours@ == self.neighbours_upto(x, y, 8));

        neighbours
    }

    /// The cells one can step onto from the cell with the given index, each
    /// with the cost of the step, in the order of `exit_deltas`.
    pub fn get_available_exits(&self, index: usize) -> (exits: ExitList)
        ensures
            exits@ == self.spec_exits(index as int),
    {
        let mut exits = ExitList::new();
        let width = self.width();
        let height = self.height();
        let ghost x = self.col(index as int);
        let ghost y = self.row(index as int);
        proof {
            self.lemma_dimensions_fit();
        }
        if index / width > height {
            proof {
                self.lemma_nothing_far_below(x, y, 8);
            }
            return exits;
        }
        let location = Position { x: (index % width) as i32, y: (index / width) as i32 };
        assert(exits@ == self.exits_upto(x, y, 0));
        if let Some(idx) = self.valid_exit(location, Position::new(-1, 0)) {
            exits.push((idx, STRAIGHT_COST));
        }
        assert(exits@ == self.exits_upto(x, y, 1));
        if let Some(idx) = self.valid_exit(location, Position::new(1, 0)) {
            exits.push((idx, STRAIGHT_COST));
        }
        assert(exits@ == self.exits_upto(x, y, 2));
        if let Some(idx) = self.valid_exit(location, Position::new(0, -1)) {
            exits.push((idx, STRAIGHT_COST));
        }
        assert(exits@ == self.exits_upto(x, y, 3));
        if let Some(idx) = self.valid_exit(location, Position::new(0, 1)) {
            exits.push((idx, STRAIGHT_COST));
        }
        assert(exits@ == self.exits_upto(x, y, 4));
        if let Some(idx) = self.valid_exit(location, Position::new(-1, -1)) {
            exits.push((idx, DIAGONAL_COST));
        }
        assert(exits@ == self.exits_upto(x, y, 5));
        if let Some(idx) = self.valid_exit(location, Position::new(-1, 1)) {
            exits.push((idx, DIAGONAL_COST));
        }
        assert(exits@ == self.exits_upto(x, y, 6));
        if let Some(idx) = self.valid_exit(location, Position::new(1, -1)) {
            exits.push((idx, DIAGONAL_COST));
        }
        assert(exits@ == self.exits_upto(x, y, 7));
        if let Some(idx) = self.valid_exit(location, Position::new(1, 1)) {
            exits.push((idx, DIAGONAL_COST));
        }
        assert(exits@ == self.exits_upto(x, y, 8));

        exits
    }

    /// The positions one can step onto from `source`, each with the cost of
    /// the step, in the order of `compass_deltas`.
    pub fn get_valid_neighbours(&self, source: Position) -> (result: Vec<(Position, i32)>)
        ensures
            result@ == self.spec_valid_neighbours(source),
    {
        let mut result: Vec<(Position, i32)> = Vec::new();
        proof {
            use_type_invariant(self);
            self.lemma_dimensions_fit();
        }
        assert(result@ == self.valid_upto(source, 0));
        if let Some(idx) = self.valid_exit(source, Position::new(0, 1)) {
            result.push((Position { x: source.x + (0), y: source.y + (1) }, STRAIGHT_COST as i32));
        }
        assert(result@ == self.valid_upto(source, 1));
        if let Some(idx) = self.valid_exit(source, Position::new(1, 0)) {
            result.push((Position { x: source.x + (1), y: source.y + (0) }, STRAIGHT_COST as i32));
        }
        assert(result@ == self.valid_upto(source, 2));
        if let Some(idx) = self.valid_exit(source, Position::new(0, -1)) {
            result.push((Position { x: source.x + (0), y: source.y + (-1) }, STRAIGHT_COST as i32));
        }
        assert(result@ == self.valid_upto(source, 3));
        if let Some(idx) = self.valid_exit(source, Position::new(-1, 0)) {
            result.push((Position { x: source.x + (-1), y: source.y + (0) }, STRAIGHT_COST as i32));
        }
        assert(result@ == self.valid_upto(source, 4));
        if let Some(idx) = self.valid_exit(source, Position::new(1, 1)) {
            result.push((Position { x: source.x + (1), y: source.y + (1) }, DIAGONAL_COST as i32));
        }
        assert(result@ == self.valid_upto(source, 5));
        if let Some(idx) = self.valid_exit(source, Position::new(-1, 1)) {
            result.push((Position { x: source.x + (-1), y: source.y + (1) }, DIAGONAL_COST as i32));
        }
        assert(result@ == self.valid_upto(source, 6));
        if let Some(idx) = self.valid_exit(source, Position::new(1, -1)) {
            result.push((Position { x: source.x + (1), y: source.y + (-1) }, DIAGONAL_COST as i32));
        }
        assert(result@ == self.valid_upto(source, 7));
        if let Some(idx) = self.valid_exit(source, Position::new(-1, -1)) {
            result.push((Position { x: source.x + (-1), y: source.y + (-1) }, DIAGONAL_COST as i32));
        }
        assert(result@ == self.valid_upto(source, 8));

        result
    }

    /// Whether one can step from `a` onto `b`: `b` is one of the eight
    /// positions around `a`, lies in the grid and is not opaque.
    pub open spec fn can_step(&self, a: Position, b: Position) -> bool {
        adjacent(a.x as int, a.y as int, b.x as int, b.y as int) && self.enterable(
            b.x as int,
            b.y as int,
        )
    }

    /// What the first `n` steps of `exit_deltas` contribute to the
    /// neighbours of a cell.
    proof fn lemma_neighbours_upto(&self, x: int, y: int, n: nat, j: usize)
        requires
            self.wf(),
            n <= 8,
        ensures
            self.neighbours_upto(x, y, n).len() <= n,
            self.neighbours_upto(x, y, n).contains(j) <==> exists|k: int|
                0 <= k < n && self.has_cell(x + exit_deltas()[k].0, y + exit_deltas()[k].1) && j
                    == #[trigger] self.cell_index(x + exit_deltas()[k].0, y + exit_deltas()[k].1),
        decreases n,
    {
        if n > 0 {
            let m = (n - 1) as nat;
            self.lemma_neighbours_upto(x, y, m, j);
            let rest = self.neighbours_upto(x, y, m);
            let d = exit_deltas()[n - 1];
            let all = self.neighbours_upto(x, y, n);
            if self.has_cell(x + d.0, y + d.1) {
                self.lemma_cell_index(x + d.0, y + d.1);
                let added = self.cell_index(x + d.0, y + d.1) as usize;
                assert(all == rest.push(added));
                assert(all[all.len() - 1] == added);
                if rest.contains(j) {
                    let i = choose|i: int| 0 <= i < rest.len() && rest[i] == j;
                    assert(all[i] == j);
                }
                if j == added {
                    assert(all.contains(j));
                }
            }
        }
    }

    /// The eight steps of `exit_deltas` are the eight ways of being adjacent.
    proof fn lemma_exit_deltas_cover(dx: int, dy: int) -> (k: int)
        requires
            adjacent(0, 0, dx, dy),
        ensures
            0 <= k < 8,
            exit_deltas()[k] == (dx, dy),
    {
        if dx == -1 && dy == 0 {
            0
        } else if dx == 1 && dy == 0 {
            1
        } else if dx == 0 && dy == -1 {
            2
        } else if dx == 0 && dy == 1 {
            3
        } else if dx == -1 && dy == -1 {
            4
        } else if dx == -1 && dy == 1 {
            5
        } else if dx == 1 && dy == -1 {
            6
        } else {
            7
        }
    }

    /// Every step of `exit_deltas` leads to an adjacent place.
    proof fn lemma_exit_deltas_adjacent(k: int)
        requires
            0 <= k < 8,
        ensures
            adjacent(0, 0, exit_deltas()[k].0, exit_deltas()[k].1),
    {
    }

    /// The neighbours of a cell are exactly the cells of the grid that are
    /// adjacent to it; there are at most eight.
    pub proof fn lemma_neighbours(&self, index: int, j: usize)
        requires
            self.wf(),
            0 <= index < self.spec_len(),
        ensures
            self.spec_neighbours(index).len() <= 8,
            self.spec_neighbours(index).contains(j) <==> (j < self.spec_len() && adjacent(
                self.col(index),
                self.row(index),
                self.col(j as int),
                self.row(j as int),
            )),
    {
        let x = self.col(index);
        let y = self.row(index);
        self.lemma_neighbours_upto(x, y, 8, j);
        if self.spec_neighbours(index).contains(j) {
            let k = choose|k: int|
                0 <= k < 8 && self.has_cell(x + exit_deltas()[k].0, y + exit_deltas()[k].1) && j
                    == #[trigger] self.cell_index(x + exit_deltas()[k].0, y + exit_deltas()[k].1);
            Self::lemma_exit_deltas_adjacent(k);
            self.lemma_cell_index(x + exit_deltas()[k].0, y + exit_deltas()[k].1);
        }
        if j < self.spec_len() && adjacent(x, y, self.col(j as int), self.row(j as int)) {
            let jx = self.col(j as int);
            let jy = self.row(j as int);
            self.lemma_col_row(j as int);
            let k = Self::lemma_exit_deltas_cover(jx - x, jy - y);
            assert(self.has_cell(x + exit_deltas()[k].0, y + exit_deltas()[k].1));
            assert(j == self.cell_index(x + exit_deltas()[k].0, y + exit_deltas()[k].1));
        }
    }

    /// No cell is its own neighbour.
    pub proof fn lemma_neighbours_exclude_self(&self, index: usize)
        requires
            self.wf(),
            index < self.spec_len(),
        ensures
            !self.spec_neighbours(index as int).contains(index),
    {
        self.lemma_neighbours(index as int, index);
    }

    /// What the first `n` steps of `exit_deltas` contribute to the exits of
    /// a cell.
    proof fn lemma_exits_upto(&self, x: int, y: int, n: nat, j: usize, c: u32)
        requires
            self.wf(),
            n <= 8,
        ensures
            self.exits_upto(x, y, n).len() <= n,
            self.exits_upto(x, y, n).contains((j, c)) <==> exists|k: int|
                0 <= k < n && self.enterable(x + exit_deltas()[k].0, y + exit_deltas()[k].1) && j
                    == #[trigger] self.cell_index(x + exit_deltas()[k].0, y + exit_deltas()[k].1)
                    && c == delta_cost(exit_deltas()[k].0, exit_deltas()[k].1),
        decreases n,
    {
        if n > 0 {
            let m = (n - 1) as nat;
            self.lemma_exits_upto(x, y, m, j, c);
            let rest = self.exits_upto(x, y, m);
            let d = exit_deltas()[n - 1];
            let all = self.exits_upto(x, y, n);
            if self.enterable(x + d.0, y + d.1) {
                self.lemma_cell_index(x + d.0, y + d.1);
                let added = (self.cell_index(x + d.0, y + d.1) as usize, delta_cost(d.0, d.1) as u32);
                assert(all == rest.push(added));
                assert(all[all.len() - 1] == added);
                if rest.contains((j, c)) {
                    let i = choose|i: int| 0 <= i < rest.len() && rest[i] == (j, c);
                    assert(all[i] == (j, c));
                }
                if (j, c) == added {
                    assert(all.contains((j, c)));
                }
            }
        }
    }

    /// The exits of a cell are exactly the adjacent cells of the grid that
    /// are not opaque, each with the cost of the step that leads there;
    /// there are at most eight.
    pub proof fn lemma_exits(&self, index: int, j: usize, c: u32)
        requires
            self.wf(),
            0 <= index < self.spec_len(),
        ensures
            self.spec_exits(index).len() <= 8,
            self.spec_exits(index).contains((j, c)) <==> (j < self.spec_len() && adjacent(
                self.col(index),
                self.row(index),
                self.col(j as int),
                self.row(j as int),
            ) && !self.spec_opaque(j as int) && c == delta_cost(
                self.col(j as int) - self.col(index),
                self.row(j as int) - self.row(index),
            )),
    {
        let x = self.col(index);
        let y = self.row(index);
        self.lemma_exits_upto(x, y, 8, j, c);
        if self.spec_exits(index).contains((j, c)) {
            let k = choose|k: int|
                0 <= k < 8 && self.enterable(x + exit_deltas()[k].0, y + exit_deltas()[k].1) && j
                    == #[trigger] self.cell_index(x + exit_deltas()[k].0, y + exit_deltas()[k].1)
                    && c == delta_cost(exit_deltas()[k].0, exit_deltas()[k].1);
            Self::lemma_exit_deltas_adjacent(k);
            self.lemma_cell_index(x + exit_deltas()[k].0, y + exit_deltas()[k].1);
        }
        if j < self.spec_len() && adjacent(x, y, self.col(j as int), self.row(j as int))
            && !self.spec_opaque(j as int) && c == delta_cost(
            self.col(j as int) - x,
            self.row(j as int) - y,
        ) {
            let jx = self.col(j as int);
            let jy = self.row(j as int);
            self.lemma_col_row(j as int);
            let k = Self::lemma_exit_deltas_cover(jx - x, jy - y);
            assert(self.enterable(x + exit_deltas()[k].0, y + exit_deltas()[k].1));
            assert(j == self.cell_index(x + exit_deltas()[k].0, y + exit_deltas()[k].1));
        }
    }

    /// The eight steps of `compass_deltas` are the eight ways of being
    /// adjacent.
    proof fn lemma_compass_deltas_cover(dx: int, dy: int) -> (k: int)
        requires
            adjacent(0, 0, dx, dy),
        ensures
            0 <= k < 8,
            compass_deltas()[k] == (dx, dy),
    {
        if dx == 0 && dy == 1 {
            0
        } else if dx == 1 && dy == 0 {
            1
        } else if dx == 0 && dy == -1 {
            2
        } else if dx == -1 && dy == 0 {
            3
        } else if dx == 1 && dy == 1 {
            4
        } else if dx == -1 && dy == 1 {
            5
        } else if dx == 1 && dy == -1 {
            6
        } else {
            7
        }
    }

    /// Every step of `compass_deltas` leads to an adjacent place.
    proof fn lemma_compass_deltas_adjacent(k: int)
        requires
            0 <= k < 8,
        ensures
            adjacent(0, 0, compass_deltas()[k].0, compass_deltas()[k].1),
    {
    }

    /// What the first `n` steps of `compass_deltas` contribute to the steps
    /// from a position.
    proof fn lemma_valid_upto(&self, source: Position, n: nat, b: Position, c: i32)
        requires
            self.wf(),
            n <= 8,
        ensures
            self.valid_upto(source, n).len() <= n,
            self.valid_upto(source, n).contains((b, c)) <==> exists|k: int|
                0 <= k < n && #[trigger] self.enterable(
                    source.x + compass_deltas()[k].0,
                    source.y + compass_deltas()[k].1,
                ) && b.x == source.x + compass_deltas()[k].0 && b.y == source.y
                    + compass_deltas()[k].1 && c == delta_cost(
                    compass_deltas()[k].0,
                    compass_deltas()[k].1,
                ),
        decreases n,
    {
        if n > 0 {
            let m = (n - 1) as nat;
            self.lemma_valid_upto(source, m, b, c);
            self.lemma_dimensions_fit();
            let rest = self.valid_upto(source, m);
            let d = compass_deltas()[n - 1];
            let all = self.valid_upto(source, n);
            if self.enterable(source.x + d.0, source.y + d.1) {
                let added = (
                    Position { x: (source.x + d.0) as i32, y: (source.y + d.1) as i32 },
                    delta_cost(d.0, d.1) as i32,
                );
                assert(all == rest.push(added));
                assert(all[all.len() - 1] == added);
                if rest.contains((b, c)) {
                    let i = choose|i: int| 0 <= i < rest.len() && rest[i] == (b, c);
                    assert(all[i] == (b, c));
                }
                if (b, c) == added {
                    assert(all.contains((b, c)));
                }
            }
        }
    }

    /// The steps from a position lead exactly to the positions that can be
    /// stepped onto from it, each with the cost of the step; there are at
    /// most eight.
    pub proof fn lemma_valid_neighbours(&self, source: Position, b: Position, c: i32)
        requires
            self.wf(),
        ensures
            self.spec_valid_neighbours(source).len() <= 8,
            self.spec_valid_neighbours(source).contains((b, c)) <==> (self.can_step(source, b)
                && c == delta_cost(b.x - source.x, b.y - source.y)),
    {
        self.lemma_valid_upto(source, 8, b, c);
        if self.spec_valid_neighbours(source).contains((b, c)) {
            let k = choose|k: int|
                0 <= k < 8 && #[trigger] self.enterable(
                    source.x + compass_deltas()[k].0,
                    source.y + compass_deltas()[k].1,
                ) && b.x == source.x + compass_deltas()[k].0 && b.y == source.y
                    + compass_deltas()[k].1 && c == delta_cost(
                    compass_deltas()[k].0,
                    compass_deltas()[k].1,
                );
            Self::lemma_compass_deltas_adjacent(k);
        }
        if self.can_step(source, b) && c == delta_cost(b.x - source.x, b.y - source.y) {
            let k = Self::lemma_compass_deltas_cover(b.x - source.x, b.y - source.y);
            assert(self.enterable(
                source.x + compass_deltas()[k].0,
                source.y + compass_deltas()[k].1,
            ));
        }
    }

    /// A cell is never one of its own exits, and no position is a step away
    /// from itself.
    pub proof fn lemma_exits_exclude_self(&self, index: usize, source: Position)
        requires
            self.wf(),
            index < self.spec_len(),
        ensures
            forall|c: u32| !self.spec_exits(index as int).contains((index, c)),
            forall|c: i32| !self.spec_valid_neighbours(source).contains((source, c)),
    {
        assert forall|c: u32| !self.spec_exits(index as int).contains((index, c)) by {
            self.lemma_exits(index as int, index, c);
        }
        assert forall|c: i32| !self.spec_valid_neighbours(source).contains((source, c)) by {
            self.lemma_valid_neighbours(source, source, c);
        }
    }

    /// A cell has at least two neighbours, unless it sits at the end of a
    /// grid that is one cell wide or one cell high; where the grid is at
    /// least two cells wide and high, it has at least three.
    pub proof fn lemma_neighbour_count(&self, index: int)
        requires
            self.wf(),
            0 <= index < self.spec_len(),
        ensures
            self.spec_neighbours(index).len() <= 8,
            !(self.spec_width() == 1 && (self.row(index) == 0 || self.row(index)
                == self.spec_height() - 1)) && !(self.spec_height() == 1 && (self.col(index) == 0
                || self.col(index) == self.spec_width() - 1)) ==> self.spec_neighbours(index).len()
                >= 2,
            self.spec_width() >= 2 && self.spec_height() >= 2 ==> self.spec_neighbours(index).len()
                >= 3,
    {
        self.lemma_col_row(index);
        reveal_with_fuel(Grid::neighbours_upto, 9);
    }
}

} // verus!
