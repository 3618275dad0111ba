//! A picture of a grid and a path on it, one symbol per cell.

use crate::grid::Grid;
use crate::pos::Position;
use vstd::arithmetic::div_mod::lemma_fundamental_div_mod_converse;
use vstd::prelude::*;

verus! {

/// Symbol of the cell where a path starts.
pub const START_SYMBOL: char = '\u{2295}';

/// Symbol of the cell where a path ends.
pub const GOAL_SYMBOL: char = '\u{25ce}';

/// Symbol of a cell that a path passes.
pub const PATH_SYMBOL: char = '\u{25c6}';

/// Symbol of any other cell.
pub const EMPTY_SYMBOL: char = '\u{25ab}';

/// The symbol that stands for a position: the start, the goal, a position
/// on the path, or none of these.
pub open spec fn symbol_at(path: Seq<Position>, start: Position, goal: Position, at: Position) -> char {
    if at == start {
        START_SYMBOL
    } else if at == goal {
        GOAL_SYMBOL
    } else if path.contains(at) {
        PATH_SYMBOL
    } else {
        EMPTY_SYMBOL
    }
}

/// Whether the path passes the position.
fn passes(path: &Vec<Position>, at: Position) -> (r: bool)
    ensures
        r == path@.contains(at),
{
    let mut i: usize = 0;
    while i < path.len()
        invariant
            i <= path.len(),
            forall|k: int| 0 <= k < i ==> path@[k] != at,
        decreases path.len() - i,
    {
        if path[i] == at {
            return true;
        }
        i = i + 1;
    }
    false
}

/// The symbol at place `k` of the picture of a grid that is `width` cells
/// wide: each row takes `width` symbols and a line break.
pub open spec fn picture_at(
    width: int,
    path: Seq<Position>,
    start: Position,
    goal: Position,
    k: int,
) -> char {
    if k % (width + 1) == width {
        '\n'
    } else {
        symbol_at(
            path,
            start,
            goal,
            Position { x: (k % (width + 1)) as i32, y: (k / (width + 1)) as i32 },
        )
    }
}

/// Draws the grid row by row: one symbol per cell and a line break after
/// each row.
pub fn render_map(map: &Grid, path: &Vec<Position>, start: Position, goal: Position) -> (picture:
    Vec<char>)
    ensures
        picture@.len() == map.spec_height() * (map.spec_width() + 1),
        forall|k: int|
            0 <= k < picture@.len() ==> #[trigger] picture@[k] == picture_at(
                map.spec_width() as int,
                path@,
                start,
                goal,
                k,
            ),
{
    let width = map.width();
    let height = map.height();
    proof {
        map.lemma_dimensions_fit();
    }
    let mut picture: Vec<char> = Vec::new();
    let mut y: usize = 0;
    while y < height
        invariant
            y <= height,
            width == map.spec_width(),
            height == map.spec_height(),
            width <= 0x7fff_ffff,
            height <= 0x7fff_ffff,
            picture@.len() == y * (width + 1),
            forall|k: int|
                0 <= k < picture@.len() ==> #[trigger] picture@[k] == picture_at(
                    width as int,
                    path@,
                    start,
                    goal,
                    k,
                ),
        decreases height - y,
    {
        let mut x: usize = 0;
        while x < width
            invariant
                x <= width,
                y < height,
                width <= 0x7fff_ffff,
                height <= 0x7fff_ffff,
                picture@.len() == y * (width + 1) + x,
                forall|k: int|
                    0 <= k < picture@.len() ==> #[trigger] picture@[k] == picture_at(
                        width as int,
                        path@,
                        start,
                        goal,
                        k,
                    ),
            decreases width - x,
        {
            let current_position = Position { x: x as i32, y: y as i32 };
            let symbol = if current_position == start {
                START_SYMBOL
            } else if current_position == goal {
                GOAL_SYMBOL
            } else if passes(path, current_position) {
                PATH_SYMBOL
            } else {
                EMPTY_SYMBOL
            };
            proof {
                lemma_fundamental_div_mod_converse(
                    y * (width + 1) + x,
                    width + 1,
                    y as int,
                    x as int,
                );
            }
            picture.push(symbol);
            x = x + 1;
        }
        proof {
            lemma_fundamental_div_mod_converse(
                y * (width + 1) + width,
                width + 1,
                y as int,
                width as int,
            );
            assert((y + 1) * (width + 1) == y * (width + 1) + width + 1) by (nonlinear_arith);
        }
        picture.push('\n');
        y = y + 1;
    }
    picture
}

} // verus!
