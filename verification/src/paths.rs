//! Paths over a grid and what they cost.

use crate::grid::Grid;
use crate::neighbours::{adjacent, delta_cost};
use crate::pos::Position;
use vstd::prelude::*;

verus! {

/// Cost of the step from `a` to the adjacent position `b`, in tenths of a
/// cell.
pub open spec fn step_cost(a: Position, b: Position) -> int {
    delta_cost(b.x - a.x, b.y - a.y)
}

/// Cost of walking a path: the sum of the costs of its steps.
pub open spec fn path_cost(path: Seq<Position>) -> int
    decreases path.len(),
{
    if path.len() <= 1 {
        0
    } else {
        path_cost(path.drop_last()) + step_cost(path[path.len() - 2], path[path.len() - 1])
    }
}

impl Grid {
    /// Whether the sequence is a walk over the grid: it begins on a cell of
    /// the grid and every further position can be stepped onto from the one
    /// before.
    pub open spec fn is_path(&self, path: Seq<Position>) -> bool {
        &&& path.len() > 0
        &&& self.spec_in_bounds(path[0])
        &&& forall|k: int| 0 <= k < path.len() - 1 ==> self.can_step(path[k], #[trigger] path[k + 1])
    }

    /// Whether the sequence is a walk from `from` to `to`.
    pub open spec fn connects(&self, path: Seq<Position>, from: Position, to: Position) -> bool {
        &&& self.is_path(path)
        &&& path[0] == from
        &&& path[path.len() - 1] == to
    }

    /// Whether some walk leads from `from` to `to`.
    pub open spec fn reachable(&self, from: Position, to: Position) -> bool {
        exists|path: Seq<Position>| self.connects(path, from, to)
    }
}

/// No path has a negative cost, and a path of one position costs nothing.
pub proof fn lemma_path_cost_bounds(path: Seq<Position>)
    ensures
        path_cost(path) >= 0,
        path.len() <= 1 ==> path_cost(path) == 0,
    decreases path.len(),
{
    if path.len() > 1 {
        lemma_path_cost_bounds(path.drop_last());
    }
}

/// Appending a position to a path adds the cost of the step to it.
pub proof fn lemma_path_cost_push(path: Seq<Position>, next: Position)
    requires
        path.len() > 0,
    ensures
        path_cost(path.push(next)) == path_cost(path) + step_cost(path[path.len() - 1], next),
{
    assert(path.push(next).drop_last() == path);
}

/// A path costs what its part up to any position and its part from that
/// position on cost together.
pub proof fn lemma_path_cost_split(path: Seq<Position>, at: int)
    requires
        0 <= at < path.len(),
    ensures
        path_cost(path) == path_cost(path.take(at + 1)) + path_cost(path.skip(at)),
    decreases path.len(),
{
    if at == path.len() - 1 {
        assert(path.take(at + 1) == path);
        lemma_path_cost_bounds(path.skip(at));
    } else {
        let shorter = path.drop_last();
        lemma_path_cost_split(shorter, at);
        assert(shorter.take(at + 1) == path.take(at + 1));
        assert(shorter.skip(at) == path.skip(at).drop_last());
        let tail = path.skip(at);
        assert(tail[tail.len() - 2] == path[path.len() - 2]);
        assert(tail[tail.len() - 1] == path[path.len() - 1]);
    }
}

impl Grid {
    /// The part of a walk up to any of its positions is a walk, and so is
    /// the part from that position on.
    pub proof fn lemma_path_parts(&self, path: Seq<Position>, at: int)
        requires
            self.wf(),
            self.is_path(path),
            0 <= at < path.len(),
        ensures
            self.connects(path.take(at + 1), path[0], path[at]),
            self.connects(path.skip(at), path[at], path[path.len() - 1]),
            self.spec_in_bounds(path[at]),
    {
        let head = path.take(at + 1);
        let tail = path.skip(at);
        assert forall|k: int| 0 <= k < head.len() - 1 implies self.can_step(
            head[k],
            #[trigger] head[k + 1],
        ) by {
            assert(self.can_step(path[k], path[k + 1]));
        }
        if at > 0 {
            assert(self.can_step(path[at - 1], path[at - 1 + 1]));
        }
        assert forall|k: int| 0 <= k < tail.len() - 1 implies self.can_step(
            tail[k],
            #[trigger] tail[k + 1],
        ) by {
            assert(self.can_step(path[at + k], path[at + k + 1]));
        }
    }
}

impl Grid {
    /// A position that cannot be stepped onto is reached from nowhere but
    /// itself.
    pub proof fn lemma_blocked_goal_unreachable(&self, start: Position, goal: Position)
        requires
            start != goal,
            !self.enterable(goal.x as int, goal.y as int),
        ensures
            !self.reachable(start, goal),
    {
        if self.reachable(start, goal) {
            let path = choose|path: Seq<Position>| self.connects(path, start, goal);
            let last = path.len() - 1;
            assert(self.can_step(path[last - 1], path[last - 1 + 1]));
        }
    }

    /// A goal that is surrounded by cells that cannot be stepped onto is
    /// reached from nowhere but itself and the cells around it.
    pub proof fn lemma_enclosed_goal_unreachable(&self, start: Position, goal: Position)
        requires
            start != goal,
            !adjacent(start.x as int, start.y as int, goal.x as int, goal.y as int),
            forall|b: Position|
                adjacent(goal.x as int, goal.y as int, b.x as int, b.y as int) ==> !self.enterable(
                    b.x as int,
                    b.y as int,
                ),
        ensures
            !self.reachable(start, goal),
    {
        if self.reachable(start, goal) {
            let path = choose|path: Seq<Position>| self.connects(path, start, goal);
            let last = path.len() - 1;
            let before = path[last - 1];
            assert(self.can_step(path[last - 1], path[last - 1 + 1]));
            assert(adjacent(goal.x as int, goal.y as int, before.x as int, before.y as int));
            if last >= 2 {
                assert(self.can_step(path[last - 2], path[last - 2 + 1]));
            }
        }
    }
}

} // verus!
