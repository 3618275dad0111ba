//! What a running search knows, and why each of its steps keeps that
//! knowledge sound.

use crate::frontier::State;
use crate::grid::{Grid, MAX_CELLS};
use crate::paths::{lemma_path_cost_bounds, lemma_path_cost_push, lemma_path_cost_split, path_cost, step_cost};
use crate::pos::Position;
use vstd::multiset::Multiset;
use vstd::prelude::*;
use vstd::relations::injective_on;
use vstd::set_lib::{lemma_int_range, lemma_len_subset, lemma_map_size, set_int_range};

verus! {

/// The books of a search at one moment.
pub(crate) struct Snapshot {
    /// Cheapest known cost from the start to each cell found so far.
    pub scores: Map<usize, i64>,
    /// The cell from which each found cell was reached at that cost.
    pub parents: Map<usize, usize>,
    /// The entries of the frontier.
    pub open: Multiset<State>,
    /// The cells whose latest entry still waits in the frontier, each with
    /// the estimate that the entry was ranked with.
    pub fresh: Map<usize, i32>,
}

/// Position of the cell with the given index.
pub(crate) open spec fn at(grid: &Grid, n: usize) -> Position {
    grid.coord_of(n as int)
}

/// Index of the cell at a position.
pub(crate) open spec fn cell(grid: &Grid, p: Position) -> usize {
    grid.index_of(p) as usize
}

/// The positions of a sequence of cells.
pub(crate) open spec fn positions(grid: &Grid, cells: Seq<usize>) -> Seq<Position> {
    Seq::new(cells.len(), |k: int| at(grid, cells[k]))
}

/// The parent of `n` is a found cell from which `n` can be stepped onto,
/// and the score of `n` allows for that step.
pub(crate) closed spec fn linked(grid: &Grid, st: Snapshot, n: usize) -> bool {
    &&& st.parents.contains_key(n)
    &&& st.scores.contains_key(st.parents[n])
    &&& grid.can_step(at(grid, st.parents[n]), at(grid, n))
    &&& st.scores[st.parents[n]] + step_cost(at(grid, st.parents[n]), at(grid, n)) <= st.scores[n]
}

/// The scores and parents describe walks from the start, and every entry
/// of the frontier names a found cell.
pub(crate) closed spec fn sound(grid: &Grid, st: Snapshot, start: usize) -> bool {
    &&& st.scores.dom().finite()
    &&& st.scores.contains_key(start)
    &&& st.scores[start] == 0
    &&& forall|n: usize| #[trigger]
        st.scores.contains_key(n) ==> n < grid.spec_len() && 0 <= st.scores[n] <= 14 * (
        st.scores.dom().len() - 1)
    &&& forall|n: usize| #[trigger] st.scores.contains_key(n) && n != start ==> linked(grid, st, n)
    &&& forall|e: State| #[trigger] st.open.contains(e) ==> st.scores.contains_key(e.position)
}

/// Every step from `n` leads to a found cell whose score is no more than
/// the score of `n` plus the step.
pub(crate) closed spec fn settled(grid: &Grid, st: Snapshot, n: usize) -> bool {
    forall|b: Position| #[trigger]
        grid.can_step(at(grid, n), b) ==> st.scores.contains_key(cell(grid, b)) && st.scores[cell(
            grid,
            b,
        )] <= st.scores[n] + step_cost(at(grid, n), b)
}

/// Every fresh cell has an entry in the frontier that is ranked with its
/// present score and an estimate that the heuristic gave for it.
pub(crate) closed spec fn fresh_ok(
    grid: &Grid,
    st: Snapshot,
    rel: spec_fn(Position, i32) -> bool,
) -> bool {
    forall|n: usize| #[trigger]
        st.fresh.contains_key(n) ==> {
            &&& st.scores.contains_key(n)
            &&& st.open.contains(
                State { position: n, cost: (st.scores[n] + st.fresh[n]) as i64 },
            )
            &&& rel(at(grid, n), st.fresh[n])
        }
}

/// Every found cell but `skip` is fresh or settled.
pub(crate) closed spec fn covered(grid: &Grid, st: Snapshot, skip: Option<usize>) -> bool {
    forall|n: usize| #[trigger]
        st.scores.contains_key(n) && skip != Some(n) ==> st.fresh.contains_key(n) || settled(
            grid,
            st,
            n,
        )
}

/// All of the above.
pub(crate) closed spec fn consistent(
    grid: &Grid,
    st: Snapshot,
    start: usize,
    rel: spec_fn(Position, i32) -> bool,
    skip: Option<usize>,
) -> bool {
    &&& grid.wf()
    &&& sound(grid, st, start)
    &&& fresh_ok(grid, st, rel)
    &&& covered(grid, st, skip)
}

/// No entry for the goal is ranked below the goal's score.
pub(crate) closed spec fn goal_tight(st: Snapshot, goal: usize) -> bool {
    forall|e: State| #[trigger]
        st.open.contains(e) && e.position == goal ==> e.cost >= st.scores[goal]
}

/// Once the goal is found, an entry for it waits in the frontier.
pub(crate) closed spec fn goal_waits(st: Snapshot, goal: usize, cost: i64) -> bool {
    st.scores.contains_key(goal) ==> st.open.contains(State { position: goal, cost })
}

/// No estimate that the heuristic gives for a position is negative or
/// exceeds the cost of a walk from there to the goal.
pub(crate) open spec fn never_over(
    grid: &Grid,
    rel: spec_fn(Position, i32) -> bool,
    goal: Position,
) -> bool {
    forall|from: Position, path: Seq<Position>, estimate: i32|
        #![trigger grid.connects(path, from, goal), rel(from, estimate)]
        grid.connects(path, from, goal) && rel(from, estimate) ==> 0 <= estimate <= path_cost(path)
}

/// What a cell adds to the potential: its score, or more than any score
/// while it is not found.
pub(crate) open spec fn weight(scores: Map<usize, i64>, n: usize, cap: int) -> int {
    if scores.contains_key(n) {
        scores[n] as int
    } else {
        cap + 1
    }
}

/// The potential of the first `upto` cells. It falls whenever a cell is
/// found or its score improves, which bounds the work of a search.
pub(crate) open spec fn potential(scores: Map<usize, i64>, cap: int, upto: nat) -> int
    decreases upto,
{
    if upto == 0 {
        0
    } else {
        potential(scores, cap, (upto - 1) as nat) + weight(scores, (upto - 1) as usize, cap)
    }
}

/// A finite set of indices below a bound has no more elements than the
/// bound.
pub(crate) proof fn lemma_count_below(s: Set<usize>, bound: nat)
    requires
        s.finite(),
        forall|n: usize| s.contains(n) ==> n < bound,
    ensures
        s.len() <= bound,
{
    let f = |n: usize| n as int;
    let image = s.map(f);
    assert(injective_on(f, s));
    lemma_map_size(s, image, f);
    lemma_int_range(0, bound as int);
    assert forall|i: int| image.contains(i) implies set_int_range(0, bound as int).contains(i) by {
        let n = choose|n: usize| s.contains(n) && f(n) == i;
        assert(s.contains(n));
    }
    lemma_len_subset(image, set_int_range(0, bound as int));
}

/// Scores stay far below what a 64-bit integer holds.
pub(crate) proof fn lemma_scores_bounded(grid: &Grid, st: Snapshot, start: usize, n: usize)
    requires
        grid.wf(),
        sound(grid, st, start),
        st.scores.contains_key(n),
    ensures
        st.scores.dom().finite(),
        n < grid.spec_len(),
        0 <= st.scores[n] <= 14 * (grid.spec_len() - 1),
        st.scores[n] <= 14 * MAX_CELLS,
        st.scores.dom().len() <= grid.spec_len(),
{
    lemma_count_below(st.scores.dom(), grid.spec_len());
}

/// The potential is not negative while no score is.
pub(crate) proof fn lemma_potential_floor(scores: Map<usize, i64>, cap: int, upto: nat)
    requires
        cap >= 0,
        forall|n: usize| scores.contains_key(n) ==> scores[n] >= 0,
    ensures
        potential(scores, cap, upto) >= 0,
    decreases upto,
{
    if upto > 0 {
        lemma_potential_floor(scores, cap, (upto - 1) as nat);
    }
}

/// Finding a cell, or improving its score, lowers the potential.
pub(crate) proof fn lemma_potential_falls(
    scores: Map<usize, i64>,
    cap: int,
    upto: nat,
    m: usize,
    value: i64,
)
    requires
        upto <= usize::MAX,
        value <= cap,
        scores.contains_key(m) ==> value < scores[m],
    ensures
        m < upto ==> potential(scores.insert(m, value), cap, upto) < potential(scores, cap, upto),
        m >= upto ==> potential(scores.insert(m, value), cap, upto) == potential(scores, cap, upto),
    decreases upto,
{
    if upto > 0 {
        lemma_potential_falls(scores, cap, (upto - 1) as nat, m, value);
    }
}

/// The books with which a search begins: the start is found at no cost and
/// waits in the frontier.
pub(crate) open spec fn opening(start: usize, estimate: i32) -> Snapshot {
    Snapshot {
        scores: Map::<usize, i64>::empty().insert(start, 0),
        parents: Map::<usize, usize>::empty().insert(start, start),
        open: Multiset::<State>::empty().insert(State { position: start, cost: estimate as i64 }),
        fresh: Map::<usize, i32>::empty().insert(start, estimate),
    }
}

/// The books after an entry has left the frontier to be expanded.
pub(crate) open spec fn after_pop(st: Snapshot, e: State) -> Snapshot {
    Snapshot {
        scores: st.scores,
        parents: st.parents,
        open: st.open.remove(e),
        fresh: st.fresh.remove(e.position),
    }
}

/// The books after `m` was found, or found again more cheaply, from
/// `current`.
pub(crate) open spec fn after_relax(
    st: Snapshot,
    current: usize,
    m: usize,
    value: i64,
    estimate: i32,
) -> Snapshot {
    Snapshot {
        scores: st.scores.insert(m, value),
        parents: st.parents.insert(m, current),
        open: st.open.insert(State { position: m, cost: (value + estimate) as i64 }),
        fresh: st.fresh.insert(m, estimate),
    }
}

/// The first `done` steps from `current` lead to found cells whose scores
/// allow for the step.
pub(crate) closed spec fn relaxed(
    grid: &Grid,
    st: Snapshot,
    current: usize,
    steps: Seq<(Position, i32)>,
    done: int,
) -> bool {
    forall|k: int|
        0 <= k < done ==> st.scores.contains_key(cell(grid, (#[trigger] steps[k]).0))
            && st.scores[cell(grid, steps[k].0)] <= st.scores[current] + steps[k].1
}

/// The opening books are consistent.
pub(crate) proof fn lemma_opening(
    grid: &Grid,
    start: usize,
    goal: usize,
    estimate: i32,
    rel: spec_fn(Position, i32) -> bool,
)
    requires
        grid.wf(),
        start < grid.spec_len(),
        rel(at(grid, start), estimate),
    ensures
        consistent(grid, opening(start, estimate), start, rel, None),
        goal_waits(opening(start, estimate), goal, estimate as i64),
        (start == goal ==> estimate >= 0) ==> goal_tight(opening(start, estimate), goal),
{
    let st = opening(start, estimate);
    assert(st.scores.dom() =~= Set::<usize>::empty().insert(start));
    assert(st.scores.dom().len() == 1);
    assert forall|e: State| #[trigger] st.open.contains(e) implies e == (State {
        position: start,
        cost: estimate as i64,
    }) by {
        if e != (State { position: start, cost: estimate as i64 }) {
            assert(Multiset::<State>::empty().count(e) == 0);
        }
    }
    assert(st.open.contains(State { position: start, cost: estimate as i64 }));
}

/// Taking an entry out of the frontier keeps the books consistent but for
/// the cell taken, which is now to be expanded.
pub(crate) proof fn lemma_after_pop(
    grid: &Grid,
    st: Snapshot,
    start: usize,
    goal: usize,
    goal_cost: i64,
    rel: spec_fn(Position, i32) -> bool,
    e: State,
)
    requires
        consistent(grid, st, start, rel, None),
        st.open.contains(e),
        goal_waits(st, goal, goal_cost),
    ensures
        consistent(grid, after_pop(st, e), start, rel, Some(e.position)),
        relaxed(
            grid,
            after_pop(st, e),
            e.position,
            grid.spec_valid_neighbours(at(grid, e.position)),
            0,
        ),
        goal_tight(st, goal) ==> goal_tight(after_pop(st, e), goal),
        e.position != goal ==> goal_waits(after_pop(st, e), goal, goal_cost),
        after_pop(st, e).open.len() == st.open.len() - 1,
        st.scores.contains_key(e.position),
{
    let next = after_pop(st, e);
    assert forall|x: State| #[trigger] next.open.contains(x) implies st.open.contains(x) by {}
    assert forall|n: usize| #[trigger] next.fresh.contains_key(n) implies {
        &&& next.scores.contains_key(n)
        &&& next.open.contains(
            State { position: n, cost: (next.scores[n] + next.fresh[n]) as i64 },
        )
        &&& rel(at(grid, n), next.fresh[n])
    } by {
        assert(st.fresh.contains_key(n));
        assert(n != e.position);
    }
    assert forall|n: usize| #[trigger]
        next.scores.contains_key(n) && Some(e.position) != Some(n) implies next.fresh.contains_key(
        n,
    ) || settled(grid, next, n) by {
        assert(st.scores.contains_key(n));
        if !st.fresh.contains_key(n) {
            assert(settled(grid, st, n));
        }
    }
    assert forall|n: usize| #[trigger] next.scores.contains_key(n) && n != start implies linked(
        grid,
        next,
        n,
    ) by {
        assert(linked(grid, st, n));
    }
}

/// Recording a cheaper way to `m` keeps the books consistent, lowers the
/// potential and raises no score.
pub(crate) proof fn lemma_after_relax(
    grid: &Grid,
    st: Snapshot,
    start: usize,
    goal: usize,
    goal_cost: i64,
    rel: spec_fn(Position, i32) -> bool,
    current: usize,
    b: Position,
    value: i64,
    estimate: i32,
    steps: Seq<(Position, i32)>,
    done: int,
)
    requires
        consistent(grid, st, start, rel, Some(current)),
        st.scores.contains_key(current),
        grid.can_step(at(grid, current), b),
        value == st.scores[current] + step_cost(at(grid, current), b),
        st.scores.contains_key(cell(grid, b)) ==> value < st.scores[cell(grid, b)],
        rel(b, estimate),
        0 <= done <= steps.len(),
        relaxed(grid, st, current, steps, done),
        goal_waits(st, goal, goal_cost),
    ensures
        cell(grid, b) != current,
        cell(grid, b) < grid.spec_len(),
        consistent(
            grid,
            after_relax(st, current, cell(grid, b), value, estimate),
            start,
            rel,
            Some(current),
        ),
        after_relax(st, current, cell(grid, b), value, estimate).scores[current]
            == st.scores[current],
        relaxed(grid, after_relax(st, current, cell(grid, b), value, estimate), current, steps, done),
        (goal_tight(st, goal) && (cell(grid, b) == goal ==> estimate >= 0)) ==> goal_tight(
            after_relax(st, current, cell(grid, b), value, estimate),
            goal,
        ),
        goal_waits(
            after_relax(st, current, cell(grid, b), value, estimate),
            goal,
            if cell(grid, b) == goal {
                (value + estimate) as i64
            } else {
                goal_cost
            },
        ),
        after_relax(st, current, cell(grid, b), value, estimate).open.len() == st.open.len() + 1,
        0 <= value <= 14 * (grid.spec_len() - 1),
{
    let m = cell(grid, b);
    let next = after_relax(st, current, m, value, estimate);
    grid.lemma_position_round_trip(b);
    lemma_scores_bounded(grid, st, start, current);
    assert(at(grid, m) == b);
    assert(m != start);
    assert(m != current);
    assert(next.scores.dom() =~= st.scores.dom().insert(m));
    let pushed = State { position: m, cost: (value + estimate) as i64 };
    assert forall|n: usize| #[trigger] next.scores.contains_key(n) implies n < grid.spec_len() && 0
        <= next.scores[n] <= 14 * (next.scores.dom().len() - 1) by {
        if n != m {
            assert(st.scores.contains_key(n));
        } else if st.scores.contains_key(m) {
            assert(st.scores[m] <= 14 * (st.scores.dom().len() - 1));
        }
    }
    assert forall|n: usize| #[trigger] next.scores.contains_key(n) && n != start implies linked(
        grid,
        next,
        n,
    ) by {
        if n != m {
            assert(st.scores.contains_key(n));
            assert(linked(grid, st, n));
        }
    }
    assert forall|e: State| #[trigger] next.open.contains(e) implies next.scores.contains_key(
        e.position,
    ) by {
        if e != pushed {
            assert(st.open.contains(e));
        }
    }
    assert forall|n: usize| #[trigger] next.fresh.contains_key(n) implies {
        &&& next.scores.contains_key(n)
        &&& next.open.contains(
            State { position: n, cost: (next.scores[n] + next.fresh[n]) as i64 },
        )
        &&& rel(at(grid, n), next.fresh[n])
    } by {
        if n != m {
            assert(st.fresh.contains_key(n));
            assert(st.open.contains(
                State { position: n, cost: (st.scores[n] + st.fresh[n]) as i64 },
            ));
        }
    }
    assert forall|n: usize| #[trigger]
        next.scores.contains_key(n) && Some(current) != Some(n) implies next.fresh.contains_key(n)
        || settled(grid, next, n) by {
        if n != m {
            assert(st.scores.contains_key(n));
            if !st.fresh.contains_key(n) {
                assert(settled(grid, st, n));
                assert forall|c: Position| #[trigger]
                    grid.can_step(at(grid, n), c) implies next.scores.contains_key(cell(grid, c))
                    && next.scores[cell(grid, c)] <= next.scores[n] + step_cost(at(grid, n), c) by {
                    assert(st.scores.contains_key(cell(grid, c)));
                }
            }
        }
    }
    assert forall|k: int| 0 <= k < done implies next.scores.contains_key(
        cell(grid, (#[trigger] steps[k]).0),
    ) && next.scores[cell(grid, steps[k].0)] <= next.scores[current] + steps[k].1 by {
        assert(st.scores.contains_key(cell(grid, steps[k].0)));
    }
    if goal_tight(st, goal) && (m == goal ==> estimate >= 0) {
        assert forall|e: State| #[trigger] next.open.contains(e) && e.position == goal implies e.cost
            >= next.scores[goal] by {
            if e != pushed {
                assert(st.open.contains(e));
            }
        }
    }
    if m != goal && next.scores.contains_key(goal) {
        assert(st.scores.contains_key(goal));
        assert(st.open.contains(State { position: goal, cost: goal_cost }));
    }
    lemma_scores_bounded(grid, next, start, m);
}

/// Once every step from `current` has been looked at, `current` is settled
/// and the books are consistent again without exception.
pub(crate) proof fn lemma_after_expansion(
    grid: &Grid,
    st: Snapshot,
    start: usize,
    rel: spec_fn(Position, i32) -> bool,
    current: usize,
)
    requires
        consistent(grid, st, start, rel, Some(current)),
        st.scores.contains_key(current),
        relaxed(
            grid,
            st,
            current,
            grid.spec_valid_neighbours(at(grid, current)),
            grid.spec_valid_neighbours(at(grid, current)).len() as int,
        ),
    ensures
        consistent(grid, st, start, rel, None),
{
    let steps = grid.spec_valid_neighbours(at(grid, current));
    assert forall|b: Position| #[trigger]
        grid.can_step(at(grid, current), b) implies st.scores.contains_key(cell(grid, b))
        && st.scores[cell(grid, b)] <= st.scores[current] + step_cost(at(grid, current), b) by {
        let c = step_cost(at(grid, current), b) as i32;
        grid.lemma_valid_neighbours(at(grid, current), b, c);
        let k = choose|k: int| 0 <= k < steps.len() && steps[k] == (b, c);
        assert(steps[k].0 == b);
    }
    assert(settled(grid, st, current));
}

/// Along any walk from the start, up to its position `k`: either some
/// position is fresh, with a score no higher than the cost of walking
/// there, or position `k` itself is found with such a score.
pub(crate) proof fn lemma_reach(
    grid: &Grid,
    st: Snapshot,
    start: usize,
    rel: spec_fn(Position, i32) -> bool,
    path: Seq<Position>,
    k: int,
) -> (j: int)
    requires
        consistent(grid, st, start, rel, None),
        grid.is_path(path),
        cell(grid, path[0]) == start,
        0 <= k < path.len(),
    ensures
        0 <= j <= k,
        st.scores.contains_key(cell(grid, path[j])),
        st.scores[cell(grid, path[j])] <= path_cost(path.take(j + 1)),
        j < k ==> st.fresh.contains_key(cell(grid, path[j])),
    decreases k,
{
    if k == 0 {
        lemma_path_cost_bounds(path.take(1));
        0
    } else {
        let j = lemma_reach(grid, st, start, rel, path, k - 1);
        let n = cell(grid, path[j]);
        if j < k - 1 || st.fresh.contains_key(n) {
            j
        } else {
            grid.lemma_path_parts(path, k - 1);
            grid.lemma_position_round_trip(path[k - 1]);
            assert(settled(grid, st, n));
            assert(grid.can_step(path[k - 1], path[k - 1 + 1]));
            assert(grid.can_step(at(grid, n), path[k]));
            assert(path.take(k + 1) == path.take(k).push(path[k]));
            lemma_path_cost_push(path.take(k), path[k]);
            k
        }
    }
}

/// When the cheapest entry of the frontier is one for the goal, and the
/// heuristic never overestimates, no walk from the start to the goal costs
/// less than the goal's score.
pub(crate) proof fn lemma_goal_is_cheapest(
    grid: &Grid,
    st: Snapshot,
    start: usize,
    goal: usize,
    rel: spec_fn(Position, i32) -> bool,
    e: State,
    path: Seq<Position>,
)
    requires
        consistent(grid, st, start, rel, None),
        goal_tight(st, goal),
        never_over(grid, rel, at(grid, goal)),
        st.open.contains(e),
        e.position == goal,
        forall|other: State| st.open.contains(other) ==> e.cost <= other.cost,
        grid.connects(path, at(grid, start), at(grid, goal)),
        start < grid.spec_len(),
        goal < grid.spec_len(),
    ensures
        st.scores[goal] <= path_cost(path),
{
    grid.lemma_index_round_trip(start as int);
    grid.lemma_index_round_trip(goal as int);
    let last = path.len() - 1;
    let j = lemma_reach(grid, st, start, rel, path, last);
    let n = cell(grid, path[j]);
    lemma_path_cost_split(path, j);
    lemma_path_cost_bounds(path.skip(j));
    if j < last {
        grid.lemma_path_parts(path, j);
        grid.lemma_position_round_trip(path[j]);
        let waiting = State { position: n, cost: (st.scores[n] + st.fresh[n]) as i64 };
        assert(st.fresh.contains_key(n));
        assert(st.open.contains(waiting));
        assert(rel(path[j], st.fresh[n]));
        assert(grid.connects(path.skip(j), path[j], at(grid, goal)));
        lemma_scores_bounded(grid, st, start, n);
    } else {
        assert(path.take(last + 1) == path);
    }
}

/// When the frontier is empty, every cell that a walk from the start leads
/// to has been found.
pub(crate) proof fn lemma_all_found(
    grid: &Grid,
    st: Snapshot,
    start: usize,
    rel: spec_fn(Position, i32) -> bool,
    path: Seq<Position>,
)
    requires
        consistent(grid, st, start, rel, None),
        st.open.len() == 0,
        grid.is_path(path),
        cell(grid, path[0]) == start,
    ensures
        st.scores.contains_key(cell(grid, path[path.len() - 1])),
{
    let last = path.len() - 1;
    let j = lemma_reach(grid, st, start, rel, path, last);
    if j < last {
        let n = cell(grid, path[j]);
        let waiting = State { position: n, cost: (st.scores[n] + st.fresh[n]) as i64 };
        assert(st.open.contains(waiting));
        assert(st.open.count(waiting) <= st.open.len());
    }
}

/// Following the parents from a found cell leads back to the start; the
/// cells passed form a walk from the start that costs no more than the
/// cell's score.
pub(crate) proof fn lemma_trail_is_path(grid: &Grid, st: Snapshot, start: usize, n: usize)
    requires
        grid.wf(),
        sound(grid, st, start),
        st.scores.contains_key(n),
    ensures
        crate::astar::leads_back(st.parents, n, start, st.scores[n] as nat),
        grid.connects(
            positions(grid, crate::astar::trail(st.parents, n, start, st.scores[n] as nat)),
            at(grid, start),
            at(grid, n),
        ),
        path_cost(positions(grid, crate::astar::trail(st.parents, n, start, st.scores[n] as nat)))
            <= st.scores[n],
        forall|k: int|
            0 <= k < crate::astar::trail(st.parents, n, start, st.scores[n] as nat).len()
                ==> #[trigger] crate::astar::trail(st.parents, n, start, st.scores[n] as nat)[k]
                < grid.spec_len(),
    decreases st.scores[n],
{
    let hops = st.scores[n] as nat;
    let cells = crate::astar::trail(st.parents, n, start, hops);
    grid.lemma_index_round_trip(n as int);
    if n == start {
        assert(cells == seq![n]);
        assert(positions(grid, cells) =~= seq![at(grid, n)]);
        lemma_path_cost_bounds(positions(grid, cells));
    } else {
        assert(linked(grid, st, n));
        let p = st.parents[n];
        let before = st.scores[p] as nat;
        lemma_trail_is_path(grid, st, start, p);
        crate::astar::lemma_leads_back_longer(st.parents, p, start, before, (hops - 1) as nat);
        crate::astar::lemma_trail(st.parents, p, start, before, (hops - 1) as nat);
        let shorter = crate::astar::trail(st.parents, p, start, before);
        assert(cells == shorter.push(n));
        let walk = positions(grid, shorter);
        assert(positions(grid, cells) =~= walk.push(at(grid, n)));
        lemma_path_cost_push(walk, at(grid, n));
        assert forall|k: int| 0 <= k < positions(grid, cells).len() - 1 implies grid.can_step(
            positions(grid, cells)[k],
            #[trigger] positions(grid, cells)[k + 1],
        ) by {
            if k < walk.len() - 1 {
                assert(grid.can_step(walk[k], walk[k + 1]));
            }
        }
    }
}

/// Consistent books are those of a grid, and their scores are bounded.
pub(crate) proof fn lemma_books(
    grid: &Grid,
    st: Snapshot,
    start: usize,
    rel: spec_fn(Position, i32) -> bool,
    skip: Option<usize>,
)
    requires
        consistent(grid, st, start, rel, skip),
    ensures
        grid.wf(),
        st.scores.contains_key(start),
        forall|n: usize| #[trigger]
            st.scores.contains_key(n) ==> n < grid.spec_len() && 0 <= st.scores[n] <= 14 * (
            grid.spec_len() - 1),
{
    assert forall|n: usize| #[trigger] st.scores.contains_key(n) implies n < grid.spec_len() && 0
        <= st.scores[n] <= 14 * (grid.spec_len() - 1) by {
        lemma_scores_bounded(grid, st, start, n);
    }
}

/// One more step from `current` has been looked at.
pub(crate) proof fn lemma_relaxed_one_more(
    grid: &Grid,
    st: Snapshot,
    current: usize,
    steps: Seq<(Position, i32)>,
    done: int,
)
    requires
        0 <= done < steps.len(),
        relaxed(grid, st, current, steps, done),
        st.scores.contains_key(cell(grid, steps[done].0)),
        st.scores[cell(grid, steps[done].0)] <= st.scores[current] + steps[done].1,
    ensures
        relaxed(grid, st, current, steps, done + 1),
{
}

/// When the frontier is empty and no entry for the goal is left, no walk
/// leads from the start to the goal.
pub(crate) proof fn lemma_exhausted(
    grid: &Grid,
    st: Snapshot,
    start: usize,
    goal: usize,
    goal_cost: i64,
    rel: spec_fn(Position, i32) -> bool,
)
    requires
        consistent(grid, st, start, rel, None),
        goal_waits(st, goal, goal_cost),
        st.open.len() == 0,
        start < grid.spec_len(),
        goal < grid.spec_len(),
    ensures
        !grid.reachable(at(grid, start), at(grid, goal)),
{
    grid.lemma_index_round_trip(start as int);
    grid.lemma_index_round_trip(goal as int);
    if grid.reachable(at(grid, start), at(grid, goal)) {
        let walk = choose|walk: Seq<Position>|
            grid.connects(walk, at(grid, start), at(grid, goal));
        lemma_all_found(grid, st, start, rel, walk);
        let waiting = State { position: goal, cost: goal_cost };
        assert(st.open.count(waiting) <= st.open.len());
    }
}

/// When an entry for the goal comes out of the frontier, following the
/// parents from the goal gives a walk from the start to the goal, and
/// where the heuristic never overestimates no walk between the two costs
/// less.
pub(crate) proof fn lemma_arrived(
    grid: &Grid,
    st: Snapshot,
    start: usize,
    goal: usize,
    rel: spec_fn(Position, i32) -> bool,
    e: State,
)
    requires
        consistent(grid, st, start, rel, None),
        st.open.contains(e),
        e.position == goal,
        forall|other: State| st.open.contains(other) ==> e.cost <= other.cost,
        start < grid.spec_len(),
        goal < grid.spec_len(),
    ensures
        st.scores.contains_key(goal),
        st.scores[goal] >= 0,
        crate::astar::leads_back(st.parents, goal, start, st.scores[goal] as nat),
        grid.connects(
            positions(grid, crate::astar::trail(st.parents, goal, start, st.scores[goal] as nat)),
            at(grid, start),
            at(grid, goal),
        ),
        forall|k: int|
            0 <= k < crate::astar::trail(st.parents, goal, start, st.scores[goal] as nat).len()
                ==> #[trigger] crate::astar::trail(st.parents, goal, start, st.scores[goal] as nat)[k]
                < grid.spec_len(),
        goal_tight(st, goal) && never_over(grid, rel, at(grid, goal)) ==> forall|
            other: Seq<Position>,
        |
            grid.connects(other, at(grid, start), at(grid, goal)) ==> path_cost(
                positions(
                    grid,
                    crate::astar::trail(st.parents, goal, start, st.scores[goal] as nat),
                ),
            ) <= path_cost(other),
{
    lemma_trail_is_path(grid, st, start, goal);
    lemma_scores_bounded(grid, st, start, goal);
    if goal_tight(st, goal) && never_over(grid, rel, at(grid, goal)) {
        assert forall|other: Seq<Position>|
            grid.connects(other, at(grid, start), at(grid, goal)) implies path_cost(
            positions(grid, crate::astar::trail(st.parents, goal, start, st.scores[goal] as nat)),
        ) <= path_cost(other) by {
            lemma_goal_is_cheapest(grid, st, start, goal, rel, e, other);
        }
    }
}

} // verus!
