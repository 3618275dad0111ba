//! A* search for a cheapest path between two cells of a grid.

use crate::frontier::{Frontier, State};
use crate::grid::{Grid, GridError};
use crate::paths::path_cost;
use crate::pos::Position;
use crate::search_state::{
    after_pop, after_relax, at, consistent, goal_tight, goal_waits, lemma_after_expansion,
    lemma_after_pop, lemma_after_relax, lemma_arrived, lemma_books, lemma_exhausted,
    lemma_opening, lemma_potential_falls, lemma_potential_floor, lemma_relaxed_one_more,
    never_over, opening, positions, potential, relaxed, Snapshot,
};
use std::collections::HashMap;
use vstd::multiset::Multiset;
use vstd::prelude::*;
use vstd::std_specs::hash::group_hash_axioms;

verus! {

broadcast use group_hash_axioms;

/// Whether following `history` from `from` arrives at `start` within
/// `hops` steps.
pub open spec fn leads_back(history: Map<usize, usize>, from: usize, start: usize, hops: nat) -> bool
    decreases hops,
{
    from == start || (hops > 0 && history.contains_key(from) && leads_back(
        history,
        history[from],
        start,
        (hops - 1) as nat,
    ))
}

/// The cells from `start` to `from` along `history`, where `from` leads
/// back to `start` within `hops` steps.
pub open spec fn trail(history: Map<usize, usize>, from: usize, start: usize, hops: nat) -> Seq<
    usize,
>
    decreases hops,
{
    if from == start || hops == 0 {
        seq![from]
    } else {
        trail(history, history[from], start, (hops - 1) as nat).push(from)
    }
}

/// A trail ends where it was asked to end, and it is the same trail
/// whatever number of steps is allowed, once that is enough.
pub proof fn lemma_trail(history: Map<usize, usize>, from: usize, start: usize, a: nat, b: nat)
    requires
        leads_back(history, from, start, a),
        leads_back(history, from, start, b),
    ensures
        trail(history, from, start, a) == trail(history, from, start, b),
        trail(history, from, start, a).len() > 0,
        trail(history, from, start, a).last() == from,
        trail(history, from, start, a)[0] == start,
    decreases a,
{
    if from != start {
        lemma_trail(history, history[from], start, (a - 1) as nat, (b - 1) as nat);
    }
}

/// What leads back within some number of steps does so within any larger
/// number.
pub proof fn lemma_leads_back_longer(
    history: Map<usize, usize>,
    from: usize,
    start: usize,
    a: nat,
    b: nat,
)
    requires
        leads_back(history, from, start, a),
        a <= b,
    ensures
        leads_back(history, from, start, b),
    decreases a,
{
    if from != start {
        lemma_leads_back_longer(history, history[from], start, (a - 1) as nat, (b - 1) as nat);
    }
}

/// Estimated cost from a position to the goal: the Manhattan distance,
/// capped at the largest `i32`.
pub open spec fn manhattan(a: Position, b: Position) -> int {
    let dx = if a.x >= b.x {
        a.x - b.x
    } else {
        b.x - a.x
    };
    let dy = if a.y >= b.y {
        a.y - b.y
    } else {
        b.y - a.y
    };
    if dx + dy > i32::MAX {
        i32::MAX as int
    } else {
        dx + dy
    }
}

/// The Manhattan distance between two positions, capped at the largest
/// `i32`.
pub fn simple(current_position: Position, goal: Position) -> (estimate: i32)
    ensures
        estimate == manhattan(current_position, goal),
{
    let delta_x: i64 = if current_position.x >= goal.x {
        current_position.x as i64 - goal.x as i64
    } else {
        goal.x as i64 - current_position.x as i64
    };
    let delta_y: i64 = if current_position.y >= goal.y {
        current_position.y as i64 - goal.y as i64
    } else {
        goal.y as i64 - current_position.y as i64
    };
    let sum: i64 = delta_x + delta_y;
    if sum > i32::MAX as i64 {
        i32::MAX
    } else {
        sum as i32
    }
}

/// The search itself; it keeps no state between calls.
pub struct AStar;

impl AStar {
    /// Walks `history` back from `current` to `start` and returns the
    /// cells passed, from `start` to `current`.
    pub fn construct_path(history: &HashMap<usize, usize>, current: usize, start: usize) -> (path:
        Vec<usize>)
        requires
            exists|hops: nat| leads_back(history@, current, start, hops),
        ensures
            forall|hops: nat|
                leads_back(history@, current, start, hops) ==> path@ == trail(
                    history@,
                    current,
                    start,
                    hops,
                ),
    {
        let ghost hops = choose|hops: nat| leads_back(history@, current, start, hops);
        let ghost whole = trail(history@, current, start, hops);
        let mut back: Vec<usize> = Vec::new();
        back.push(current);
        let mut at = current;
        let ghost mut left = hops;
        proof {
            lemma_trail(history@, current, start, hops, hops);
        }
        while at != start
            invariant
                leads_back(history@, at, start, left),
                back@.len() >= 1,
                whole.len() == trail(history@, at, start, left).len() + back@.len() - 1,
                whole.take(trail(history@, at, start, left).len() as int) == trail(
                    history@,
                    at,
                    start,
                    left,
                ),
                forall|k: int| 0 <= k < back@.len() ==> whole[whole.len() - 1 - k] == back@[k],
            decreases left,
        {
            let ghost here = trail(history@, at, start, left);
            match history.get(&at) {
                Some(previous) => {
                    let ghost rest = trail(history@, *previous, start, (left - 1) as nat);
                    proof {
                        lemma_trail(
                            history@,
                            *previous,
                            start,
                            (left - 1) as nat,
                            (left - 1) as nat,
                        );
                        assert(here == rest.push(at));
                        assert(whole.take(rest.len() as int) == here.take(rest.len() as int));
                        assert(here.take(rest.len() as int) == rest);
                        assert(whole[rest.len() - 1] == whole.take(here.len() as int)[rest.len()
                            - 1]);
                        left = (left - 1) as nat;
                    }
                    at = *previous;
                    back.push(at);
                },
                None => {
                    assert(false);
                    return back;
                },
            }
        }
        let mut path: Vec<usize> = Vec::new();
        let mut remaining: usize = back.len();
        while remaining > 0
            invariant
                remaining <= back@.len(),
                back@.len() == whole.len(),
                path@.len() == back@.len() - remaining,
                forall|k: int| 0 <= k < back@.len() ==> whole[whole.len() - 1 - k] == back@[k],
                forall|k: int| 0 <= k < path@.len() ==> path@[k] == whole[k],
            decreases remaining,
        {
            remaining = remaining - 1;
            path.push(back[remaining]);
        }
        proof {
            assert(path@ =~= whole);
            assert forall|other: nat| leads_back(history@, current, start, other) implies path@
                == trail(history@, current, start, other) by {
                lemma_trail(history@, current, start, hops, other);
            }
        }
        path
    }
}

/// What the heuristic may return for a position as its estimate of the
/// cost to `goal`.
pub open spec fn estimates<H: Fn(Position, Position) -> i32>(heuristic: &H, goal: Position) -> spec_fn(
    Position,
    i32,
) -> bool {
    |from: Position, estimate: i32| heuristic.ensures((from, goal), estimate)
}

/// Whether the heuristic is admissible for `goal`: no estimate it gives
/// for a position is negative or exceeds the cost of a walk from there to
/// the goal.
pub open spec fn admissible<H: Fn(Position, Position) -> i32>(
    grid: &Grid,
    heuristic: &H,
    goal: Position,
) -> bool {
    forall|from: Position, path: Seq<Position>, estimate: i32|
        #![trigger grid.connects(path, from, goal), heuristic.ensures((from, goal), estimate)]
        grid.connects(path, from, goal) && heuristic.ensures((from, goal), estimate) ==> 0
            <= estimate <= path_cost(path)
}

/// The books of a search, read off its variables.
spec fn books(
    g_score: Map<usize, i64>,
    came_from: Map<usize, usize>,
    frontier: Multiset<State>,
    fresh: Map<usize, i32>,
) -> Snapshot {
    Snapshot { scores: g_score, parents: came_from, open: frontier, fresh }
}

/// The positions of the given cells, in the same order.
fn positions_of(map: &Grid, cells: &Vec<usize>) -> (path: Vec<Position>)
    requires
        forall|k: int| 0 <= k < cells@.len() ==> #[trigger] cells@[k] < map.spec_len(),
    ensures
        path@ == positions(map, cells@),
{
    let mut path: Vec<Position> = Vec::new();
    let mut k: usize = 0;
    while k < cells.len()
        invariant
            k <= cells@.len(),
            path@.len() == k,
            forall|i: int| 0 <= i < cells@.len() ==> #[trigger] cells@[i] < map.spec_len(),
            forall|i: int| 0 <= i < k ==> path@[i] == at(map, cells@[i]),
        decreases cells@.len() - k,
    {
        path.push(map.index_to_coord(cells[k]));
        k = k + 1;
    }
    assert(path@ =~= positions(map, cells@));
    path
}

impl AStar {
    /// Searches a cheapest walk from `start` to `goal`.
    ///
    /// Returns `OutOfBounds` where `start` or `goal` lies outside the grid,
    /// `None` where no walk leads from `start` to `goal`, and otherwise a
    /// walk from `start` to `goal`. Where the heuristic is admissible, no
    /// walk between the two costs less than the one returned.
    pub fn search<H: Fn(Position, Position) -> i32>(
        map: &Grid,
        start: Position,
        goal: Position,
        heuristic: H,
    ) -> (r: Result<Option<Vec<Position>>, GridError>)
        requires
            forall|from: Position| map.spec_in_bounds(from) ==> heuristic.requires((from, goal)),
        ensures
            !(map.spec_in_bounds(start) && map.spec_in_bounds(goal)) ==> r == Err::<
                Option<Vec<Position>>,
                GridError,
            >(GridError::OutOfBounds),
            map.spec_in_bounds(start) && map.spec_in_bounds(goal) ==> r is Ok,
            r is Ok ==> (r->Ok_0 is None <==> !map.reachable(start, goal)),
            r is Ok && r->Ok_0 is Some ==> map.connects(r->Ok_0->Some_0@, start, goal),
            r is Ok && start == goal ==> r->Ok_0 is Some && r->Ok_0->Some_0@ == seq![start],
            r is Ok && r->Ok_0 is Some && admissible(map, &heuristic, goal) ==> forall|
                other: Seq<Position>,
            |
                map.connects(other, start, goal) ==> path_cost(r->Ok_0->Some_0@) <= path_cost(
                    other,
                ),
    {
        if !map.in_bounds(start) || !map.in_bounds(goal) {
            return Err(GridError::OutOfBounds);
        }
        let count = map.len();
        let start_index = map.coord_to_index(start);
        let goal_index = map.coord_to_index(goal);
        let ghost rel = estimates(&heuristic, goal);
        let ghost cap: int = 14 * count;

        let first = heuristic(start, goal);
        let mut frontier = Frontier::new();
        frontier.push(State { position: start_index, cost: first as i64 });
        let mut came_from: HashMap<usize, usize> = HashMap::new();
        came_from.insert(start_index, start_index);
        let mut g_score: HashMap<usize, i64> = HashMap::new();
        g_score.insert(start_index, 0);
        let ghost mut fresh: Map<usize, i32> = Map::<usize, i32>::empty().insert(
            start_index,
            first,
        );
        let ghost mut goal_cost: i64 = first as i64;
        proof {
            lemma_opening(map, start_index, goal_index, first, rel);
            assert(books(g_score@, came_from@, frontier@, fresh) == opening(start_index, first));
            if admissible(map, &heuristic, goal) && start_index == goal_index {
                assert(map.connects(seq![goal], goal, goal));
                assert(rel(goal, first));
            }
        }
        loop
            invariant
                count == map.spec_len(),
                cap == 14 * count,
                start_index < count,
                goal_index < count,
                at(map, start_index) == start,
                at(map, goal_index) == goal,
                map.spec_in_bounds(start),
                map.spec_in_bounds(goal),
                start == goal ==> start_index == goal_index,
                rel == estimates(&heuristic, goal),
                forall|from: Position|
                    map.spec_in_bounds(from) ==> heuristic.requires((from, goal)),
                consistent(
                    map,
                    books(g_score@, came_from@, frontier@, fresh),
                    start_index,
                    rel,
                    None,
                ),
                admissible(map, &heuristic, goal) ==> goal_tight(
                    books(g_score@, came_from@, frontier@, fresh),
                    goal_index,
                ),
                goal_waits(books(g_score@, came_from@, frontier@, fresh), goal_index, goal_cost),
            decreases potential(g_score@, cap, count as nat), frontier@.len(),
        {
            let ghost before = books(g_score@, came_from@, frontier@, fresh);
            let ghost potential_before = potential(g_score@, cap, count as nat);
            proof {
                lemma_books(map, before, start_index, rel, None);
            }
            match frontier.pop() {
                None => {
                    proof {
                        lemma_exhausted(map, before, start_index, goal_index, goal_cost, rel);
                        if start == goal {
                            assert(map.connects(seq![start], start, goal));
                        }
                    }
                    return Ok(None);
                },
                Some(State { position: current, cost }) => {
                    let ghost popped = State { position: current, cost };
                    if current == goal_index {
                        proof {
                            lemma_arrived(map, before, start_index, goal_index, rel, popped);
                            if admissible(map, &heuristic, goal) {
                                assert(never_over(map, rel, goal));
                            }
                        }
                        let cells = AStar::construct_path(&came_from, current, start_index);
                        let path = positions_of(map, &cells);
                        proof {
                            if start_index == goal_index {
                                assert(path@ =~= seq![start]);
                            }
                        }
                        return Ok(Some(path));
                    }
                    proof {
                        lemma_after_pop(
                            map,
                            before,
                            start_index,
                            goal_index,
                            goal_cost,
                            rel,
                            popped,
                        );
                        fresh = fresh.remove(current);
                        assert(books(g_score@, came_from@, frontier@, fresh) == after_pop(
                            before,
                            popped,
                        ));
                    }
                    let current_position = map.index_to_coord(current);
                    let g_current: i64 = *g_score.get(&current).unwrap();
                    let steps = map.get_valid_neighbours(current_position);
                    let mut i: usize = 0;
                    while i < steps.len()
                        invariant
                            count == map.spec_len(),
                            cap == 14 * count,
                            start_index < count,
                            goal_index < count,
                            current < count,
                            at(map, goal_index) == goal,
                            current_position == at(map, current),
                            i <= steps@.len(),
                            steps@ == map.spec_valid_neighbours(current_position),
                            rel == estimates(&heuristic, goal),
                            forall|from: Position|
                                map.spec_in_bounds(from) ==> heuristic.requires((from, goal)),
                            g_score@.contains_key(current),
                            g_score@[current] == g_current,
                            consistent(
                                map,
                                books(g_score@, came_from@, frontier@, fresh),
                                start_index,
                                rel,
                                Some(current),
                            ),
                            relaxed(
                                map,
                                books(g_score@, came_from@, frontier@, fresh),
                                current,
                                steps@,
                                i as int,
                            ),
                            admissible(map, &heuristic, goal) ==> goal_tight(
                                books(g_score@, came_from@, frontier@, fresh),
                                goal_index,
                            ),
                            goal_waits(
                                books(g_score@, came_from@, frontier@, fresh),
                                goal_index,
                                goal_cost,
                            ),
                            potential(g_score@, cap, count as nat) <= potential_before,
                            potential(g_score@, cap, count as nat) == potential_before
                                ==> frontier@.len() < before.open.len(),
                        decreases steps@.len() - i,
                    {
                        let ghost now = books(g_score@, came_from@, frontier@, fresh);
                        let (neighbour_position, neighbour_cost) = steps[i];
                        proof {
                            assert(steps@[i as int] == (neighbour_position, neighbour_cost));
                            assert(steps@.contains((neighbour_position, neighbour_cost)));
                            lemma_books(map, now, start_index, rel, Some(current));
                            map.lemma_valid_neighbours(
                                current_position,
                                neighbour_position,
                                neighbour_cost,
                            );
                            map.lemma_position_round_trip(neighbour_position);
                            assert(map.spec_in_bounds(neighbour_position));
                        }
                        let neighbour = map.coord_to_index(neighbour_position);
                        let tentative: i64 = g_current + neighbour_cost as i64;
                        let better = match g_score.get(&neighbour) {
                            Some(known) => tentative < *known,
                            None => true,
                        };
                        if better {
                            let estimate = heuristic(neighbour_position, goal);
                            proof {
                                lemma_after_relax(
                                    map,
                                    now,
                                    start_index,
                                    goal_index,
                                    goal_cost,
                                    rel,
                                    current,
                                    neighbour_position,
                                    tentative,
                                    estimate,
                                    steps@,
                                    i as int,
                                );
                                lemma_potential_falls(
                                    g_score@,
                                    cap,
                                    count as nat,
                                    neighbour,
                                    tentative,
                                );
                                if admissible(map, &heuristic, goal) && neighbour == goal_index {
                                    assert(map.connects(seq![goal], goal, goal));
                                    assert(rel(goal, estimate));
                                }
                            }
                            came_from.insert(neighbour, current);
                            g_score.insert(neighbour, tentative);
                            frontier.push(
                                State { position: neighbour, cost: tentative + estimate as i64 },
                            );
                            proof {
                                fresh = fresh.insert(neighbour, estimate);
                                if neighbour == goal_index {
                                    goal_cost = (tentative + estimate) as i64;
                                }
                                assert(books(g_score@, came_from@, frontier@, fresh)
                                    == after_relax(now, current, neighbour, tentative, estimate));
                            }
                        }
                        proof {
                            lemma_relaxed_one_more(
                                map,
                                books(g_score@, came_from@, frontier@, fresh),
                                current,
                                steps@,
                                i as int,
                            );
                        }
                        i = i + 1;
                    }
                    proof {
                        lemma_after_expansion(
                            map,
                            books(g_score@, came_from@, frontier@, fresh),
                            start_index,
                            rel,
                            current,
                        );
                        lemma_books(
                            map,
                            books(g_score@, came_from@, frontier@, fresh),
                            start_index,
                            rel,
                            None,
                        );
                        lemma_potential_floor(g_score@, cap, count as nat);
                    }
                },
            }
        }
    }
}

/// A walk of so many steps costs at least ten for each step and ends no
/// further than two per step, in Manhattan distance, from where it began.
proof fn lemma_walk_bounds(grid: &Grid, path: Seq<Position>)
    requires
        grid.is_path(path),
    ensures
        path_cost(path) >= 10 * (path.len() - 1),
        (path[path.len() - 1].x - path[0].x) <= path.len() - 1,
        (path[0].x - path[path.len() - 1].x) <= path.len() - 1,
        (path[path.len() - 1].y - path[0].y) <= path.len() - 1,
        (path[0].y - path[path.len() - 1].y) <= path.len() - 1,
    decreases path.len(),
{
    if path.len() > 1 {
        let shorter = path.drop_last();
        assert forall|k: int| 0 <= k < shorter.len() - 1 implies grid.can_step(
            shorter[k],
            #[trigger] shorter[k + 1],
        ) by {
            assert(grid.can_step(path[k], path[k + 1]));
        }
        lemma_walk_bounds(grid, shorter);
        let last = path.len() - 1;
        assert(grid.can_step(path[last - 1], path[last - 1 + 1]));
    }
}

/// The Manhattan distance is admissible: it is never negative, and no walk
/// to the goal costs less than the distance from where the walk begins.
pub proof fn lemma_simple_is_admissible(grid: &Grid, goal: Position)
    requires
        grid.wf(),
    ensures
        admissible(grid, &simple, goal),
{
    assert forall|from: Position, path: Seq<Position>, estimate: i32|
        #![trigger grid.connects(path, from, goal), simple.ensures((from, goal), estimate)]
        grid.connects(path, from, goal) && simple.ensures((from, goal), estimate) implies 0
        <= estimate <= path_cost(path) by {
        lemma_walk_bounds(grid, path);
    }
}

} // verus!
