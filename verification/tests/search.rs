use pathseeker::astar::{simple, AStar};
use pathseeker::frontier::{Frontier, State};
use pathseeker::grid::{Grid, GridError};
use pathseeker::pos::Position;
use pathseeker::render::{render_map, EMPTY_SYMBOL, GOAL_SYMBOL, PATH_SYMBOL, START_SYMBOL};
use pathseeker::tiles::TileType;
use std::collections::HashMap;

fn print_map(map: &Grid, path: Vec<Position>, start: Position, goal: Position) {
    let output: String = render_map(map, &path, start, goal).into_iter().collect();
    println!("{}", output);
}

fn from_rows(rows: &[&str]) -> Grid {
    let height = rows.len() as u32;
    let width = rows[0].len() as u32;
    let mut tiles = Vec::new();
    for row in rows {
        for symbol in row.chars() {
            tiles.push(match symbol {
                '#' => TileType::DeepWater,
                's' => TileType::Sand,
                _ => TileType::Grass,
            });
        }
    }
    Grid::from_tiles(width, height, tiles).unwrap()
}

fn cost_of(path: &[Position]) -> i64 {
    let mut total = 0;
    for pair in path.windows(2) {
        let dx = (pair[1].x - pair[0].x).abs();
        let dy = (pair[1].y - pair[0].y).abs();
        assert!(dx <= 1 && dy <= 1 && dx + dy > 0);
        total += if dx + dy == 2 { 14 } else { 10 };
    }
    total
}

fn is_walk(map: &Grid, path: &[Position], start: Position, goal: Position) -> bool {
    if path.is_empty() || path[0] != start || path[path.len() - 1] != goal {
        return false;
    }
    if !map.in_bounds(path[0]) {
        return false;
    }
    path.windows(2).all(|pair| {
        let dx = (pair[1].x - pair[0].x).abs();
        let dy = (pair[1].y - pair[0].y).abs();
        dx <= 1
            && dy <= 1
            && dx + dy > 0
            && map.in_bounds(pair[1])
            && !map.is_opaque(map.coord_to_index(pair[1]))
    })
}

/// Cheapest cost from `start` to every cell, by plain relaxation to a fixed point.
fn cheapest(map: &Grid, start: Position) -> Vec<Option<i64>> {
    let mut best: Vec<Option<i64>> = vec![None; map.len()];
    best[map.coord_to_index(start)] = Some(0);
    let mut changed = true;
    while changed {
        changed = false;
        for index in 0..map.len() {
            if let Some(here) = best[index] {
                for (to, cost) in map.get_available_exits(index).to_vec() {
                    let through = here + cost as i64;
                    if best[to].map_or(true, |known| through < known) {
                        best[to] = Some(through);
                        changed = true;
                    }
                }
            }
        }
    }
    best
}

fn zero(_: Position, _: Position) -> i32 {
    0
}

fn octile(a: Position, b: Position) -> i32 {
    let dx = (a.x - b.x).abs();
    let dy = (a.y - b.y).abs();
    let (long, short) = if dx > dy { (dx, dy) } else { (dy, dx) };
    14 * short + 10 * (long - short)
}

// ===================
// | S . . . . . . . |
// | . . . . . . . . |
// | . . . . . . . . |
// | . . . . . . . . |
// | . . . . . . . . |
// | . . . . . . . . |
// | . . . . . . . . |
// | . . . . . . . F |
// ===================

#[test]
fn testing() {
    let map: Grid = Grid::new(16, 16).unwrap();
    let start = Position { x: 0, y: 0 };
    let goal = Position { x: 15, y: 15 };
    let result = AStar::search(&map, start, goal, simple).unwrap();

    assert!(result.is_some());
    if let Some(path) = result {
        assert!(path.len() > 0);

        print_map(&map, path, start, goal);
    }
}

#[test]
fn open_grid_is_crossed_along_the_diagonal() {
    let map = Grid::new(16, 16).unwrap();
    let start = map.index_to_coord(0);
    let goal = map.index_to_coord(255);
    let path = AStar::search(&map, start, goal, simple).unwrap().unwrap();
    assert_eq!(path.len(), 16);
    assert_eq!(cost_of(&path), 15 * 14);
    for (k, position) in path.iter().enumerate() {
        assert_eq!(*position, Position { x: k as i32, y: k as i32 });
    }
}

#[test]
fn start_equal_to_goal_gives_a_single_cell() {
    let map = from_rows(&["..#", ".#.", "..."]);
    for index in 0..9 {
        let here = map.index_to_coord(index);
        assert_eq!(AStar::search(&map, here, here, simple), Ok(Some(vec![here])));
    }
}

#[test]
fn positions_outside_the_grid_are_refused() {
    let map = Grid::new(4, 4).unwrap();
    let inside = Position { x: 1, y: 1 };
    for outside in [
        Position { x: -1, y: 0 },
        Position { x: 0, y: -1 },
        Position { x: 4, y: 0 },
        Position { x: 0, y: 4 },
        Position { x: i32::MAX, y: i32::MIN },
    ] {
        assert_eq!(AStar::search(&map, outside, inside, simple), Err(GridError::OutOfBounds));
        assert_eq!(AStar::search(&map, inside, outside, simple), Err(GridError::OutOfBounds));
        assert_eq!(AStar::search(&map, outside, outside, simple), Err(GridError::OutOfBounds));
    }
}

#[test]
fn enclosed_goal_is_not_found() {
    let map = from_rows(&[
        ".....",
        ".###.",
        ".#.#.",
        ".###.",
        ".....",
    ]);
    let start = Position { x: 0, y: 0 };
    let goal = Position { x: 2, y: 2 };
    assert_eq!(AStar::search(&map, start, goal, simple), Ok(None));
    assert_eq!(AStar::search(&map, start, goal, zero), Ok(None));
    // From inside the ring nothing outside can be reached either.
    assert_eq!(AStar::search(&map, goal, start, simple), Ok(None));
}

#[test]
fn opaque_goal_is_not_found() {
    let map = from_rows(&[
        ".....",
        ".###.",
        ".###.",
        ".###.",
        ".....",
    ]);
    let start = Position { x: 0, y: 0 };
    let goal = Position { x: 2, y: 2 };
    assert_eq!(AStar::search(&map, start, goal, simple), Ok(None));
    let edge = Position { x: 1, y: 1 };
    assert_eq!(AStar::search(&map, start, edge, simple), Ok(None));
}

#[test]
fn enclosed_goal_is_reached_from_next_to_it() {
    let map = from_rows(&["###", "#.#", "###"]);
    let start = Position { x: 0, y: 0 };
    let goal = Position { x: 1, y: 1 };
    assert_eq!(AStar::search(&map, start, goal, simple), Ok(Some(vec![start, goal])));
}

#[test]
fn opaque_start_can_be_left() {
    let map = from_rows(&["#..", "...", "..."]);
    let start = Position { x: 0, y: 0 };
    let goal = Position { x: 2, y: 2 };
    let path = AStar::search(&map, start, goal, simple).unwrap().unwrap();
    assert_eq!(path, vec![start, Position { x: 1, y: 1 }, goal]);
}

#[test]
fn walls_are_walked_around() {
    let map = from_rows(&[
        "...#....",
        "...#....",
        "...#....",
        "...#....",
        "........",
    ]);
    let start = Position { x: 0, y: 0 };
    let goal = Position { x: 7, y: 0 };
    let path = AStar::search(&map, start, goal, octile).unwrap().unwrap();
    assert!(is_walk(&map, &path, start, goal));
    // Down to the gap in row 4 (three diagonals and one straight step) and
    // up again on the other side (four diagonals).
    let best = cheapest(&map, start)[map.coord_to_index(goal)].unwrap();
    assert_eq!(cost_of(&path), best);
    assert_eq!(best, 3 * 14 + 10 + 4 * 14);
    assert_eq!(path.len(), 9);
}

#[test]
fn admissible_heuristics_give_cheapest_paths() {
    let maps = [
        from_rows(&["....", "....", "....", "...."]),
        from_rows(&[".#..", ".#.#", "...#", "##.."]),
        from_rows(&["......", ".####.", ".#..#.", ".#.##.", ".#....", ".####."]),
        from_rows(&[".#.#.#.", ".......", "#.#.#.#", "......."]),
        from_rows(&["."]),
        from_rows(&["...#..."]),
    ];
    for map in maps.iter() {
        for from in 0..map.len() {
            let start = map.index_to_coord(from);
            let best = cheapest(map, start);
            for to in 0..map.len() {
                let goal = map.index_to_coord(to);
                for heuristic in [zero, simple, octile] {
                    let found = AStar::search(map, start, goal, heuristic).unwrap();
                    match (found, best[to]) {
                        (Some(path), Some(cost)) => {
                            assert!(is_walk(map, &path, start, goal));
                            assert_eq!(cost_of(&path), cost);
                        }
                        (None, None) => {}
                        (found, best) => panic!("{:?} against {:?}", found, best),
                    }
                }
            }
        }
    }
}

#[test]
fn any_heuristic_still_gives_a_walk() {
    fn wild(a: Position, b: Position) -> i32 {
        (a.x * 7919 + a.y * 104729 + b.x) % 1000 - 500
    }
    fn huge(_: Position, _: Position) -> i32 {
        i32::MAX
    }
    fn tiny(_: Position, _: Position) -> i32 {
        i32::MIN
    }
    let map = from_rows(&["..#...", ".##.#.", "....#.", ".#.##.", ".#...."]);
    for from in 0..map.len() {
        let start = map.index_to_coord(from);
        let best = cheapest(&map, start);
        for to in 0..map.len() {
            let goal = map.index_to_coord(to);
            for heuristic in [wild, huge, tiny] {
                let found = AStar::search(&map, start, goal, heuristic).unwrap();
                assert_eq!(found.is_some(), best[to].is_some());
                if let Some(path) = found {
                    assert!(is_walk(&map, &path, start, goal));
                }
            }
        }
    }
}

#[test]
fn closures_can_serve_as_heuristics() {
    let map = Grid::new(6, 6).unwrap();
    let scale = 10;
    let heuristic = |a: Position, b: Position| {
        scale * std::cmp::max((a.x - b.x).abs(), (a.y - b.y).abs())
    };
    let start = Position { x: 5, y: 0 };
    let goal = Position { x: 0, y: 3 };
    let path = AStar::search(&map, start, goal, heuristic).unwrap().unwrap();
    assert_eq!(cost_of(&path), 3 * 14 + 2 * 10);
    assert_eq!(path.len(), 6);
}

#[test]
fn manhattan_distance() {
    let at = |x: i32, y: i32| Position { x, y };
    assert_eq!(simple(at(0, 0), at(0, 0)), 0);
    assert_eq!(simple(at(0, 0), at(15, 15)), 30);
    assert_eq!(simple(at(15, 15), at(0, 0)), 30);
    assert_eq!(simple(at(-3, 4), at(2, -1)), 10);
    assert_eq!(simple(at(i32::MIN, 0), at(i32::MAX, 0)), i32::MAX);
    assert_eq!(simple(at(i32::MAX, i32::MAX), at(i32::MIN, i32::MIN)), i32::MAX);
    assert_eq!(simple(at(0, 0), at(i32::MAX, 0)), i32::MAX);
    assert_eq!(simple(at(0, 0), at(i32::MAX - 1, 0)), i32::MAX - 1);
}

#[test]
fn construct_path_walks_back_to_the_start() {
    let mut history = HashMap::new();
    history.insert(0usize, 0usize);
    history.insert(5, 0);
    history.insert(9, 5);
    history.insert(2, 9);
    history.insert(7, 7);
    assert_eq!(AStar::construct_path(&history, 2, 0), vec![0, 5, 9, 2]);
    assert_eq!(AStar::construct_path(&history, 9, 5), vec![5, 9]);
    assert_eq!(AStar::construct_path(&history, 0, 0), vec![0]);
    assert_eq!(AStar::construct_path(&history, 3, 3), vec![3]);
}

#[test]
fn frontier_hands_out_the_cheapest_first() {
    let mut frontier = Frontier::new();
    assert_eq!(frontier.len(), 0);
    assert_eq!(frontier.pop(), None);
    let costs = [5i64, 3, 8, 1, 9, 2, 7, 3, -4, 0, 6, i64::MAX, i64::MIN];
    for (position, cost) in costs.iter().enumerate() {
        frontier.push(State { position, cost: *cost });
    }
    assert_eq!(frontier.len(), costs.len());
    let mut out = Vec::new();
    while let Some(state) = frontier.pop() {
        assert_eq!(costs[state.position], state.cost);
        out.push(state.cost);
    }
    let mut sorted = costs.to_vec();
    sorted.sort();
    assert_eq!(out, sorted);
    assert_eq!(frontier.len(), 0);
    assert_eq!(frontier.pop(), None);
}

#[test]
fn frontier_keeps_duplicates() {
    let mut frontier = Frontier::new();
    let entry = State { position: 4, cost: 2 };
    frontier.push(entry);
    frontier.push(entry);
    frontier.push(State { position: 1, cost: 2 });
    assert_eq!(frontier.len(), 3);
    let mut seen = Vec::new();
    while let Some(state) = frontier.pop() {
        seen.push(state.position);
    }
    seen.sort();
    assert_eq!(seen, vec![1, 4, 4]);
}

#[test]
fn picture_of_a_path() {
    let map = Grid::new(3, 2).unwrap();
    let start = Position { x: 0, y: 0 };
    let goal = Position { x: 2, y: 1 };
    let path = vec![start, Position { x: 1, y: 1 }, goal];
    let picture: String = render_map(&map, &path, start, goal).into_iter().collect();
    assert_eq!(picture, "\u{2295}\u{25ab}\u{25ab}\n\u{25ab}\u{25c6}\u{25ce}\n");
    assert_eq!(
        (START_SYMBOL, GOAL_SYMBOL, PATH_SYMBOL, EMPTY_SYMBOL),
        ('\u{2295}', '\u{25ce}', '\u{25c6}', '\u{25ab}')
    );
    let empty: String = render_map(&map, &Vec::new(), goal, goal).into_iter().collect();
    assert_eq!(empty, "\u{25ab}\u{25ab}\u{25ab}\n\u{25ab}\u{25ab}\u{2295}\n");
}
