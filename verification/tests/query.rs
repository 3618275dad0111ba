use bevy_turborand::rng::Rng;
use bevy_turborand::{DelegatedRng, GlobalRng, SeededCore};
use pathseeker::grid::{Grid, GridError};
use pathseeker::query::{pick, sample_uniform, TileQuery};
use pathseeker::tiles::{MapIndex, TileType};

fn generate_map(width: u32, height: u32) -> Grid {
    let kinds = [TileType::Grass, TileType::Sand, TileType::Rock, TileType::ShallowWater];
    let mut tiles = Vec::new();
    for i in 0..(width * height) as usize {
        tiles.push(kinds[(i * 7 + i / 3) % kinds.len()]);
    }
    Grid::from_tiles(width, height, tiles).unwrap()
}

fn mixed() -> Grid {
    // G S R
    // w D G
    // S G D
    let tiles = vec![
        TileType::Grass,
        TileType::Sand,
        TileType::Rock,
        TileType::ShallowWater,
        TileType::DeepWater,
        TileType::Grass,
        TileType::Sand,
        TileType::Grass,
        TileType::DeepWater,
    ];
    Grid::from_tiles(3, 3, tiles).unwrap()
}

#[test]
fn no_invalid_random_points() {
    let mut rng = GlobalRng::new();

    let map = generate_map(8, 8);

    for n in 0..8 * 8 {
        let query = TileQuery {
            distance: Some((50, n)),
            exclude: Some(vec![n]),
            ..TileQuery::default()
        };

        let rand_point = map.rand_from_query(rng.get_mut(), &query).unwrap();
        assert!(map.index_exist(rand_point.unwrap().0));
    }
}

#[test]
fn neighbour_query_filters_default() {
    // The map has the following indexes:
    // 0 1 2
    // 3 4 5
    // 6 7 8

    let map = generate_map(3, 3);

    let result = map.query_neighbours(4, &TileQuery::default()).unwrap();
    // Should fetch all neighbours except self.
    assert!(result.contains(&0));
    assert!(result.contains(&1));
    assert!(result.contains(&2));
    assert!(result.contains(&3));
    assert!(!result.contains(&4));
    assert!(result.contains(&5));
    assert!(result.contains(&6));
    assert!(result.contains(&7));
    assert!(result.contains(&8));
}

#[test]
fn empty_query_matches_every_cell() {
    let map = mixed();
    let query = TileQuery::default();
    assert!(query.walkable.is_none());
    assert!(query.growable.is_none());
    assert!(query.distance.is_none());
    assert!(query.exclude.is_none());
    assert!(query.types.is_none());
    assert_eq!(map.query(&query), Ok(vec![0, 1, 2, 3, 4, 5, 6, 7, 8]));
}

#[test]
fn each_constraint_filters() {
    let map = mixed();
    let walkable = TileQuery { walkable: Some(true), ..TileQuery::default() };
    assert_eq!(map.query(&walkable), Ok(vec![0, 1, 2, 3, 5, 6, 7]));
    let blocked = TileQuery { walkable: Some(false), ..TileQuery::default() };
    assert_eq!(map.query(&blocked), Ok(vec![4, 8]));
    let growable = TileQuery { growable: Some(true), ..TileQuery::default() };
    assert_eq!(map.query(&growable), Ok(vec![0, 1, 2, 5, 6, 7]));
    let barren = TileQuery { growable: Some(false), ..TileQuery::default() };
    assert_eq!(map.query(&barren), Ok(vec![3, 4, 8]));
    let types = TileQuery {
        types: Some(vec![TileType::Sand, TileType::DeepWater]),
        ..TileQuery::default()
    };
    assert_eq!(map.query(&types), Ok(vec![1, 4, 6, 8]));
    let no_types = TileQuery { types: Some(vec![]), ..TileQuery::default() };
    assert_eq!(map.query(&no_types), Ok(vec![]));
    let exclude = TileQuery { exclude: Some(vec![0, 8, 4, 100]), ..TileQuery::default() };
    assert_eq!(map.query(&exclude), Ok(vec![1, 2, 3, 5, 6, 7]));
}

#[test]
fn constraints_combine_by_and() {
    let map = mixed();
    let query = TileQuery {
        walkable: Some(true),
        growable: Some(true),
        distance: Some((15, 4)),
        exclude: Some(vec![7]),
        types: Some(vec![TileType::Grass, TileType::Sand]),
    };
    // Within 1.5 cells of the centre: everything. Grass or sand: 0 1 5 6 7. Not 7.
    assert_eq!(map.query(&query), Ok(vec![0, 1, 5, 6]));
    let nothing = TileQuery {
        walkable: Some(false),
        growable: Some(true),
        ..TileQuery::default()
    };
    assert_eq!(map.query(&nothing), Ok(vec![]));
}

#[test]
fn distance_is_strict_and_straight() {
    let map = Grid::new(5, 5).unwrap();
    // Radius 1.0 around the centre: only the centre itself is closer than one cell.
    let one = TileQuery { distance: Some((10, 12)), ..TileQuery::default() };
    assert_eq!(map.query(&one), Ok(vec![12]));
    // Radius 1.1: the four straight neighbours join.
    let more = TileQuery { distance: Some((11, 12)), ..TileQuery::default() };
    assert_eq!(map.query(&more), Ok(vec![7, 11, 12, 13, 17]));
    // Radius 1.5: the diagonals, at about 1.41, join.
    let diagonal = TileQuery { distance: Some((15, 12)), ..TileQuery::default() };
    assert_eq!(map.query(&diagonal), Ok(vec![6, 7, 8, 11, 12, 13, 16, 17, 18]));
    let zero = TileQuery { distance: Some((0, 12)), ..TileQuery::default() };
    assert_eq!(map.query(&zero), Ok(vec![]));
    let all = TileQuery { distance: Some((u32::MAX, 0)), ..TileQuery::default() };
    assert_eq!(map.query(&all).unwrap().len(), 25);
}

#[test]
fn within_and_pathing_distance_agree() {
    let map = Grid::new(16, 16).unwrap();
    assert_eq!(map.get_pathing_distance(0, 0), 0);
    assert_eq!(map.get_pathing_distance(0, 1), 10);
    assert_eq!(map.get_pathing_distance(0, 17), 14);
    assert_eq!(map.get_pathing_distance(0, 3 + 4 * 16), 50);
    assert_eq!(map.get_pathing_distance(3 + 4 * 16, 0), 50);
    assert_eq!(map.get_pathing_distance(0, 255), 212);
    for a in [0usize, 17, 100, 255] {
        for b in 0..256usize {
            let distance = map.get_pathing_distance(a, b);
            for radius in [0u32, 1, 10, 14, 15, 30, 50, 212, 213, 1000] {
                assert_eq!(map.within(a, b, radius), distance < radius as u64);
            }
        }
    }
}

#[test]
fn radius_five_from_the_corner() {
    let map = Grid::new(16, 16).unwrap();
    let query = TileQuery { distance: Some((50, 0)), ..TileQuery::default() };
    let found = map.query(&query).unwrap();
    assert!(!found.is_empty());
    for index in 0..256usize {
        let x = (index % 16) as f64;
        let y = (index / 16) as f64;
        let distance = (x * x + y * y).sqrt();
        assert_eq!(found.contains(&index), distance < 5.0);
        if found.contains(&index) {
            assert!(distance <= 5.0);
        }
    }
    // (3, 4) lies exactly five cells away and is left out; (4, 2) is inside.
    assert!(!found.contains(&(3 + 4 * 16)));
    assert!(found.contains(&(4 + 2 * 16)));
    assert_eq!(found.len(), 22);
}

#[test]
fn origin_outside_the_grid_is_an_error() {
    let map = mixed();
    let mut rng = Rng::with_seed(1);
    let far = TileQuery { distance: Some((10, 9)), ..TileQuery::default() };
    assert_eq!(map.query(&far), Err(GridError::IndexOutOfRange));
    assert_eq!(map.query_neighbours(4, &far).err(), Some(GridError::IndexOutOfRange));
    assert_eq!(map.rand_from_query(&mut rng, &far), Err(GridError::IndexOutOfRange));
    let fine = TileQuery::default();
    assert_eq!(map.query_neighbours(9, &fine).err(), Some(GridError::IndexOutOfRange));
    assert_eq!(
        map.query_neighbours(usize::MAX, &fine).err(),
        Some(GridError::IndexOutOfRange)
    );
    let edge = TileQuery { distance: Some((10, 8)), ..TileQuery::default() };
    assert_eq!(map.query(&edge), Ok(vec![8]));
}

#[test]
fn neighbour_query_applies_every_constraint() {
    let map = mixed();
    let walkable = TileQuery { walkable: Some(true), ..TileQuery::default() };
    assert_eq!(
        map.query_neighbours(4, &walkable).unwrap().to_vec(),
        vec![3, 5, 1, 7, 0, 6, 2]
    );
    let query = TileQuery {
        walkable: Some(true),
        growable: Some(true),
        distance: Some((11, 4)),
        exclude: Some(vec![1]),
        types: Some(vec![TileType::Grass, TileType::Sand]),
    };
    assert_eq!(map.query_neighbours(4, &query).unwrap().to_vec(), vec![5, 7]);
    let corner = map.query_neighbours(0, &TileQuery::default()).unwrap();
    assert_eq!(corner.to_vec(), vec![1, 3, 4]);
    // The cell itself is never returned, whatever the query admits.
    for index in 0..9 {
        let around = map.query_neighbours(index, &TileQuery::default()).unwrap();
        assert!(!around.contains(&index));
    }
}

#[test]
fn narrower_queries_return_no_more() {
    let map = generate_map(8, 8);
    let wide = TileQuery { walkable: Some(true), ..TileQuery::default() };
    let narrow = TileQuery {
        walkable: Some(true),
        distance: Some((30, 27)),
        ..TileQuery::default()
    };
    let narrower = TileQuery {
        walkable: Some(true),
        distance: Some((30, 27)),
        exclude: Some(vec![27, 28]),
        types: Some(vec![TileType::Grass, TileType::Rock]),
        growable: Some(true),
    };
    let all = map.query(&TileQuery::default()).unwrap();
    let a = map.query(&wide).unwrap();
    let b = map.query(&narrow).unwrap();
    let c = map.query(&narrower).unwrap();
    assert!(all.len() >= a.len() && a.len() >= b.len() && b.len() >= c.len());
    assert!(c.iter().all(|i| b.contains(i)));
    assert!(b.iter().all(|i| a.contains(i)));
    assert!(a.iter().all(|i| all.contains(i)));
    for index in 0..64 {
        let a = map.query_neighbours(index, &wide).unwrap().to_vec();
        let b = map.query_neighbours(index, &narrow).unwrap().to_vec();
        let c = map.query_neighbours(index, &narrower).unwrap().to_vec();
        assert!(a.len() >= b.len() && b.len() >= c.len());
        assert!(c.iter().all(|i| b.contains(i)));
        assert!(b.iter().all(|i| a.contains(i)));
    }
}

#[test]
fn matches_agrees_with_query() {
    let map = mixed();
    let query = TileQuery {
        growable: Some(true),
        exclude: Some(vec![0]),
        ..TileQuery::default()
    };
    let found = map.query(&query).unwrap();
    for index in 0..9 {
        assert_eq!(query.matches(&map, index), found.contains(&index));
    }
    assert_eq!(found, vec![1, 2, 5, 6, 7]);
}

#[test]
fn pick_takes_the_item_at_the_roll() {
    let items = vec![10, 20, 30];
    assert_eq!(pick(&items, 0), Some(10));
    assert_eq!(pick(&items, 2), Some(30));
    assert_eq!(pick(&items, 3), None);
    assert_eq!(pick(&Vec::new(), 0), None);
}

#[test]
fn sampling_an_empty_result_gives_none() {
    let mut rng = Rng::with_seed(7);
    assert_eq!(sample_uniform(&mut rng, &Vec::new()), None);
    let map = mixed();
    let nothing = TileQuery { types: Some(vec![]), ..TileQuery::default() };
    assert_eq!(map.rand_from_query(&mut rng, &nothing), Ok(None));
}

#[test]
fn sampling_returns_members_only() {
    let mut rng = Rng::with_seed(11);
    let items = vec![3, 1, 4, 1, 5];
    for _ in 0..200 {
        let drawn = sample_uniform(&mut rng, &items).unwrap();
        assert!(items.contains(&drawn));
    }
    assert_eq!(sample_uniform(&mut rng, &vec![42]), Some(42));
    let map = mixed();
    let deep = TileQuery { types: Some(vec![TileType::DeepWater]), ..TileQuery::default() };
    for _ in 0..50 {
        let drawn = map.rand_from_query(&mut rng, &deep).unwrap().unwrap();
        assert!(drawn == MapIndex(4) || drawn == MapIndex(8));
    }
}

#[test]
fn sampling_is_roughly_uniform() {
    let mut rng = Rng::with_seed(2024);
    let items = vec![0, 1, 2, 3];
    let mut counts = [0usize; 4];
    let trials = 40_000;
    for _ in 0..trials {
        counts[sample_uniform(&mut rng, &items).unwrap()] += 1;
    }
    for count in counts {
        let share = count as f64 / trials as f64;
        assert!((share - 0.25).abs() < 0.02, "share {}", share);
    }
}
