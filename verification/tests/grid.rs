use pathseeker::grid::{Grid, GridError, MAX_CELLS};
use pathseeker::pos::Position;
use pathseeker::tiles::{get_data, resolve_type, MapIndex, TileData, TileType};
use pathseeker::utils::Vec2;

fn striped(width: u32, height: u32) -> Grid {
    let kinds = [
        TileType::Grass,
        TileType::Sand,
        TileType::Rock,
        TileType::ShallowWater,
        TileType::DeepWater,
    ];
    let mut tiles = Vec::new();
    for i in 0..(width * height) as usize {
        tiles.push(kinds[i % kinds.len()]);
    }
    Grid::from_tiles(width, height, tiles).unwrap()
}

#[test]
fn new_grid_is_all_grass() {
    let grid = Grid::new(4, 3).unwrap();
    assert_eq!(grid.width(), 4);
    assert_eq!(grid.height(), 3);
    assert_eq!(grid.len(), 12);
    for i in 0..12 {
        assert_eq!(grid.tile(i), TileType::Grass);
        assert!(grid.is_walkable(&i));
        assert!(grid.is_growable(&i));
        assert!(!grid.is_opaque(i));
    }
    assert_eq!(grid.dimensions(), Position { x: 4, y: 3 });
}

#[test]
fn zero_dimensions_are_refused() {
    assert_eq!(Grid::new(0, 5).err(), Some(GridError::ZeroDimension));
    assert_eq!(Grid::new(5, 0).err(), Some(GridError::ZeroDimension));
    assert_eq!(Grid::new(0, 0).err(), Some(GridError::ZeroDimension));
    assert_eq!(
        Grid::from_tiles(0, 1, Vec::new()).err(),
        Some(GridError::ZeroDimension)
    );
}

#[test]
fn oversized_grids_are_refused() {
    assert_eq!(MAX_CELLS, 2147483647);
    assert_eq!(Grid::new(65536, 32768).err(), Some(GridError::TooLarge));
    assert_eq!(Grid::new(u32::MAX, u32::MAX).err(), Some(GridError::TooLarge));
    assert_eq!(
        Grid::from_tiles(65536, 65536, Vec::new()).err(),
        Some(GridError::TooLarge)
    );
}

#[test]
fn tile_count_must_match() {
    let tiles = vec![TileType::Grass; 5];
    assert_eq!(
        Grid::from_tiles(2, 3, tiles).err(),
        Some(GridError::TileCountMismatch)
    );
    let tiles = vec![TileType::Rock; 6];
    let grid = Grid::from_tiles(2, 3, tiles).unwrap();
    assert_eq!(grid.width(), 2);
    assert_eq!(grid.height(), 3);
    assert_eq!(grid.tile(5), TileType::Rock);
}

#[test]
fn index_and_coordinate_are_inverse() {
    let grid = Grid::new(7, 5).unwrap();
    for y in 0..5 {
        for x in 0..7 {
            let pos = Position::new(x, y);
            assert!(grid.in_bounds(pos));
            let index = grid.coord_to_index(pos);
            assert_eq!(index, (y * 7 + x) as usize);
            assert_eq!(grid.index_to_coord(index), pos);
        }
    }
    for index in 0..35 {
        let pos = grid.index_to_coord(index);
        assert_eq!(grid.coord_to_index(pos), index);
    }
}

#[test]
fn bounds_are_half_open() {
    let grid = Grid::new(7, 5).unwrap();
    assert!(grid.in_bounds(Position::new(0, 0)));
    assert!(grid.in_bounds(Position::new(6, 4)));
    assert!(!grid.in_bounds(Position::new(7, 0)));
    assert!(!grid.in_bounds(Position::new(0, 5)));
    assert!(!grid.in_bounds(Position::new(-1, 0)));
    assert!(!grid.in_bounds(Position::new(0, -1)));
    assert!(!grid.in_bounds(Position::new(i32::MAX, i32::MAX)));
    assert!(!grid.in_bounds(Position::new(i32::MIN, i32::MIN)));
    assert!(grid.index_exist(0));
    assert!(grid.index_exist(34));
    assert!(!grid.index_exist(35));
    assert!(!grid.index_exist(usize::MAX));
}

#[test]
fn attributes_follow_the_terrain() {
    let grid = striped(5, 2);
    assert_eq!(
        grid.attributes_of(0),
        Ok(TileData {
            tile_type: TileType::Grass,
            movement_speed: 100,
            growability: 100,
            moisture: 70,
            brightness: 0
        })
    );
    assert_eq!(grid.attributes_of(1), Ok(get_data(&TileType::Sand)));
    assert_eq!(grid.attributes_of(7), Ok(get_data(&TileType::Rock)));
    assert_eq!(grid.attributes_of(9), Ok(get_data(&TileType::DeepWater)));
    assert_eq!(grid.attributes_of(10), Err(GridError::IndexOutOfRange));
    assert_eq!(grid.attributes_of(usize::MAX), Err(GridError::IndexOutOfRange));
}

#[test]
fn attribute_table() {
    let sand = get_data(&TileType::Sand);
    assert_eq!(sand.tile_type, TileType::Sand);
    assert_eq!(sand.movement_speed, 90);
    assert_eq!(sand.growability, 80);
    assert_eq!(sand.moisture, 50);
    let rock = get_data(&TileType::Rock);
    assert_eq!((rock.movement_speed, rock.growability, rock.moisture), (80, 10, 0));
    let shallow = get_data(&TileType::ShallowWater);
    assert_eq!(
        (shallow.movement_speed, shallow.growability, shallow.moisture),
        (30, 0, 100)
    );
    let deep = get_data(&TileType::DeepWater);
    assert_eq!((deep.movement_speed, deep.growability, deep.moisture), (0, 0, 100));
}

#[test]
fn walkable_growable_opaque() {
    let grid = striped(5, 1);
    let walkable: Vec<bool> = (0..5).map(|i| grid.is_walkable(&i)).collect();
    let growable: Vec<bool> = (0..5).map(|i| grid.is_growable(&i)).collect();
    let opaque: Vec<bool> = (0..5).map(|i| grid.is_opaque(i)).collect();
    assert_eq!(walkable, vec![true, true, true, true, false]);
    assert_eq!(growable, vec![true, true, true, false, false]);
    assert_eq!(opaque, vec![false, false, false, false, true]);
    assert!(TileType::ShallowWater.is_walkable());
    assert!(!TileType::ShallowWater.is_growable());
    assert!(!TileType::DeepWater.is_walkable());
}

#[test]
fn terrain_thresholds() {
    assert_eq!(resolve_type(1000), TileType::Rock);
    assert_eq!(resolve_type(901), TileType::Rock);
    assert_eq!(resolve_type(900), TileType::Grass);
    assert_eq!(resolve_type(201), TileType::Grass);
    assert_eq!(resolve_type(200), TileType::Sand);
    assert_eq!(resolve_type(1), TileType::Sand);
    assert_eq!(resolve_type(0), TileType::ShallowWater);
    assert_eq!(resolve_type(-299), TileType::ShallowWater);
    assert_eq!(resolve_type(-300), TileType::DeepWater);
    assert_eq!(resolve_type(i32::MIN), TileType::DeepWater);
    assert_eq!(resolve_type(i32::MAX), TileType::Rock);
}

#[test]
fn value_conversions() {
    let index = MapIndex::from(7);
    assert_eq!(index, MapIndex(7));
    assert_eq!(usize::from(index), 7);
    let pair = Vec2::new(3, -4);
    assert_eq!(pair.x, 3);
    assert_eq!(pair.y, -4);
    let pos = Position::from(pair);
    assert_eq!(pos, Position { x: 3, y: -4 });
    assert_eq!(Vec2::from(pos), Vec2 { x: 3, y: -4 });
    let words = Vec2::new("a", "b");
    assert_eq!(words.y, "b");
}
