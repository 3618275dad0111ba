//! Terrain classes and the fixed attributes of each class.

use vstd::prelude::*;
use vstd::std_specs::convert::FromSpecImpl;

verus! {

/// The closed set of terrain classes a cell can have.
#[derive(Copy, Clone, Debug, PartialEq, Eq, Structural)]
pub enum TileType {
    Grass,
    Sand,
    Rock,
    ShallowWater,
    DeepWater,
}

/// The attributes of a terrain class. Every rate is a percentage.
#[derive(Copy, Clone, Debug, PartialEq, Eq, Structural)]
pub struct TileData {
    pub tile_type: TileType,
    /// Base movement speed on this tile; zero means the tile cannot be entered.
    pub movement_speed: u8,
    /// How fast flora grows on this tile; zero means nothing grows.
    pub growability: u8,
    /// How wet this tile is.
    pub moisture: u8,
    /// How much light this tile receives.
    pub brightness: u8,
}

/// Marks where on the map an entity is located.
#[derive(Copy, Clone, Debug, PartialEq, Eq, Structural)]
pub struct MapIndex(pub usize);

impl From<usize> for MapIndex {
    fn from(value: usize) -> (index: Self) {
        MapIndex(value)
    }
}

impl FromSpecImpl<usize> for MapIndex {
    open spec fn obeys_from_spec() -> bool {
        true
    }

    open spec fn from_spec(value: usize) -> Self {
        MapIndex(value)
    }
}

impl From<MapIndex> for usize {
    fn from(value: MapIndex) -> (index: Self) {
        value.0
    }
}

impl FromSpecImpl<MapIndex> for usize {
    open spec fn obeys_from_spec() -> bool {
        true
    }

    open spec fn from_spec(value: MapIndex) -> Self {
        value.0
    }
}

/// The attribute table: what each terrain class stands for.
pub open spec fn tile_data(tile_type: TileType) -> TileData {
    match tile_type {
        TileType::Grass => TileData {
            tile_type: TileType::Grass,
            movement_speed: 100,
            growability: 100,
            moisture: 70,
            brightness: 0,
        },
        TileType::Sand => TileData {
            tile_type: TileType::Sand,
            movement_speed: 90,
            growability: 80,
            moisture: 50,
            brightness: 0,
        },
        TileType::Rock => TileData {
            tile_type: TileType::Rock,
            movement_speed: 80,
            growability: 10,
            moisture: 0,
            brightness: 0,
        },
        TileType::ShallowWater => TileData {
            tile_type: TileType::ShallowWater,
            movement_speed: 30,
            growability: 0,
            moisture: 100,
            brightness: 0,
        },
        TileType::DeepWater => TileData {
            tile_type: TileType::DeepWater,
            movement_speed: 0,
            growability: 0,
            moisture: 100,
            brightness: 0,
        },
    }
}

/// A terrain class is walkable when something can move on it at all.
pub open spec fn walkable(tile_type: TileType) -> bool {
    tile_data(tile_type).movement_speed > 0
}

/// A terrain class is growable when flora can grow on it at all.
pub open spec fn growable(tile_type: TileType) -> bool {
    tile_data(tile_type).growability > 0
}

/// The terrain class of a height sample given in thousandths: above 900 rock,
/// above 200 grass, above 0 sand, above -300 shallow water, deep water below.
pub open spec fn terrain_of(value: int) -> TileType {
    if value > 900 {
        TileType::Rock
    } else if value > 200 {
        TileType::Grass
    } else if value > 0 {
        TileType::Sand
    } else if value > -300 {
        TileType::ShallowWater
    } else {
        TileType::DeepWater
    }
}

/// Looks up the attributes of a terrain class.
pub fn get_data(tile_type: &TileType) -> (data: TileData)
    ensures
        data == tile_data(*tile_type),
{
    match tile_type {
        TileType::Grass => TileData {
            tile_type: TileType::Grass,
            movement_speed: 100,
            growability: 100,
            moisture: 70,
            brightness: 0,
        },
        TileType::Sand => TileData {
            tile_type: TileType::Sand,
            movement_speed: 90,
            growability: 80,
            moisture: 50,
            brightness: 0,
        },
        TileType::Rock => TileData {
            tile_type: TileType::Rock,
            movement_speed: 80,
            growability: 10,
            moisture: 0,
            brightness: 0,
        },
        TileType::ShallowWater => TileData {
            tile_type: TileType::ShallowWater,
            movement_speed: 30,
            growability: 0,
            moisture: 100,
            brightness: 0,
        },
        TileType::DeepWater => TileData {
            tile_type: TileType::DeepWater,
            movement_speed: 0,
            growability: 0,
            moisture: 100,
            brightness: 0,
        },
    }
}

/// Classifies a height sample, given in thousandths, as terrain.
pub fn resolve_type(value: i32) -> (tile_type: TileType)
    ensures
        tile_type == terrain_of(value as int),
{
    if value > 900 {
        TileType::Rock
    } else if value > 200 {
        TileType::Grass
    } else if value > 0 {
        TileType::Sand
    } else if value > -300 {
        TileType::ShallowWater
    } else {
        TileType::DeepWater
    }
}

impl TileType {
    /// Whether something can move on this terrain.
    pub fn is_walkable(&self) -> (r: bool)
        ensures
            r == walkable(*self),
    {
        get_data(self).movement_speed > 0
    }

    /// Whether flora can grow on this terrain.
    pub fn is_growable(&self) -> (r: bool)
        ensures
            r == growable(*self),
    {
        get_data(self).growability > 0
    }
}

/// Two samples of one terrain class always carry the same attributes, and
/// the attributes name the class they belong to.
pub proof fn lemma_attributes_follow_class(a: TileType, b: TileType)
    ensures
        a == b ==> tile_data(a) == tile_data(b),
        tile_data(a).tile_type == a,
        walkable(a) <==> a != TileType::DeepWater,
        growable(a) <==> (a == TileType::Grass || a == TileType::Sand || a == TileType::Rock),
{
}

} // verus!
