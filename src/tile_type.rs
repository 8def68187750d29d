use vstd::prelude::*;

verus! {

/// The kinds of tile that can be drawn.
#[derive(Debug, Clone, Copy, PartialEq, Eq, Structural)]
pub enum TileType {
    StoneFloor,
    WallFront,
    WallTop,
    Player,
    Undead,
    Rain,
    Splash,
    OpenDoorFront,
    ClosedDoorFront,
    OpenDoorTop,
    ClosedDoorTop,
}

pub const NUM_TILES: usize = 11;

/// The name of a tile type, as written in tile descriptions.
pub open spec fn tile_name(t: TileType) -> &'static str {
    match t {
        TileType::StoneFloor => "StoneFloor",
        TileType::WallFront => "WallFront",
        TileType::WallTop => "WallTop",
        TileType::Player => "Player",
        TileType::Undead => "Undead",
        TileType::Rain => "Rain",
        TileType::Splash => "Splash",
        TileType::OpenDoorFront => "OpenDoorFront",
        TileType::ClosedDoorFront => "ClosedDoorFront",
        TileType::OpenDoorTop => "OpenDoorTop",
        TileType::ClosedDoorTop => "ClosedDoorTop",
    }
}

impl TileType {
    pub fn to_str(self) -> (r: &'static str)
        ensures
            r@ == tile_name(self)@,
    {
        match self {
            TileType::StoneFloor => "StoneFloor",
            TileType::WallFront => "WallFront",
            TileType::WallTop => "WallTop",
            TileType::Player => "Player",
            TileType::Undead => "Undead",
            TileType::Rain => "Rain",
            TileType::Splash => "Splash",
            TileType::OpenDoorFront => "OpenDoorFront",
            TileType::ClosedDoorFront => "ClosedDoorFront",
            TileType::OpenDoorTop => "OpenDoorTop",
            TileType::ClosedDoorTop => "ClosedDoorTop",
        }
    }
}

} // verus!
