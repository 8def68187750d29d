use veil::tile_type::{TileType, NUM_TILES};

#[test]
fn tile_names() {
    let all = [
        (TileType::StoneFloor, "StoneFloor"),
        (TileType::WallFront, "WallFront"),
        (TileType::WallTop, "WallTop"),
        (TileType::Player, "Player"),
        (TileType::Undead, "Undead"),
        (TileType::Rain, "Rain"),
        (TileType::Splash, "Splash"),
        (TileType::OpenDoorFront, "OpenDoorFront"),
        (TileType::ClosedDoorFront, "ClosedDoorFront"),
        (TileType::OpenDoorTop, "OpenDoorTop"),
        (TileType::ClosedDoorTop, "ClosedDoorTop"),
    ];
    assert_eq!(all.len(), NUM_TILES);
    for &(t, name) in all.iter() {
        assert_eq!(t.to_str(), name);
    }
}
