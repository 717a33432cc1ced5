use mines::{Flag, Tile, TileContent};

#[test]
fn new_tile_is_hidden_safe_and_unmarked() {
    let tile = Tile::new();
    assert!(tile.hidden);
    assert_eq!(tile.content, TileContent::Danger(0));
    assert_eq!(tile.flag, None);
}

#[test]
fn uncover_and_cover() {
    let mut tile = Tile::new();
    tile.uncover();
    assert!(!tile.hidden);
    tile.cover();
    assert!(tile.hidden);
    assert_eq!(tile.content, TileContent::Danger(0));
}

#[test]
fn set_flag_replaces_the_marker() {
    let mut tile = Tile::new();
    tile.set_flag(Some(Flag::Question));
    assert_eq!(tile.flag, Some(Flag::Question));
    tile.set_flag(Some(Flag::Mine));
    assert_eq!(tile.flag, Some(Flag::Mine));
    tile.set_flag(None);
    assert_eq!(tile.flag, None);
    assert!(tile.hidden);
}

#[test]
fn set_as_mine_and_danger_level() {
    let mut tile = Tile::new();
    tile.set_as_mine();
    assert_eq!(tile.content, TileContent::Mine);
    tile.set_danger_level(8);
    assert_eq!(tile.content, TileContent::Danger(8));
    assert!(tile.hidden);
    assert_eq!(tile.flag, None);
}

#[test]
fn reset_brings_the_tile_back() {
    let mut tile = Tile::new();
    tile.uncover();
    tile.set_as_mine();
    tile.set_flag(Some(Flag::Mine));
    tile.reset();
    assert_eq!(tile, Tile::new());
}
