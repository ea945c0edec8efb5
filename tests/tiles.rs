use roomgrid::grid::TileGrid;
use roomgrid::tile::{color_to_tile, is_electrical, palette_entry, Rgb, Tile, PALETTE_LEN};

fn rgb(r: u8, g: u8, b: u8) -> Rgb {
    Rgb { r, g, b }
}

#[test]
fn palette_colors_select_their_tiles() {
    for i in 0..PALETTE_LEN {
        let (color, tile) = palette_entry(i);
        assert_eq!(color_to_tile(color), Some(tile));
    }
}

#[test]
fn drifted_colors_still_classify() {
    assert_eq!(color_to_tile(rgb(250, 250, 250)), Some(Tile::Floor));
    assert_eq!(color_to_tile(rgb(10, 10, 10)), Some(Tile::Wall));
    assert_eq!(color_to_tile(rgb(127, 127, 127)), Some(Tile::Hallway(1)));
    assert_eq!(color_to_tile(rgb(160, 158, 159)), Some(Tile::Hallway(2)));
    assert_eq!(color_to_tile(rgb(190, 192, 191)), Some(Tile::Hallway(3)));
}

#[test]
fn unknown_colors_are_rejected() {
    // 20 steps off black on every channel is about 34.6 steps away: too far.
    assert_eq!(color_to_tile(rgb(20, 20, 20)), None);
    assert_eq!(color_to_tile(rgb(40, 200, 120)), None);
}

#[test]
fn tolerance_edge() {
    // 25 steps on one channel is inside the 25.5-step tolerance, 26 is not.
    assert_eq!(color_to_tile(rgb(25, 0, 0)), Some(Tile::Wall));
    assert_eq!(color_to_tile(rgb(26, 0, 0)), None);
}

#[test]
fn equidistant_color_outside_tolerance() {
    // Halfway between the two lighter hallway greys: a tie, and too far from both.
    assert_eq!(color_to_tile(rgb(175, 175, 175)), None);
}

#[test]
fn electrical_tiles() {
    assert!(is_electrical(&Tile::Outlet));
    assert!(is_electrical(&Tile::Door));
    assert!(is_electrical(&Tile::Zappy));
    assert!(!is_electrical(&Tile::Floor));
    assert!(!is_electrical(&Tile::Wall));
}

#[test]
fn decode_rejects_wrong_pixel_count() {
    let pixels = vec![rgb(255, 255, 255); 5];
    assert!(TileGrid::from_pixels(2, 3, &pixels).is_none());
}

#[test]
fn decode_maps_unknown_to_outside_and_edges_to_outside() {
    let pixels = vec![rgb(255, 255, 255), rgb(40, 200, 120), rgb(0, 0, 0), rgb(0, 255, 0)];
    let g = TileGrid::from_pixels(2, 2, &pixels).unwrap();
    assert_eq!(g.tile_at(0, 0), Tile::Floor);
    assert_eq!(g.tile_at(1, 0), Tile::Outside);
    assert_eq!(g.tile_at(0, 1), Tile::Wall);
    assert_eq!(g.tile_at(1, 1), Tile::ComputerMainframe);
    assert_eq!(g.tile_at(-1, 0), Tile::Outside);
    assert_eq!(g.tile_at(2, 1), Tile::Outside);
}

#[test]
fn nearest_entry_wins_when_two_are_close() {
    // Within tolerance of both wire colors; closer to the wall wire.
    assert_eq!(color_to_tile(rgb(58, 120, 124)), Some(Tile::WallWire));
    assert_eq!(color_to_tile(rgb(60, 124, 118)), Some(Tile::FloorWire));
}

#[test]
fn hallway_bucket_follows_red_channel() {
    let pixels = vec![rgb(145, 128, 128), rgb(142, 128, 128), rgb(176, 180, 180), rgb(128, 128, 128)];
    let g = TileGrid::from_pixels(4, 1, &pixels).unwrap();
    assert_eq!(g.tile_at(0, 0), Tile::Hallway(2));
    assert_eq!(g.tile_at(1, 0), Tile::Hallway(1));
    assert_eq!(g.tile_at(2, 0), Tile::Hallway(3));
    assert_eq!(g.tile_at(3, 0), Tile::Hallway(1));
}
