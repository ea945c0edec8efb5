use roomgrid::grid::TileGrid;
use roomgrid::power::{compute_charge, Cable, GridInputs, Pos};
use roomgrid::spawner::{load_level, Dir, Piece, Placement};
use roomgrid::tile::{palette_entry, Rgb, Tile, PALETTE_LEN};

const WHITE: Rgb = Rgb { r: 255, g: 255, b: 255 };
const BLACK: Rgb = Rgb { r: 0, g: 0, b: 0 };

fn grid(rows: &[&str]) -> TileGrid {
    let height = rows.len();
    let width = rows[0].len();
    let mut tiles = Vec::new();
    for row in rows {
        for ch in row.chars() {
            tiles.push(match ch {
                '.' => Tile::Floor,
                '#' => Tile::Wall,
                'M' => Tile::ComputerMainframe,
                'e' => Tile::ElevatedFloor,
                'k' => Tile::Crate,
                'x' => Tile::CrossFloorWire,
                'S' => Tile::PowerSource,
                '-' => Tile::FloorWire,
                'o' => Tile::Outlet,
                'L' => Tile::LaserSource,
                'P' => Tile::PlayerStart,
                _ => Tile::Outside,
            });
        }
    }
    TileGrid { width, height, tiles }
}

fn at(plan: &[Placement], x: usize, z: usize) -> Vec<(Piece, u8)> {
    plan.iter().filter(|p| p.x == x && p.z == z).map(|p| (p.piece, p.lift)).collect()
}

#[test]
fn white_room_with_black_corner() {
    let mut pixels = vec![WHITE; 9];
    pixels[0] = BLACK;
    let g = TileGrid::from_pixels(3, 3, &pixels).unwrap();
    let plan = load_level(&g, false);
    let floors = plan.iter().filter(|p| p.piece == Piece::Floor).count();
    assert_eq!(floors, 9);
    for x in 0..3 {
        for z in 0..3 {
            assert!(at(&plan, x, z).contains(&(Piece::Floor, 0)));
        }
    }
    assert_eq!(at(&plan, 0, 0), vec![(Piece::Floor, 0), (Piece::Wall, 0), (Piece::CeilingBlocker, 0)]);
    assert_eq!(plan.len(), 11);
}

fn power_inputs(plan: &[Placement], cables: Vec<Cable>) -> GridInputs {
    let mut inputs = GridInputs { seeds: vec![], sinks: vec![], wires: vec![], cables };
    for p in plan {
        let pos = Pos { x: p.x as i64, y: p.z as i64 };
        match p.piece {
            Piece::PowerSource => inputs.seeds.push(pos),
            Piece::Mainframe { .. } => inputs.sinks.push(pos),
            Piece::FloorWire { .. } | Piece::WallWire { .. } | Piece::Outlet | Piece::Door => inputs.wires.push(pos),
            _ => {}
        }
    }
    inputs
}

fn color_of(t: Tile) -> Rgb {
    (0..PALETTE_LEN).map(palette_entry).find(|e| e.1 == t).unwrap().0
}

#[test]
fn source_wire_outlet_then_a_plugged_gap() {
    let row = [
        Tile::PowerSource,
        Tile::FloorWire,
        Tile::Outlet,
        Tile::Floor,
        Tile::Outlet,
        Tile::FloorWire,
        Tile::ComputerMainframe,
    ];
    let pixels: Vec<Rgb> = row.iter().map(|t| color_of(*t)).collect();
    let g = TileGrid::from_pixels(7, 1, &pixels).unwrap();
    let plan = load_level(&g, false);
    let grid = compute_charge(&power_inputs(&plan, vec![]));
    let on = |x: i64| grid.active.contains(&Pos { x, y: 0 });
    assert!(on(0) && on(1) && on(2));
    assert!(!on(4) && !on(5));
    assert_eq!(grid.sink_charge, vec![false]);
    let cable = Cable { a: Pos { x: 2, y: 0 }, b: Pos { x: 4, y: 0 } };
    let grid = compute_charge(&power_inputs(&plan, vec![cable]));
    assert_eq!(grid.sink_charge, vec![true]);
}

#[test]
fn mainframe_faces_open_floor_away_from_wall() {
    let g = grid(&["###", "#M.", "###"]);
    let plan = load_level(&g, false);
    assert_eq!(at(&plan, 1, 1), vec![(Piece::Floor, 0), (Piece::Mainframe { facing: Dir::PosX }, 0)]);
}

#[test]
fn mainframe_tie_goes_to_last_direction() {
    let g = grid(&["...", ".M.", "..."]);
    let plan = load_level(&g, false);
    assert_eq!(at(&plan, 1, 1), vec![(Piece::Floor, 0), (Piece::Mainframe { facing: Dir::NegZ }, 0)]);
}

#[test]
fn raised_neighbours_lift_floor_and_entity() {
    let g = grid(&[".e.", ".kk", "..."]);
    let plan = load_level(&g, false);
    // Edge neighbour raised: floor and crate both go up.
    assert_eq!(at(&plan, 1, 1), vec![(Piece::Floor, 1), (Piece::Crate, 1)]);
    // Only a corner neighbour raised: the crate goes up, its floor does not.
    assert_eq!(at(&plan, 2, 1), vec![(Piece::Floor, 0), (Piece::Crate, 1)]);
    assert_eq!(at(&plan, 1, 0), vec![(Piece::Floor, 0), (Piece::RaisedBlock, 0)]);
}

#[test]
fn crossing_wires_bridge_plain_floor() {
    let g = grid(&["x..x"]);
    let plan = load_level(&g, false);
    // The bridge is planned with the crossing wire at (0, 0), before the
    // floors of the cells it spans.
    let span = vec![
        (Piece::FloorWire { toward: Dir::NegX }, 0),
        (Piece::FloorWire { toward: Dir::PosX }, 0),
        (Piece::Floor, 0),
    ];
    assert_eq!(at(&plan, 1, 0), span);
    assert_eq!(at(&plan, 2, 0), span);
}

#[test]
fn long_bridge_carries_charge() {
    let g = grid(&["Sx...xo", "......."]);
    let plan = load_level(&g, false);
    for x in 2..5 {
        assert_eq!(
            at(&plan, x, 0),
            vec![
                (Piece::FloorWire { toward: Dir::NegX }, 0),
                (Piece::FloorWire { toward: Dir::PosX }, 0),
                (Piece::Floor, 0),
            ]
        );
    }
    let grid = compute_charge(&power_inputs(&plan, vec![]));
    for x in 0..7 {
        assert!(grid.active.contains(&Pos { x, y: 0 }));
    }
}

#[test]
fn crossing_wire_blocked_by_wall() {
    let g = grid(&["x.#x"]);
    let plan = load_level(&g, false);
    assert_eq!(at(&plan, 1, 0), vec![(Piece::Floor, 0)]);
}

#[test]
fn lasers_point_at_open_floor() {
    let g = grid(&["#.#", "#L.", "###"]);
    let plan = load_level(&g, false);
    assert_eq!(
        at(&plan, 1, 1),
        vec![
            (Piece::Floor, 0),
            (Piece::Wall, 0),
            (Piece::CeilingBlocker, 0),
            (Piece::Laser { facing: Dir::PosX }, 0),
            (Piece::Laser { facing: Dir::NegZ }, 0),
        ]
    );
}

#[test]
fn player_spawns_only_when_asked() {
    let g = grid(&["P"]);
    assert_eq!(load_level(&g, false).len(), 1);
    let plan = load_level(&g, true);
    assert_eq!(at(&plan, 0, 0), vec![(Piece::Floor, 0), (Piece::SpawnPoint, 0), (Piece::Player, 0)]);
}

#[test]
fn outside_spawns_nothing() {
    let g = grid(&["?"]);
    assert!(load_level(&g, false).is_empty());
}
