use roomgrid::grid::TileGrid;
use roomgrid::lines::{spawn_chains, spawn_ziplines};
use roomgrid::tile::Tile;

fn grid(rows: &[&str]) -> TileGrid {
    let height = rows.len();
    let width = rows[0].len();
    let mut tiles = Vec::new();
    for row in rows {
        for ch in row.chars() {
            tiles.push(match ch {
                'z' => Tile::Zipline,
                'w' => Tile::ZiplineOverWell,
                'c' => Tile::Chain,
                'e' => Tile::ElevatedFloor,
                _ => Tile::Floor,
            });
        }
    }
    TileGrid { width, height, tiles }
}

#[test]
fn zipline_laid_out_from_an_end() {
    let g = grid(&["zzwz", "...."]);
    let lines = spawn_ziplines(&g);
    assert_eq!(lines.len(), 1);
    assert_eq!(lines[0].cells, vec![(0, 0), (1, 0), (2, 0), (3, 0)]);
    assert_eq!(lines[0].lifts, vec![0, 0, 0, 0]);
}

#[test]
fn zipline_diagonal_steps_and_lifts() {
    let g = grid(&["z...", ".z.e", "..z."]);
    let lines = spawn_ziplines(&g);
    assert_eq!(lines.len(), 1);
    assert_eq!(lines[0].cells, vec![(0, 0), (1, 1), (2, 2)]);
    // The last node sits next to elevated floor at (3, 1).
    assert_eq!(lines[0].lifts, vec![0, 0, 1]);
}

#[test]
fn zipline_loop_has_no_end() {
    let g = grid(&["zz", "zz"]);
    assert!(spawn_ziplines(&g).is_empty());
}

#[test]
fn chains_split_into_components() {
    let g = grid(&["ccc.c", "....c"]);
    let chains = spawn_chains(&g);
    assert_eq!(chains.len(), 2);
    assert_eq!(chains[0].cells.len(), 3);
    assert_eq!(chains[0].links.len(), 2);
    let ends = chains[0].ends.unwrap();
    let mut end_cells = vec![chains[0].cells[ends.0], chains[0].cells[ends.1]];
    end_cells.sort();
    assert_eq!(end_cells, vec![(0, 0), (2, 0)]);
    assert_eq!(chains[1].cells.len(), 2);
    assert_eq!(chains[1].links.len(), 1);
    assert!(chains[1].ends.is_some());
}

#[test]
fn chain_links_join_neighbours() {
    let g = grid(&["cc", "c."]);
    let chains = spawn_chains(&g);
    assert_eq!(chains.len(), 1);
    let c = &chains[0];
    for &(i, j) in &c.links {
        let (a, b) = (c.cells[i], c.cells[j]);
        assert!((b.0 == a.0 && b.1 == a.1 + 1) || (b.0 == a.0 + 1 && b.1 == a.1));
    }
    assert_eq!(c.links.len(), 2);
}

#[test]
fn single_chain_cell_has_no_plug_pair() {
    let g = grid(&["c."]);
    let chains = spawn_chains(&g);
    assert_eq!(chains.len(), 1);
    assert_eq!(chains[0].ends, None);
    assert!(chains[0].links.is_empty());
}

#[test]
fn branching_chain_has_no_plug_pair() {
    let g = grid(&[".c.", "ccc"]);
    let chains = spawn_chains(&g);
    assert_eq!(chains.len(), 1);
    assert_eq!(chains[0].ends, None);
    assert_eq!(chains[0].links.len(), 3);
}
