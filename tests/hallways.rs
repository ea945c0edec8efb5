use roomgrid::grid::{Mask, TileGrid, TileKind, tile_mask};
use roomgrid::hallway::{align_shift, fingerprint_cells, get_hallway_junctions, HallwayJunction, Shift, SUBCELLS};
use roomgrid::region::{grow_region, Connectivity};
use roomgrid::tile::Tile;

/// Builds a grid from rows of characters: '.' floor, '#' wall, '1'..'3' hallway shades.
fn grid(rows: &[&str]) -> TileGrid {
    let height = rows.len();
    let width = rows[0].len();
    let mut tiles = Vec::new();
    for row in rows {
        for ch in row.chars() {
            tiles.push(match ch {
                '.' => Tile::Floor,
                '#' => Tile::Wall,
                '1' => Tile::Hallway(1),
                '2' => Tile::Hallway(2),
                '3' => Tile::Hallway(3),
                _ => Tile::Outside,
            });
        }
    }
    TileGrid { width, height, tiles }
}

fn sorted(mut v: Vec<(usize, usize)>) -> Vec<(usize, usize)> {
    v.sort();
    v
}

#[test]
fn single_hallway_region_found_whole() {
    let g = grid(&["#####", "#111#", "#1..#", "#1..#", "#####"]);
    let js = get_hallway_junctions(&g);
    assert_eq!(js.len(), 1);
    assert_eq!(
        sorted(js[0].cells.clone()),
        vec![(1, 1), (1, 2), (1, 3), (2, 1), (3, 1)]
    );
}

#[test]
fn region_same_from_any_seed() {
    let g = grid(&["#####", "#111#", "#1..#", "#1..#", "#####"]);
    let member = tile_mask(&g, TileKind::Hallway);
    let mut all = Vec::new();
    for seed in [(1, 1), (3, 1), (1, 3), (2, 1)] {
        let mut visited = Mask::empty(g.width, g.height);
        let region = grow_region(&member, &mut visited, seed, Connectivity::Four);
        assert_eq!(region[0], seed);
        all.push(sorted(region));
    }
    for r in &all {
        assert_eq!(r, &all[0]);
        assert_eq!(r.len(), 5);
    }
}

#[test]
fn separate_fills_never_share_cells() {
    let g = grid(&["11#11"]);
    let member = tile_mask(&g, TileKind::Hallway);
    let mut visited = Mask::empty(g.width, g.height);
    let a = grow_region(&member, &mut visited, (0, 0), Connectivity::Four);
    let again = grow_region(&member, &mut visited, (1, 0), Connectivity::Four);
    let b = grow_region(&member, &mut visited, (3, 0), Connectivity::Four);
    assert_eq!(sorted(a), vec![(0, 0), (1, 0)]);
    assert!(again.is_empty());
    assert_eq!(sorted(b), vec![(3, 0), (4, 0)]);
}

#[test]
fn two_regions_two_junctions() {
    let g = grid(&["1.3", "1.3"]);
    let js = get_hallway_junctions(&g);
    assert_eq!(js.len(), 2);
    // Buckets 1,1 in (x, y) order give 1*4+1; buckets 3,3 give 3*4+3.
    assert_eq!(js[0].fingerprint, 5);
    assert_eq!(js[1].fingerprint, 15);
}

#[test]
fn fingerprint_value_and_order() {
    // (0,0)=3, (0,1)=1, (1,0)=2 : sorted by (x, y) -> 3, 1, 2 -> ((3*4)+1)*4+2 = 54.
    let g = grid(&["32", "1."]);
    let a = fingerprint_cells(&g, &vec![(0, 0), (0, 1), (1, 0)]);
    let b = fingerprint_cells(&g, &vec![(1, 0), (0, 0), (0, 1)]);
    let c = fingerprint_cells(&g, &vec![(0, 1), (1, 0), (0, 0)]);
    assert_eq!(a, 54);
    assert_eq!(a, b);
    assert_eq!(a, c);
}

#[test]
fn fingerprint_keeps_32_bits() {
    // Seventeen cells of bucket 1: the sum of 4^k for k < 17, cut to 32 bits.
    let g = grid(&["11111111111111111"]);
    let cells: Vec<(usize, usize)> = (0..17).map(|x| (x, 0)).collect();
    let expected = (0..17u32).fold(0u32, |h, _| h.wrapping_mul(4).wrapping_add(1));
    assert_eq!(fingerprint_cells(&g, &cells), expected);
}

fn junction(cells: Vec<(usize, usize)>) -> HallwayJunction {
    let sum_x = cells.iter().map(|c| c.0 as u64).sum();
    let sum_y = cells.iter().map(|c| c.1 as u64).sum();
    HallwayJunction { fingerprint: 0, cells, sum_x, sum_y }
}

#[test]
fn alignment_puts_centroids_together() {
    let old = junction(vec![(5, 2), (5, 3)]);
    let new = junction(vec![(0, 2), (0, 3)]);
    let s = align_shift(Shift { x: 10 * SUBCELLS, z: -3 * SUBCELLS }, &old, &new).unwrap();
    assert_eq!(s, Shift { x: 15 * SUBCELLS, z: -3 * SUBCELLS });
    // World centroid x of both, in sub-cell steps times the cell count.
    assert_eq!(s.x * 2 + SUBCELLS * new.sum_x as i64, 10 * SUBCELLS * 2 + SUBCELLS * old.sum_x as i64);
}

#[test]
fn alignment_handles_other_sizes_and_half_cells() {
    let old = junction(vec![(5, 2), (5, 3)]);
    let three = junction(vec![(0, 2), (0, 3), (0, 4)]);
    // Centroids (5, 2.5) and (0, 3): the shift is (5, -0.5) cells.
    assert_eq!(
        align_shift(Shift { x: 0, z: 0 }, &old, &three),
        Some(Shift { x: 5 * SUBCELLS, z: -SUBCELLS / 2 })
    );
    let diagonal = junction(vec![(0, 0), (1, 0)]);
    // Centroids differ by (4.5, 2.5) cells.
    assert_eq!(
        align_shift(Shift { x: 0, z: 0 }, &old, &diagonal),
        Some(Shift { x: 9 * SUBCELLS / 2, z: 5 * SUBCELLS / 2 })
    );
    let empty = junction(vec![]);
    assert_eq!(align_shift(Shift { x: 0, z: 0 }, &empty, &empty), None);
}

#[test]
fn alignment_rounds_to_nearest_step() {
    // Seventeen cells: a centroid offset of 1/17 cell is not a whole step.
    let old = junction((0..17).map(|x| (x, 0)).collect());
    let mut cells: Vec<(usize, usize)> = (1..17).map(|x| (x, 0)).collect();
    cells.push((0, 1));
    let new = junction(cells);
    let s = align_shift(Shift { x: 0, z: 0 }, &old, &new).unwrap();
    // x sums agree; z: -1/17 cell = -42395.29 steps.
    assert_eq!(s, Shift { x: 0, z: -42395 });
}
