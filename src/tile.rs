//! Tile kinds and the color palette that selects them.
use vstd::prelude::*;

verus! {

/// A pixel color in linear space, one byte per channel.
#[derive(Clone, Copy, Debug, PartialEq, Eq, Hash, Structural)]
pub struct Rgb {
    pub r: u8,
    pub g: u8,
    pub b: u8,
}

/// The semantic kind of one grid cell.
///
/// `Hallway` carries its luminance bucket: 1 for the darkest hallway grey,
/// 3 for the lightest.
#[derive(Clone, Copy, Debug, PartialEq, Eq, Hash, Structural)]
pub enum Tile {
    Floor,
    ElevatedFloor,
    Ramp,
    Hallway(u8),
    Wall,
    ComputerMainframe,
    Outside,
    Zappy,
    Well,
    Door,
    Crate,
    LaserSource,
    PlayerStart,
    SpawnPoint,
    Zipline,
    ZiplineOverWell,
    Chain,
    Outlet,
    PowerSource,
    FloorWire,
    CrossFloorWire,
    WallWire,
}

/// Number of entries in the palette.
pub const PALETTE_LEN: usize = 24;

/// The palette, in priority order: on equal distance the earlier entry wins.
pub open spec fn palette(i: int) -> (Rgb, Tile) {
    if i == 0 {
        (Rgb { r: 255, g: 255, b: 255 }, Tile::Floor)
    } else if i == 1 {
        (Rgb { r: 128, g: 191, b: 255 }, Tile::ElevatedFloor)
    } else if i == 2 {
        (Rgb { r: 186, g: 221, b: 255 }, Tile::Ramp)
    } else if i == 3 {
        (Rgb { r: 191, g: 191, b: 191 }, Tile::Hallway(3))
    } else if i == 4 {
        (Rgb { r: 159, g: 159, b: 159 }, Tile::Hallway(2))
    } else if i == 5 {
        (Rgb { r: 128, g: 128, b: 128 }, Tile::Hallway(1))
    } else if i == 6 {
        (Rgb { r: 0, g: 0, b: 0 }, Tile::Wall)
    } else if i == 7 {
        (Rgb { r: 0, g: 255, b: 0 }, Tile::ComputerMainframe)
    } else if i == 8 {
        (Rgb { r: 128, g: 128, b: 213 }, Tile::Outside)
    } else if i == 9 {
        (Rgb { r: 0, g: 0, b: 255 }, Tile::Zappy)
    } else if i == 10 {
        (Rgb { r: 64, g: 64, b: 64 }, Tile::Well)
    } else if i == 11 {
        (Rgb { r: 128, g: 0, b: 255 }, Tile::Door)
    } else if i == 12 {
        (Rgb { r: 255, g: 128, b: 0 }, Tile::Crate)
    } else if i == 13 {
        (Rgb { r: 255, g: 128, b: 128 }, Tile::LaserSource)
    } else if i == 14 {
        (Rgb { r: 255, g: 0, b: 0 }, Tile::PlayerStart)
    } else if i == 15 {
        (Rgb { r: 255, g: 255, b: 0 }, Tile::SpawnPoint)
    } else if i == 16 {
        (Rgb { r: 255, g: 0, b: 255 }, Tile::Zipline)
    } else if i == 17 {
        (Rgb { r: 128, g: 0, b: 128 }, Tile::ZiplineOverWell)
    } else if i == 18 {
        (Rgb { r: 159, g: 113, b: 62 }, Tile::Chain)
    } else if i == 19 {
        (Rgb { r: 158, g: 86, b: 158 }, Tile::Outlet)
    } else if i == 20 {
        (Rgb { r: 128, g: 255, b: 221 }, Tile::PowerSource)
    } else if i == 21 {
        (Rgb { r: 66, g: 130, b: 111 }, Tile::FloorWire)
    } else if i == 22 {
        (Rgb { r: 143, g: 178, b: 111 }, Tile::CrossFloorWire)
    } else {
        (Rgb { r: 51, g: 109, b: 136 }, Tile::WallWire)
    }
}

/// Returns palette entry `i`.
pub fn palette_entry(i: usize) -> (r: (Rgb, Tile))
    requires
        i < PALETTE_LEN,
    ensures
        r == palette(i as int),
{
    match i {
        0 => (Rgb { r: 255, g: 255, b: 255 }, Tile::Floor),
        1 => (Rgb { r: 128, g: 191, b: 255 }, Tile::ElevatedFloor),
        2 => (Rgb { r: 186, g: 221, b: 255 }, Tile::Ramp),
        3 => (Rgb { r: 191, g: 191, b: 191 }, Tile::Hallway(3)),
        4 => (Rgb { r: 159, g: 159, b: 159 }, Tile::Hallway(2)),
        5 => (Rgb { r: 128, g: 128, b: 128 }, Tile::Hallway(1)),
        6 => (Rgb { r: 0, g: 0, b: 0 }, Tile::Wall),
        7 => (Rgb { r: 0, g: 255, b: 0 }, Tile::ComputerMainframe),
        8 => (Rgb { r: 128, g: 128, b: 213 }, Tile::Outside),
        9 => (Rgb { r: 0, g: 0, b: 255 }, Tile::Zappy),
        10 => (Rgb { r: 64, g: 64, b: 64 }, Tile::Well),
        11 => (Rgb { r: 128, g: 0, b: 255 }, Tile::Door),
        12 => (Rgb { r: 255, g: 128, b: 0 }, Tile::Crate),
        13 => (Rgb { r: 255, g: 128, b: 128 }, Tile::LaserSource),
        14 => (Rgb { r: 255, g: 0, b: 0 }, Tile::PlayerStart),
        15 => (Rgb { r: 255, g: 255, b: 0 }, Tile::SpawnPoint),
        16 => (Rgb { r: 255, g: 0, b: 255 }, Tile::Zipline),
        17 => (Rgb { r: 128, g: 0, b: 128 }, Tile::ZiplineOverWell),
        18 => (Rgb { r: 159, g: 113, b: 62 }, Tile::Chain),
        19 => (Rgb { r: 158, g: 86, b: 158 }, Tile::Outlet),
        20 => (Rgb { r: 128, g: 255, b: 221 }, Tile::PowerSource),
        21 => (Rgb { r: 66, g: 130, b: 111 }, Tile::FloorWire),
        22 => (Rgb { r: 143, g: 178, b: 111 }, Tile::CrossFloorWire),
        _ => (Rgb { r: 51, g: 109, b: 136 }, Tile::WallWire),
    }
}

/// Squared Euclidean distance between two colors, in byte steps.
pub open spec fn dist2(a: Rgb, b: Rgb) -> int {
    (a.r - b.r) * (a.r - b.r) + (a.g - b.g) * (a.g - b.g) + (a.b - b.b) * (a.b - b.b)
}

/// The color is closer than the tolerance to `b`.
///
/// The tolerance is 0.1 in normalized channel units, which is 25.5 byte steps:
/// `d < 25.5` exactly when `4 * d^2 < 51^2`.
pub open spec fn within_tolerance(a: Rgb, b: Rgb) -> bool {
    4 * dist2(a, b) < 2601
}

/// Index of the first palette entry, among the first `n`, nearest to `c`.
pub open spec fn nearest_among(c: Rgb, n: nat) -> int
    decreases n,
{
    if n <= 1 {
        0
    } else {
        let best = nearest_among(c, (n - 1) as nat);
        if dist2(c, palette(n - 1).0) < dist2(c, palette(best).0) {
            n - 1
        } else {
            best
        }
    }
}

/// Index of the first palette entry nearest to `c`.
pub open spec fn nearest_entry(c: Rgb) -> int {
    nearest_among(c, PALETTE_LEN as nat)
}

/// The tile a color selects, or `None` when no palette entry is close enough.
pub open spec fn classify(c: Rgb) -> Option<Tile> {
    let i = nearest_entry(c);
    if within_tolerance(c, palette(i).0) {
        Some(palette(i).1)
    } else {
        None
    }
}

/// `i` is the first palette entry among the first `n` at minimal distance from `c`.
pub open spec fn is_first_nearest(c: Rgb, i: int, n: nat) -> bool {
    &&& 0 <= i < n
    &&& forall|j: int| 0 <= j < n ==> dist2(c, palette(i).0) <= #[trigger] dist2(c, palette(j).0)
    &&& forall|j: int| 0 <= j < i ==> dist2(c, palette(i).0) < #[trigger] dist2(c, palette(j).0)
}

/// The recursive choice is the first nearest entry.
pub proof fn lemma_nearest_among(c: Rgb, n: nat)
    requires
        n >= 1,
    ensures
        is_first_nearest(c, nearest_among(c, n), n),
    decreases n,
{
    if n > 1 {
        lemma_nearest_among(c, (n - 1) as nat);
    }
}

/// A color close to exactly one palette entry selects that entry's tile,
/// whatever the order in which the other entries are compared.
pub proof fn lemma_unique_close_entry(c: Rgb, i: int)
    requires
        0 <= i < PALETTE_LEN,
        within_tolerance(c, palette(i).0),
        forall|j: int| 0 <= j < PALETTE_LEN && j != i ==> !within_tolerance(c, #[trigger] palette(j).0),
    ensures
        classify(c) == Some(palette(i).1),
{
    lemma_nearest_among(c, PALETTE_LEN as nat);
    let k = nearest_entry(c);
    assert(dist2(c, palette(k).0) <= dist2(c, palette(i).0));
}

/// Two colors both within tolerance of a third are closer than twice the
/// tolerance to each other.
proof fn lemma_both_close(a: Rgb, b: Rgb, c: Rgb)
    requires
        within_tolerance(c, a),
        within_tolerance(c, b),
    ensures
        dist2(a, b) < 2601,
{
    let (x1, y1, z1) = ((a.r - c.r) as int, (a.g - c.g) as int, (a.b - c.b) as int);
    let (x2, y2, z2) = ((c.r - b.r) as int, (c.g - b.g) as int, (c.b - b.b) as int);
    assert((x1 + x2) * (x1 + x2) <= 2 * (x1 * x1 + x2 * x2)) by (nonlinear_arith);
    assert((y1 + y2) * (y1 + y2) <= 2 * (y1 * y1 + y2 * y2)) by (nonlinear_arith);
    assert((z1 + z2) * (z1 + z2) <= 2 * (z1 * z1 + z2 * z2)) by (nonlinear_arith);
    assert(dist2(c, a) == x1 * x1 + y1 * y1 + z1 * z1) by (nonlinear_arith)
        requires x1 == a.r - c.r, y1 == a.g - c.g, z1 == a.b - c.b;
    assert(dist2(c, b) == x2 * x2 + y2 * y2 + z2 * z2) by (nonlinear_arith)
        requires x2 == c.r - b.r, y2 == c.g - b.g, z2 == c.b - b.b;
    assert(dist2(a, b) == (x1 + x2) * (x1 + x2) + (y1 + y2) * (y1 + y2) + (z1 + z2) * (z1 + z2)) by (nonlinear_arith)
        requires x1 + x2 == a.r - b.r, y1 + y2 == a.g - b.g, z1 + z2 == a.b - b.b;
}

proof fn lemma_sq_dist(a: Rgb, b: Rgb, dr: int, dg: int, db: int)
    requires
        a.r - b.r == dr,
        a.g - b.g == dg,
        a.b - b.b == db,
    ensures
        dist2(a, b) == dr * dr + dg * dg + db * db,
{
    assert(dist2(a, b) == dr * dr + dg * dg + db * db) by (nonlinear_arith)
        requires
            a.r - b.r == dr,
            a.g - b.g == dg,
            a.b - b.b == db,
    ;
}

/// Of all pairs of palette entries only the floor wire and the wall wire lie
/// closer than twice the tolerance.
#[verifier::rlimit(100)]
proof fn lemma_close_palette_pair(i: int, j: int)
    requires
        0 <= i < j < PALETTE_LEN,
        dist2(palette(i).0, palette(j).0) < 2601,
    ensures
        i == 21 && j == 23,
{
    if i == 0 {
        if j == 1 {
            assert(dist2(palette(0).0, palette(1).0) >= 2601) by {
                lemma_sq_dist(palette(0).0, palette(1).0, 127, 64, 0);
                assert(dist2(palette(0).0, palette(1).0) == 127 * 127 + 64 * 64 + 0 * 0);
            }
        } else if j == 2 {
            assert(dist2(palette(0).0, palette(2).0) >= 2601) by {
                lemma_sq_dist(palette(0).0, palette(2).0, 69, 34, 0);
                assert(dist2(palette(0).0, palette(2).0) == 69 * 69 + 34 * 34 + 0 * 0);
            }
        } else if j == 3 {
            assert(dist2(palette(0).0, palette(3).0) >= 2601) by {
                lemma_sq_dist(palette(0).0, palette(3).0, 64, 64, 64);
                assert(dist2(palette(0).0, palette(3).0) == 64 * 64 + 64 * 64 + 64 * 64);
            }
        } else if j == 4 {
            assert(dist2(palette(0).0, palette(4).0) >= 2601) by {
                lemma_sq_dist(palette(0).0, palette(4).0, 96, 96, 96);
                assert(dist2(palette(0).0, palette(4).0) == 96 * 96 + 96 * 96 + 96 * 96);
            }
        } else if j == 5 {
            assert(dist2(palette(0).0, palette(5).0) >= 2601) by {
                lemma_sq_dist(palette(0).0, palette(5).0, 127, 127, 127);
                assert(dist2(palette(0).0, palette(5).0) == 127 * 127 + 127 * 127 + 127 * 127);
            }
        } else if j == 6 {
            assert(dist2(palette(0).0, palette(6).0) >= 2601) by {
                lemma_sq_dist(palette(0).0, palette(6).0, 255, 255, 255);
                assert(dist2(palette(0).0, palette(6).0) == 255 * 255 + 255 * 255 + 255 * 255);
            }
        } else if j == 7 {
            assert(dist2(palette(0).0, palette(7).0) >= 2601) by {
                lemma_sq_dist(palette(0).0, palette(7).0, 255, 0, 255);
                assert(dist2(palette(0).0, palette(7).0) == 255 * 255 + 0 * 0 + 255 * 255);
            }
        } else if j == 8 {
            assert(dist2(palette(0).0, palette(8).0) >= 2601) by {
                lemma_sq_dist(palette(0).0, palette(8).0, 127, 127, 42);
                assert(dist2(palette(0).0, palette(8).0) == 127 * 127 + 127 * 127 + 42 * 42);
            }
        } else if j == 9 {
            assert(dist2(palette(0).0, palette(9).0) >= 2601) by {
                lemma_sq_dist(palette(0).0, palette(9).0, 255, 255, 0);
                assert(dist2(palette(0).0, palette(9).0) == 255 * 255 + 255 * 255 + 0 * 0);
            }
        } else if j == 10 {
            assert(dist2(palette(0).0, palette(10).0) >= 2601) by {
                lemma_sq_dist(palette(0).0, palette(10).0, 191, 191, 191);
                assert(dist2(palette(0).0, palette(10).0) == 191 * 191 + 191 * 191 + 191 * 191);
            }
        } else if j == 11 {
            assert(dist2(palette(0).0, palette(11).0) >= 2601) by {
                lemma_sq_dist(palette(0).0, palette(11).0, 127, 255, 0);
                assert(dist2(palette(0).0, palette(11).0) == 127 * 127 + 255 * 255 + 0 * 0);
            }
        } else if j == 12 {
            assert(dist2(palette(0).0, palette(12).0) >= 2601) by {
                lemma_sq_dist(palette(0).0, palette(12).0, 0, 127, 255);
                assert(dist2(palette(0).0, palette(12).0) == 0 * 0 + 127 * 127 + 255 * 255);
            }
        } else if j == 13 {
            assert(dist2(palette(0).0, palette(13).0) >= 2601) by {
                lemma_sq_dist(palette(0).0, palette(13).0, 0, 127, 127);
                assert(dist2(palette(0).0, palette(13).0) == 0 * 0 + 127 * 127 + 127 * 127);
            }
        } else if j == 14 {
            assert(dist2(palette(0).0, palette(14).0) >= 2601) by {
                lemma_sq_dist(palette(0).0, palette(14).0, 0, 255, 255);
                assert(dist2(palette(0).0, palette(14).0) == 0 * 0 + 255 * 255 + 255 * 255);
            }
        } else if j == 15 {
            assert(dist2(palette(0).0, palette(15).0) >= 2601) by {
                lemma_sq_dist(palette(0).0, palette(15).0, 0, 0, 255);
                assert(dist2(palette(0).0, palette(15).0) == 0 * 0 + 0 * 0 + 255 * 255);
            }
        } else if j == 16 {
            assert(dist2(palette(0).0, palette(16).0) >= 2601) by {
                lemma_sq_dist(palette(0).0, palette(16).0, 0, 255, 0);
                assert(dist2(palette(0).0, palette(16).0) == 0 * 0 + 255 * 255 + 0 * 0);
            }
        } else if j == 17 {
            assert(dist2(palette(0).0, palette(17).0) >= 2601) by {
                lemma_sq_dist(palette(0).0, palette(17).0, 127, 255, 127);
                assert(dist2(palette(0).0, palette(17).0) == 127 * 127 + 255 * 255 + 127 * 127);
            }
        } else if j == 18 {
            assert(dist2(palette(0).0, palette(18).0) >= 2601) by {
                lemma_sq_dist(palette(0).0, palette(18).0, 96, 142, 193);
                assert(dist2(palette(0).0, palette(18).0) == 96 * 96 + 142 * 142 + 193 * 193);
            }
        } else if j == 19 {
            assert(dist2(palette(0).0, palette(19).0) >= 2601) by {
                lemma_sq_dist(palette(0).0, palette(19).0, 97, 169, 97);
                assert(dist2(palette(0).0, palette(19).0) == 97 * 97 + 169 * 169 + 97 * 97);
            }
        } else if j == 20 {
            assert(dist2(palette(0).0, palette(20).0) >= 2601) by {
                lemma_sq_dist(palette(0).0, palette(20).0, 127, 0, 34);
                assert(dist2(palette(0).0, palette(20).0) == 127 * 127 + 0 * 0 + 34 * 34);
            }
        } else if j == 21 {
            assert(dist2(palette(0).0, palette(21).0) >= 2601) by {
                lemma_sq_dist(palette(0).0, palette(21).0, 189, 125, 144);
                assert(dist2(palette(0).0, palette(21).0) == 189 * 189 + 125 * 125 + 144 * 144);
            }
        } else if j == 22 {
            assert(dist2(palette(0).0, palette(22).0) >= 2601) by {
                lemma_sq_dist(palette(0).0, palette(22).0, 112, 77, 144);
                assert(dist2(palette(0).0, palette(22).0) == 112 * 112 + 77 * 77 + 144 * 144);
            }
        } else if j == 23 {
            assert(dist2(palette(0).0, palette(23).0) >= 2601) by {
                lemma_sq_dist(palette(0).0, palette(23).0, 204, 146, 119);
                assert(dist2(palette(0).0, palette(23).0) == 204 * 204 + 146 * 146 + 119 * 119);
            }
        }
    } else if i == 1 {
        if j == 2 {
            assert(dist2(palette(1).0, palette(2).0) >= 2601) by {
                lemma_sq_dist(palette(1).0, palette(2).0, -58, -30, 0);
                assert(dist2(palette(1).0, palette(2).0) == -58 * -58 + -30 * -30 + 0 * 0);
            }
        } else if j == 3 {
            assert(dist2(palette(1).0, palette(3).0) >= 2601) by {
                lemma_sq_dist(palette(1).0, palette(3).0, -63, 0, 64);
                assert(dist2(palette(1).0, palette(3).0) == -63 * -63 + 0 * 0 + 64 * 64);
            }
        } else if j == 4 {
            assert(dist2(palette(1).0, palette(4).0) >= 2601) by {
                lemma_sq_dist(palette(1).0, palette(4).0, -31, 32, 96);
                assert(dist2(palette(1).0, palette(4).0) == -31 * -31 + 32 * 32 + 96 * 96);
            }
        } else if j == 5 {
            assert(dist2(palette(1).0, palette(5).0) >= 2601) by {
                lemma_sq_dist(palette(1).0, palette(5).0, 0, 63, 127);
                assert(dist2(palette(1).0, palette(5).0) == 0 * 0 + 63 * 63 + 127 * 127);
            }
        } else if j == 6 {
            assert(dist2(palette(1).0, palette(6).0) >= 2601) by {
                lemma_sq_dist(palette(1).0, palette(6).0, 128, 191, 255);
                assert(dist2(palette(1).0, palette(6).0) == 128 * 128 + 191 * 191 + 255 * 255);
            }
        } else if j == 7 {
            assert(dist2(palette(1).0, palette(7).0) >= 2601) by {
                lemma_sq_dist(palette(1).0, palette(7).0, 128, -64, 255);
                assert(dist2(palette(1).0, palette(7).0) == 128 * 128 + -64 * -64 + 255 * 255);
            }
        } else if j == 8 {
            assert(dist2(palette(1).0, palette(8).0) >= 2601) by {
                lemma_sq_dist(palette(1).0, palette(8).0, 0, 63, 42);
                assert(dist2(palette(1).0, palette(8).0) == 0 * 0 + 63 * 63 + 42 * 42);
            }
        } else if j == 9 {
            assert(dist2(palette(1).0, palette(9).0) >= 2601) by {
                lemma_sq_dist(palette(1).0, palette(9).0, 128, 191, 0);
                assert(dist2(palette(1).0, palette(9).0) == 128 * 128 + 191 * 191 + 0 * 0);
            }
        } else if j == 10 {
            assert(dist2(palette(1).0, palette(10).0) >= 2601) by {
                lemma_sq_dist(palette(1).0, palette(10).0, 64, 127, 191);
                assert(dist2(palette(1).0, palette(10).0) == 64 * 64 + 127 * 127 + 191 * 191);
            }
        } else if j == 11 {
            assert(dist2(palette(1).0, palette(11).0) >= 2601) by {
                lemma_sq_dist(palette(1).0, palette(11).0, 0, 191, 0);
                assert(dist2(palette(1).0, palette(11).0) == 0 * 0 + 191 * 191 + 0 * 0);
            }
        } else if j == 12 {
            assert(dist2(palette(1).0, palette(12).0) >= 2601) by {
                lemma_sq_dist(palette(1).0, palette(12).0, -127, 63, 255);
                assert(dist2(palette(1).0, palette(12).0) == -127 * -127 + 63 * 63 + 255 * 255);
            }
        } else if j == 13 {
            assert(dist2(palette(1).0, palette(13).0) >= 2601) by {
                lemma_sq_dist(palette(1).0, palette(13).0, -127, 63, 127);
                assert(dist2(palette(1).0, palette(13).0) == -127 * -127 + 63 * 63 + 127 * 127);
            }
        } else if j == 14 {
            assert(dist2(palette(1).0, palette(14).0) >= 2601) by {
                lemma_sq_dist(palette(1).0, palette(14).0, -127, 191, 255);
                assert(dist2(palette(1).0, palette(14).0) == -127 * -127 + 191 * 191 + 255 * 255);
            }
        } else if j == 15 {
            assert(dist2(palette(1).0, palette(15).0) >= 2601) by {
                lemma_sq_dist(palette(1).0, palette(15).0, -127, -64, 255);
                assert(dist2(palette(1).0, palette(15).0) == -127 * -127 + -64 * -64 + 255 * 255);
            }
        } else if j == 16 {
            assert(dist2(palette(1).0, palette(16).0) >= 2601) by {
                lemma_sq_dist(palette(1).0, palette(16).0, -127, 191, 0);
                assert(dist2(palette(1).0, palette(16).0) == -127 * -127 + 191 * 191 + 0 * 0);
            }
        } else if j == 17 {
            assert(dist2(palette(1).0, palette(17).0) >= 2601) by {
                lemma_sq_dist(palette(1).0, palette(17).0, 0, 191, 127);
                assert(dist2(palette(1).0, palette(17).0) == 0 * 0 + 191 * 191 + 127 * 127);
            }
        } else if j == 18 {
            assert(dist2(palette(1).0, palette(18).0) >= 2601) by {
                lemma_sq_dist(palette(1).0, palette(18).0, -31, 78, 193);
                assert(dist2(palette(1).0, palette(18).0) == -31 * -31 + 78 * 78 + 193 * 193);
            }
        } else if j == 19 {
            assert(dist2(palette(1).0, palette(19).0) >= 2601) by {
                lemma_sq_dist(palette(1).0, palette(19).0, -30, 105, 97);
                assert(dist2(palette(1).0, palette(19).0) == -30 * -30 + 105 * 105 + 97 * 97);
            }
        } else if j == 20 {
            assert(dist2(palette(1).0, palette(20).0) >= 2601) by {
                lemma_sq_dist(palette(1).0, palette(20).0, 0, -64, 34);
                assert(dist2(palette(1).0, palette(20).0) == 0 * 0 + -64 * -64 + 34 * 34);
            }
        } else if j == 21 {
            assert(dist2(palette(1).0, palette(21).0) >= 2601) by {
                lemma_sq_dist(palette(1).0, palette(21).0, 62, 61, 144);
                assert(dist2(palette(1).0, palette(21).0) == 62 * 62 + 61 * 61 + 144 * 144);
            }
        } else if j == 22 {
            assert(dist2(palette(1).0, palette(22).0) >= 2601) by {
                lemma_sq_dist(palette(1).0, palette(22).0, -15, 13, 144);
                assert(dist2(palette(1).0, palette(22).0) == -15 * -15 + 13 * 13 + 144 * 144);
            }
        } else if j == 23 {
            assert(dist2(palette(1).0, palette(23).0) >= 2601) by {
                lemma_sq_dist(palette(1).0, palette(23).0, 77, 82, 119);
                assert(dist2(palette(1).0, palette(23).0) == 77 * 77 + 82 * 82 + 119 * 119);
            }
        }
    } else if i == 2 {
        if j == 3 {
            assert(dist2(palette(2).0, palette(3).0) >= 2601) by {
                lemma_sq_dist(palette(2).0, palette(3).0, -5, 30, 64);
                assert(dist2(palette(2).0, palette(3).0) == -5 * -5 + 30 * 30 + 64 * 64);
            }
        } else if j == 4 {
            assert(dist2(palette(2).0, palette(4).0) >= 2601) by {
                lemma_sq_dist(palette(2).0, palette(4).0, 27, 62, 96);
                assert(dist2(palette(2).0, palette(4).0) == 27 * 27 + 62 * 62 + 96 * 96);
            }
        } else if j == 5 {
            assert(dist2(palette(2).0, palette(5).0) >= 2601) by {
                lemma_sq_dist(palette(2).0, palette(5).0, 58, 93, 127);
                assert(dist2(palette(2).0, palette(5).0) == 58 * 58 + 93 * 93 + 127 * 127);
            }
        } else if j == 6 {
            assert(dist2(palette(2).0, palette(6).0) >= 2601) by {
                lemma_sq_dist(palette(2).0, palette(6).0, 186, 221, 255);
                assert(dist2(palette(2).0, palette(6).0) == 186 * 186 + 221 * 221 + 255 * 255);
            }
        } else if j == 7 {
            assert(dist2(palette(2).0, palette(7).0) >= 2601) by {
                lemma_sq_dist(palette(2).0, palette(7).0, 186, -34, 255);
                assert(dist2(palette(2).0, palette(7).0) == 186 * 186 + -34 * -34 + 255 * 255);
            }
        } else if j == 8 {
            assert(dist2(palette(2).0, palette(8).0) >= 2601) by {
                lemma_sq_dist(palette(2).0, palette(8).0, 58, 93, 42);
                assert(dist2(palette(2).0, palette(8).0) == 58 * 58 + 93 * 93 + 42 * 42);
            }
        } else if j == 9 {
            assert(dist2(palette(2).0, palette(9).0) >= 2601) by {
                lemma_sq_dist(palette(2).0, palette(9).0, 186, 221, 0);
                assert(dist2(palette(2).0, palette(9).0) == 186 * 186 + 221 * 221 + 0 * 0);
            }
        } else if j == 10 {
            assert(dist2(palette(2).0, palette(10).0) >= 2601) by {
                lemma_sq_dist(palette(2).0, palette(10).0, 122, 157, 191);
                assert(dist2(palette(2).0, palette(10).0) == 122 * 122 + 157 * 157 + 191 * 191);
            }
        } else if j == 11 {
            assert(dist2(palette(2).0, palette(11).0) >= 2601) by {
                lemma_sq_dist(palette(2).0, palette(11).0, 58, 221, 0);
                assert(dist2(palette(2).0, palette(11).0) == 58 * 58 + 221 * 221 + 0 * 0);
            }
        } else if j == 12 {
            assert(dist2(palette(2).0, palette(12).0) >= 2601) by {
                lemma_sq_dist(palette(2).0, palette(12).0, -69, 93, 255);
                assert(dist2(palette(2).0, palette(12).0) == -69 * -69 + 93 * 93 + 255 * 255);
            }
        } else if j == 13 {
            assert(dist2(palette(2).0, palette(13).0) >= 2601) by {
                lemma_sq_dist(palette(2).0, palette(13).0, -69, 93, 127);
                assert(dist2(palette(2).0, palette(13).0) == -69 * -69 + 93 * 93 + 127 * 127);
            }
        } else if j == 14 {
            assert(dist2(palette(2).0, palette(14).0) >= 2601) by {
                lemma_sq_dist(palette(2).0, palette(14).0, -69, 221, 255);
                assert(dist2(palette(2).0, palette(14).0) == -69 * -69 + 221 * 221 + 255 * 255);
            }
        } else if j == 15 {
            assert(dist2(palette(2).0, palette(15).0) >= 2601) by {
                lemma_sq_dist(palette(2).0, palette(15).0, -69, -34, 255);
                assert(dist2(palette(2).0, palette(15).0) == -69 * -69 + -34 * -34 + 255 * 255);
            }
        } else if j == 16 {
            assert(dist2(palette(2).0, palette(16).0) >= 2601) by {
                lemma_sq_dist(palette(2).0, palette(16).0, -69, 221, 0);
                assert(dist2(palette(2).0, palette(16).0) == -69 * -69 + 221 * 221 + 0 * 0);
            }
        } else if j == 17 {
            assert(dist2(palette(2).0, palette(17).0) >= 2601) by {
                lemma_sq_dist(palette(2).0, palette(17).0, 58, 221, 127);
                assert(dist2(palette(2).0, palette(17).0) == 58 * 58 + 221 * 221 + 127 * 127);
            }
        } else if j == 18 {
            assert(dist2(palette(2).0, palette(18).0) >= 2601) by {
                lemma_sq_dist(palette(2).0, palette(18).0, 27, 108, 193);
                assert(dist2(palette(2).0, palette(18).0) == 27 * 27 + 108 * 108 + 193 * 193);
            }
        } else if j == 19 {
            assert(dist2(palette(2).0, palette(19).0) >= 2601) by {
                lemma_sq_dist(palette(2).0, palette(19).0, 28, 135, 97);
                assert(dist2(palette(2).0, palette(19).0) == 28 * 28 + 135 * 135 + 97 * 97);
            }
        } else if j == 20 {
            assert(dist2(palette(2).0, palette(20).0) >= 2601) by {
                lemma_sq_dist(palette(2).0, palette(20).0, 58, -34, 34);
                assert(dist2(palette(2).0, palette(20).0) == 58 * 58 + -34 * -34 + 34 * 34);
            }
        } else if j == 21 {
            assert(dist2(palette(2).0, palette(21).0) >= 2601) by {
                lemma_sq_dist(palette(2).0, palette(21).0, 120, 91, 144);
                assert(dist2(palette(2).0, palette(21).0) == 120 * 120 + 91 * 91 + 144 * 144);
            }
        } else if j == 22 {
            assert(dist2(palette(2).0, palette(22).0) >= 2601) by {
                lemma_sq_dist(palette(2).0, palette(22).0, 43, 43, 144);
                assert(dist2(palette(2).0, palette(22).0) == 43 * 43 + 43 * 43 + 144 * 144);
            }
        } else if j == 23 {
            assert(dist2(palette(2).0, palette(23).0) >= 2601) by {
                lemma_sq_dist(palette(2).0, palette(23).0, 135, 112, 119);
                assert(dist2(palette(2).0, palette(23).0) == 135 * 135 + 112 * 112 + 119 * 119);
            }
        }
    } else if i == 3 {
        if j == 4 {
            assert(dist2(palette(3).0, palette(4).0) >= 2601) by {
                lemma_sq_dist(palette(3).0, palette(4).0, 32, 32, 32);
                assert(dist2(palette(3).0, palette(4).0) == 32 * 32 + 32 * 32 + 32 * 32);
            }
        } else if j == 5 {
            assert(dist2(palette(3).0, palette(5).0) >= 2601) by {
                lemma_sq_dist(palette(3).0, palette(5).0, 63, 63, 63);
                assert(dist2(palette(3).0, palette(5).0) == 63 * 63 + 63 * 63 + 63 * 63);
            }
        } else if j == 6 {
            assert(dist2(palette(3).0, palette(6).0) >= 2601) by {
                lemma_sq_dist(palette(3).0, palette(6).0, 191, 191, 191);
                assert(dist2(palette(3).0, palette(6).0) == 191 * 191 + 191 * 191 + 191 * 191);
            }
        } else if j == 7 {
            assert(dist2(palette(3).0, palette(7).0) >= 2601) by {
                lemma_sq_dist(palette(3).0, palette(7).0, 191, -64, 191);
                assert(dist2(palette(3).0, palette(7).0) == 191 * 191 + -64 * -64 + 191 * 191);
            }
        } else if j == 8 {
            assert(dist2(palette(3).0, palette(8).0) >= 2601) by {
                lemma_sq_dist(palette(3).0, palette(8).0, 63, 63, -22);
                assert(dist2(palette(3).0, palette(8).0) == 63 * 63 + 63 * 63 + -22 * -22);
            }
        } else if j == 9 {
            assert(dist2(palette(3).0, palette(9).0) >= 2601) by {
                lemma_sq_dist(palette(3).0, palette(9).0, 191, 191, -64);
                assert(dist2(palette(3).0, palette(9).0) == 191 * 191 + 191 * 191 + -64 * -64);
            }
        } else if j == 10 {
            assert(dist2(palette(3).0, palette(10).0) >= 2601) by {
                lemma_sq_dist(palette(3).0, palette(10).0, 127, 127, 127);
                assert(dist2(palette(3).0, palette(10).0) == 127 * 127 + 127 * 127 + 127 * 127);
            }
        } else if j == 11 {
            assert(dist2(palette(3).0, palette(11).0) >= 2601) by {
                lemma_sq_dist(palette(3).0, palette(11).0, 63, 191, -64);
                assert(dist2(palette(3).0, palette(11).0) == 63 * 63 + 191 * 191 + -64 * -64);
            }
        } else if j == 12 {
            assert(dist2(palette(3).0, palette(12).0) >= 2601) by {
                lemma_sq_dist(palette(3).0, palette(12).0, -64, 63, 191);
                assert(dist2(palette(3).0, palette(12).0) == -64 * -64 + 63 * 63 + 191 * 191);
            }
        } else if j == 13 {
            assert(dist2(palette(3).0, palette(13).0) >= 2601) by {
                lemma_sq_dist(palette(3).0, palette(13).0, -64, 63, 63);
                assert(dist2(palette(3).0, palette(13).0) == -64 * -64 + 63 * 63 + 63 * 63);
            }
        } else if j == 14 {
            assert(dist2(palette(3).0, palette(14).0) >= 2601) by {
                lemma_sq_dist(palette(3).0, palette(14).0, -64, 191, 191);
                assert(dist2(palette(3).0, palette(14).0) == -64 * -64 + 191 * 191 + 191 * 191);
            }
        } else if j == 15 {
            assert(dist2(palette(3).0, palette(15).0) >= 2601) by {
                lemma_sq_dist(palette(3).0, palette(15).0, -64, -64, 191);
                assert(dist2(palette(3).0, palette(15).0) == -64 * -64 + -64 * -64 + 191 * 191);
            }
        } else if j == 16 {
            assert(dist2(palette(3).0, palette(16).0) >= 2601) by {
                lemma_sq_dist(palette(3).0, palette(16).0, -64, 191, -64);
                assert(dist2(palette(3).0, palette(16).0) == -64 * -64 + 191 * 191 + -64 * -64);
            }
        } else if j == 17 {
            assert(dist2(palette(3).0, palette(17).0) >= 2601) by {
                lemma_sq_dist(palette(3).0, palette(17).0, 63, 191, 63);
                assert(dist2(palette(3).0, palette(17).0) == 63 * 63 + 191 * 191 + 63 * 63);
            }
        } else if j == 18 {
            assert(dist2(palette(3).0, palette(18).0) >= 2601) by {
                lemma_sq_dist(palette(3).0, palette(18).0, 32, 78, 129);
                assert(dist2(palette(3).0, palette(18).0) == 32 * 32 + 78 * 78 + 129 * 129);
            }
        } else if j == 19 {
            assert(dist2(palette(3).0, palette(19).0) >= 2601) by {
                lemma_sq_dist(palette(3).0, palette(19).0, 33, 105, 33);
                assert(dist2(palette(3).0, palette(19).0) == 33 * 33 + 105 * 105 + 33 * 33);
            }
        } else if j == 20 {
            assert(dist2(palette(3).0, palette(20).0) >= 2601) by {
                lemma_sq_dist(palette(3).0, palette(20).0, 63, -64, -30);
                assert(dist2(palette(3).0, palette(20).0) == 63 * 63 + -64 * -64 + -30 * -30);
            }
        } else if j == 21 {
            assert(dist2(palette(3).0, palette(21).0) >= 2601) by {
                lemma_sq_dist(palette(3).0, palette(21).0, 125, 61, 80);
                assert(dist2(palette(3).0, palette(21).0) == 125 * 125 + 61 * 61 + 80 * 80);
            }
        } else if j == 22 {
            assert(dist2(palette(3).0, palette(22).0) >= 2601) by {
                lemma_sq_dist(palette(3).0, palette(22).0, 48, 13, 80);
                assert(dist2(palette(3).0, palette(22).0) == 48 * 48 + 13 * 13 + 80 * 80);
            }
        } else if j == 23 {
            assert(dist2(palette(3).0, palette(23).0) >= 2601) by {
                lemma_sq_dist(palette(3).0, palette(23).0, 140, 82, 55);
                assert(dist2(palette(3).0, palette(23).0) == 140 * 140 + 82 * 82 + 55 * 55);
            }
        }
    } else if i == 4 {
        if j == 5 {
            assert(dist2(palette(4).0, palette(5).0) >= 2601) by {
                lemma_sq_dist(palette(4).0, palette(5).0, 31, 31, 31);
                assert(dist2(palette(4).0, palette(5).0) == 31 * 31 + 31 * 31 + 31 * 31);
            }
        } else if j == 6 {
            assert(dist2(palette(4).0, palette(6).0) >= 2601) by {
                lemma_sq_dist(palette(4).0, palette(6).0, 159, 159, 159);
                assert(dist2(palette(4).0, palette(6).0) == 159 * 159 + 159 * 159 + 159 * 159);
            }
        } else if j == 7 {
            assert(dist2(palette(4).0, palette(7).0) >= 2601) by {
                lemma_sq_dist(palette(4).0, palette(7).0, 159, -96, 159);
                assert(dist2(palette(4).0, palette(7).0) == 159 * 159 + -96 * -96 + 159 * 159);
            }
        } else if j == 8 {
            assert(dist2(palette(4).0, palette(8).0) >= 2601) by {
                lemma_sq_dist(palette(4).0, palette(8).0, 31, 31, -54);
                assert(dist2(palette(4).0, palette(8).0) == 31 * 31 + 31 * 31 + -54 * -54);
            }
        } else if j == 9 {
            assert(dist2(palette(4).0, palette(9).0) >= 2601) by {
                lemma_sq_dist(palette(4).0, palette(9).0, 159, 159, -96);
                assert(dist2(palette(4).0, palette(9).0) == 159 * 159 + 159 * 159 + -96 * -96);
            }
        } else if j == 10 {
            assert(dist2(palette(4).0, palette(10).0) >= 2601) by {
                lemma_sq_dist(palette(4).0, palette(10).0, 95, 95, 95);
                assert(dist2(palette(4).0, palette(10).0) == 95 * 95 + 95 * 95 + 95 * 95);
            }
        } else if j == 11 {
            assert(dist2(palette(4).0, palette(11).0) >= 2601) by {
                lemma_sq_dist(palette(4).0, palette(11).0, 31, 159, -96);
                assert(dist2(palette(4).0, palette(11).0) == 31 * 31 + 159 * 159 + -96 * -96);
            }
        } else if j == 12 {
            assert(dist2(palette(4).0, palette(12).0) >= 2601) by {
                lemma_sq_dist(palette(4).0, palette(12).0, -96, 31, 159);
                assert(dist2(palette(4).0, palette(12).0) == -96 * -96 + 31 * 31 + 159 * 159);
            }
        } else if j == 13 {
            assert(dist2(palette(4).0, palette(13).0) >= 2601) by {
                lemma_sq_dist(palette(4).0, palette(13).0, -96, 31, 31);
                assert(dist2(palette(4).0, palette(13).0) == -96 * -96 + 31 * 31 + 31 * 31);
            }
        } else if j == 14 {
            assert(dist2(palette(4).0, palette(14).0) >= 2601) by {
                lemma_sq_dist(palette(4).0, palette(14).0, -96, 159, 159);
                assert(dist2(palette(4).0, palette(14).0) == -96 * -96 + 159 * 159 + 159 * 159);
            }
        } else if j == 15 {
            assert(dist2(palette(4).0, palette(15).0) >= 2601) by {
                lemma_sq_dist(palette(4).0, palette(15).0, -96, -96, 159);
                assert(dist2(palette(4).0, palette(15).0) == -96 * -96 + -96 * -96 + 159 * 159);
            }
        } else if j == 16 {
            assert(dist2(palette(4).0, palette(16).0) >= 2601) by {
                lemma_sq_dist(palette(4).0, palette(16).0, -96, 159, -96);
                assert(dist2(palette(4).0, palette(16).0) == -96 * -96 + 159 * 159 + -96 * -96);
            }
        } else if j == 17 {
            assert(dist2(palette(4).0, palette(17).0) >= 2601) by {
                lemma_sq_dist(palette(4).0, palette(17).0, 31, 159, 31);
                assert(dist2(palette(4).0, palette(17).0) == 31 * 31 + 159 * 159 + 31 * 31);
            }
        } else if j == 18 {
            assert(dist2(palette(4).0, palette(18).0) >= 2601) by {
                lemma_sq_dist(palette(4).0, palette(18).0, 0, 46, 97);
                assert(dist2(palette(4).0, palette(18).0) == 0 * 0 + 46 * 46 + 97 * 97);
            }
        } else if j == 19 {
            assert(dist2(palette(4).0, palette(19).0) >= 2601) by {
                lemma_sq_dist(palette(4).0, palette(19).0, 1, 73, 1);
                assert(dist2(palette(4).0, palette(19).0) == 1 * 1 + 73 * 73 + 1 * 1);
            }
        } else if j == 20 {
            assert(dist2(palette(4).0, palette(20).0) >= 2601) by {
                lemma_sq_dist(palette(4).0, palette(20).0, 31, -96, -62);
                assert(dist2(palette(4).0, palette(20).0) == 31 * 31 + -96 * -96 + -62 * -62);
            }
        } else if j == 21 {
            assert(dist2(palette(4).0, palette(21).0) >= 2601) by {
                lemma_sq_dist(palette(4).0, palette(21).0, 93, 29, 48);
                assert(dist2(palette(4).0, palette(21).0) == 93 * 93 + 29 * 29 + 48 * 48);
            }
        } else if j == 22 {
            assert(dist2(palette(4).0, palette(22).0) >= 2601) by {
                lemma_sq_dist(palette(4).0, palette(22).0, 16, -19, 48);
                assert(dist2(palette(4).0, palette(22).0) == 16 * 16 + -19 * -19 + 48 * 48);
            }
        } else if j == 23 {
            assert(dist2(palette(4).0, palette(23).0) >= 2601) by {
                lemma_sq_dist(palette(4).0, palette(23).0, 108, 50, 23);
                assert(dist2(palette(4).0, palette(23).0) == 108 * 108 + 50 * 50 + 23 * 23);
            }
        }
    } else if i == 5 {
        if j == 6 {
            assert(dist2(palette(5).0, palette(6).0) >= 2601) by {
                lemma_sq_dist(palette(5).0, palette(6).0, 128, 128, 128);
                assert(dist2(palette(5).0, palette(6).0) == 128 * 128 + 128 * 128 + 128 * 128);
            }
        } else if j == 7 {
            assert(dist2(palette(5).0, palette(7).0) >= 2601) by {
                lemma_sq_dist(palette(5).0, palette(7).0, 128, -127, 128);
                assert(dist2(palette(5).0, palette(7).0) == 128 * 128 + -127 * -127 + 128 * 128);
            }
        } else if j == 8 {
            assert(dist2(palette(5).0, palette(8).0) >= 2601) by {
                lemma_sq_dist(palette(5).0, palette(8).0, 0, 0, -85);
                assert(dist2(palette(5).0, palette(8).0) == 0 * 0 + 0 * 0 + -85 * -85);
            }
        } else if j == 9 {
            assert(dist2(palette(5).0, palette(9).0) >= 2601) by {
                lemma_sq_dist(palette(5).0, palette(9).0, 128, 128, -127);
                assert(dist2(palette(5).0, palette(9).0) == 128 * 128 + 128 * 128 + -127 * -127);
            }
        } else if j == 10 {
            assert(dist2(palette(5).0, palette(10).0) >= 2601) by {
                lemma_sq_dist(palette(5).0, palette(10).0, 64, 64, 64);
                assert(dist2(palette(5).0, palette(10).0) == 64 * 64 + 64 * 64 + 64 * 64);
            }
        } else if j == 11 {
            assert(dist2(palette(5).0, palette(11).0) >= 2601) by {
                lemma_sq_dist(palette(5).0, palette(11).0, 0, 128, -127);
                assert(dist2(palette(5).0, palette(11).0) == 0 * 0 + 128 * 128 + -127 * -127);
            }
        } else if j == 12 {
            assert(dist2(palette(5).0, palette(12).0) >= 2601) by {
                lemma_sq_dist(palette(5).0, palette(12).0, -127, 0, 128);
                assert(dist2(palette(5).0, palette(12).0) == -127 * -127 + 0 * 0 + 128 * 128);
            }
        } else if j == 13 {
            assert(dist2(palette(5).0, palette(13).0) >= 2601) by {
                lemma_sq_dist(palette(5).0, palette(13).0, -127, 0, 0);
                assert(dist2(palette(5).0, palette(13).0) == -127 * -127 + 0 * 0 + 0 * 0);
            }
        } else if j == 14 {
            assert(dist2(palette(5).0, palette(14).0) >= 2601) by {
                lemma_sq_dist(palette(5).0, palette(14).0, -127, 128, 128);
                assert(dist2(palette(5).0, palette(14).0) == -127 * -127 + 128 * 128 + 128 * 128);
            }
        } else if j == 15 {
            assert(dist2(palette(5).0, palette(15).0) >= 2601) by {
                lemma_sq_dist(palette(5).0, palette(15).0, -127, -127, 128);
                assert(dist2(palette(5).0, palette(15).0) == -127 * -127 + -127 * -127 + 128 * 128);
            }
        } else if j == 16 {
            assert(dist2(palette(5).0, palette(16).0) >= 2601) by {
                lemma_sq_dist(palette(5).0, palette(16).0, -127, 128, -127);
                assert(dist2(palette(5).0, palette(16).0) == -127 * -127 + 128 * 128 + -127 * -127);
            }
        } else if j == 17 {
            assert(dist2(palette(5).0, palette(17).0) >= 2601) by {
                lemma_sq_dist(palette(5).0, palette(17).0, 0, 128, 0);
                assert(dist2(palette(5).0, palette(17).0) == 0 * 0 + 128 * 128 + 0 * 0);
            }
        } else if j == 18 {
            assert(dist2(palette(5).0, palette(18).0) >= 2601) by {
                lemma_sq_dist(palette(5).0, palette(18).0, -31, 15, 66);
                assert(dist2(palette(5).0, palette(18).0) == -31 * -31 + 15 * 15 + 66 * 66);
            }
        } else if j == 19 {
            assert(dist2(palette(5).0, palette(19).0) >= 2601) by {
                lemma_sq_dist(palette(5).0, palette(19).0, -30, 42, -30);
                assert(dist2(palette(5).0, palette(19).0) == -30 * -30 + 42 * 42 + -30 * -30);
            }
        } else if j == 20 {
            assert(dist2(palette(5).0, palette(20).0) >= 2601) by {
                lemma_sq_dist(palette(5).0, palette(20).0, 0, -127, -93);
                assert(dist2(palette(5).0, palette(20).0) == 0 * 0 + -127 * -127 + -93 * -93);
            }
        } else if j == 21 {
            assert(dist2(palette(5).0, palette(21).0) >= 2601) by {
                lemma_sq_dist(palette(5).0, palette(21).0, 62, -2, 17);
                assert(dist2(palette(5).0, palette(21).0) == 62 * 62 + -2 * -2 + 17 * 17);
            }
        } else if j == 22 {
            assert(dist2(palette(5).0, palette(22).0) >= 2601) by {
                lemma_sq_dist(palette(5).0, palette(22).0, -15, -50, 17);
                assert(dist2(palette(5).0, palette(22).0) == -15 * -15 + -50 * -50 + 17 * 17);
            }
        } else if j == 23 {
            assert(dist2(palette(5).0, palette(23).0) >= 2601) by {
                lemma_sq_dist(palette(5).0, palette(23).0, 77, 19, -8);
                assert(dist2(palette(5).0, palette(23).0) == 77 * 77 + 19 * 19 + -8 * -8);
            }
        }
    } else if i == 6 {
        if j == 7 {
            assert(dist2(palette(6).0, palette(7).0) >= 2601) by {
                lemma_sq_dist(palette(6).0, palette(7).0, 0, -255, 0);
                assert(dist2(palette(6).0, palette(7).0) == 0 * 0 + -255 * -255 + 0 * 0);
            }
        } else if j == 8 {
            assert(dist2(palette(6).0, palette(8).0) >= 2601) by {
                lemma_sq_dist(palette(6).0, palette(8).0, -128, -128, -213);
                assert(dist2(palette(6).0, palette(8).0) == -128 * -128 + -128 * -128 + -213 * -213);
            }
        } else if j == 9 {
            assert(dist2(palette(6).0, palette(9).0) >= 2601) by {
                lemma_sq_dist(palette(6).0, palette(9).0, 0, 0, -255);
                assert(dist2(palette(6).0, palette(9).0) == 0 * 0 + 0 * 0 + -255 * -255);
            }
        } else if j == 10 {
            assert(dist2(palette(6).0, palette(10).0) >= 2601) by {
                lemma_sq_dist(palette(6).0, palette(10).0, -64, -64, -64);
                assert(dist2(palette(6).0, palette(10).0) == -64 * -64 + -64 * -64 + -64 * -64);
            }
        } else if j == 11 {
            assert(dist2(palette(6).0, palette(11).0) >= 2601) by {
                lemma_sq_dist(palette(6).0, palette(11).0, -128, 0, -255);
                assert(dist2(palette(6).0, palette(11).0) == -128 * -128 + 0 * 0 + -255 * -255);
            }
        } else if j == 12 {
            assert(dist2(palette(6).0, palette(12).0) >= 2601) by {
                lemma_sq_dist(palette(6).0, palette(12).0, -255, -128, 0);
                assert(dist2(palette(6).0, palette(12).0) == -255 * -255 + -128 * -128 + 0 * 0);
            }
        } else if j == 13 {
            assert(dist2(palette(6).0, palette(13).0) >= 2601) by {
                lemma_sq_dist(palette(6).0, palette(13).0, -255, -128, -128);
                assert(dist2(palette(6).0, palette(13).0) == -255 * -255 + -128 * -128 + -128 * -128);
            }
        } else if j == 14 {
            assert(dist2(palette(6).0, palette(14).0) >= 2601) by {
                lemma_sq_dist(palette(6).0, palette(14).0, -255, 0, 0);
                assert(dist2(palette(6).0, palette(14).0) == -255 * -255 + 0 * 0 + 0 * 0);
            }
        } else if j == 15 {
            assert(dist2(palette(6).0, palette(15).0) >= 2601) by {
                lemma_sq_dist(palette(6).0, palette(15).0, -255, -255, 0);
                assert(dist2(palette(6).0, palette(15).0) == -255 * -255 + -255 * -255 + 0 * 0);
            }
        } else if j == 16 {
            assert(dist2(palette(6).0, palette(16).0) >= 2601) by {
                lemma_sq_dist(palette(6).0, palette(16).0, -255, 0, -255);
                assert(dist2(palette(6).0, palette(16).0) == -255 * -255 + 0 * 0 + -255 * -255);
            }
        } else if j == 17 {
            assert(dist2(palette(6).0, palette(17).0) >= 2601) by {
                lemma_sq_dist(palette(6).0, palette(17).0, -128, 0, -128);
                assert(dist2(palette(6).0, palette(17).0) == -128 * -128 + 0 * 0 + -128 * -128);
            }
        } else if j == 18 {
            assert(dist2(palette(6).0, palette(18).0) >= 2601) by {
                lemma_sq_dist(palette(6).0, palette(18).0, -159, -113, -62);
                assert(dist2(palette(6).0, palette(18).0) == -159 * -159 + -113 * -113 + -62 * -62);
            }
        } else if j == 19 {
            assert(dist2(palette(6).0, palette(19).0) >= 2601) by {
                lemma_sq_dist(palette(6).0, palette(19).0, -158, -86, -158);
                assert(dist2(palette(6).0, palette(19).0) == -158 * -158 + -86 * -86 + -158 * -158);
            }
        } else if j == 20 {
            assert(dist2(palette(6).0, palette(20).0) >= 2601) by {
                lemma_sq_dist(palette(6).0, palette(20).0, -128, -255, -221);
                assert(dist2(palette(6).0, palette(20).0) == -128 * -128 + -255 * -255 + -221 * -221);
            }
        } else if j == 21 {
            assert(dist2(palette(6).0, palette(21).0) >= 2601) by {
                lemma_sq_dist(palette(6).0, palette(21).0, -66, -130, -111);
                assert(dist2(palette(6).0, palette(21).0) == -66 * -66 + -130 * -130 + -111 * -111);
            }
        } else if j == 22 {
            assert(dist2(palette(6).0, palette(22).0) >= 2601) by {
                lemma_sq_dist(palette(6).0, palette(22).0, -143, -178, -111);
                assert(dist2(palette(6).0, palette(22).0) == -143 * -143 + -178 * -178 + -111 * -111);
            }
        } else if j == 23 {
            assert(dist2(palette(6).0, palette(23).0) >= 2601) by {
                lemma_sq_dist(palette(6).0, palette(23).0, -51, -109, -136);
                assert(dist2(palette(6).0, palette(23).0) == -51 * -51 + -109 * -109 + -136 * -136);
            }
        }
    } else if i == 7 {
        if j == 8 {
            assert(dist2(palette(7).0, palette(8).0) >= 2601) by {
                lemma_sq_dist(palette(7).0, palette(8).0, -128, 127, -213);
                assert(dist2(palette(7).0, palette(8).0) == -128 * -128 + 127 * 127 + -213 * -213);
            }
        } else if j == 9 {
            assert(dist2(palette(7).0, palette(9).0) >= 2601) by {
                lemma_sq_dist(palette(7).0, palette(9).0, 0, 255, -255);
                assert(dist2(palette(7).0, palette(9).0) == 0 * 0 + 255 * 255 + -255 * -255);
            }
        } else if j == 10 {
            assert(dist2(palette(7).0, palette(10).0) >= 2601) by {
                lemma_sq_dist(palette(7).0, palette(10).0, -64, 191, -64);
                assert(dist2(palette(7).0, palette(10).0) == -64 * -64 + 191 * 191 + -64 * -64);
            }
        } else if j == 11 {
            assert(dist2(palette(7).0, palette(11).0) >= 2601) by {
                lemma_sq_dist(palette(7).0, palette(11).0, -128, 255, -255);
                assert(dist2(palette(7).0, palette(11).0) == -128 * -128 + 255 * 255 + -255 * -255);
            }
        } else if j == 12 {
            assert(dist2(palette(7).0, palette(12).0) >= 2601) by {
                lemma_sq_dist(palette(7).0, palette(12).0, -255, 127, 0);
                assert(dist2(palette(7).0, palette(12).0) == -255 * -255 + 127 * 127 + 0 * 0);
            }
        } else if j == 13 {
            assert(dist2(palette(7).0, palette(13).0) >= 2601) by {
                lemma_sq_dist(palette(7).0, palette(13).0, -255, 127, -128);
                assert(dist2(palette(7).0, palette(13).0) == -255 * -255 + 127 * 127 + -128 * -128);
            }
        } else if j == 14 {
            assert(dist2(palette(7).0, palette(14).0) >= 2601) by {
                lemma_sq_dist(palette(7).0, palette(14).0, -255, 255, 0);
                assert(dist2(palette(7).0, palette(14).0) == -255 * -255 + 255 * 255 + 0 * 0);
            }
        } else if j == 15 {
            assert(dist2(palette(7).0, palette(15).0) >= 2601) by {
                lemma_sq_dist(palette(7).0, palette(15).0, -255, 0, 0);
                assert(dist2(palette(7).0, palette(15).0) == -255 * -255 + 0 * 0 + 0 * 0);
            }
        } else if j == 16 {
            assert(dist2(palette(7).0, palette(16).0) >= 2601) by {
                lemma_sq_dist(palette(7).0, palette(16).0, -255, 255, -255);
                assert(dist2(palette(7).0, palette(16).0) == -255 * -255 + 255 * 255 + -255 * -255);
            }
        } else if j == 17 {
            assert(dist2(palette(7).0, palette(17).0) >= 2601) by {
                lemma_sq_dist(palette(7).0, palette(17).0, -128, 255, -128);
                assert(dist2(palette(7).0, palette(17).0) == -128 * -128 + 255 * 255 + -128 * -128);
            }
        } else if j == 18 {
            assert(dist2(palette(7).0, palette(18).0) >= 2601) by {
                lemma_sq_dist(palette(7).0, palette(18).0, -159, 142, -62);
                assert(dist2(palette(7).0, palette(18).0) == -159 * -159 + 142 * 142 + -62 * -62);
            }
        } else if j == 19 {
            assert(dist2(palette(7).0, palette(19).0) >= 2601) by {
                lemma_sq_dist(palette(7).0, palette(19).0, -158, 169, -158);
                assert(dist2(palette(7).0, palette(19).0) == -158 * -158 + 169 * 169 + -158 * -158);
            }
        } else if j == 20 {
            assert(dist2(palette(7).0, palette(20).0) >= 2601) by {
                lemma_sq_dist(palette(7).0, palette(20).0, -128, 0, -221);
                assert(dist2(palette(7).0, palette(20).0) == -128 * -128 + 0 * 0 + -221 * -221);
            }
        } else if j == 21 {
            assert(dist2(palette(7).0, palette(21).0) >= 2601) by {
                lemma_sq_dist(palette(7).0, palette(21).0, -66, 125, -111);
                assert(dist2(palette(7).0, palette(21).0) == -66 * -66 + 125 * 125 + -111 * -111);
            }
        } else if j == 22 {
            assert(dist2(palette(7).0, palette(22).0) >= 2601) by {
                lemma_sq_dist(palette(7).0, palette(22).0, -143, 77, -111);
                assert(dist2(palette(7).0, palette(22).0) == -143 * -143 + 77 * 77 + -111 * -111);
            }
        } else if j == 23 {
            assert(dist2(palette(7).0, palette(23).0) >= 2601) by {
                lemma_sq_dist(palette(7).0, palette(23).0, -51, 146, -136);
                assert(dist2(palette(7).0, palette(23).0) == -51 * -51 + 146 * 146 + -136 * -136);
            }
        }
    } else if i == 8 {
        if j == 9 {
            assert(dist2(palette(8).0, palette(9).0) >= 2601) by {
                lemma_sq_dist(palette(8).0, palette(9).0, 128, 128, -42);
                assert(dist2(palette(8).0, palette(9).0) == 128 * 128 + 128 * 128 + -42 * -42);
            }
        } else if j == 10 {
            assert(dist2(palette(8).0, palette(10).0) >= 2601) by {
                lemma_sq_dist(palette(8).0, palette(10).0, 64, 64, 149);
                assert(dist2(palette(8).0, palette(10).0) == 64 * 64 + 64 * 64 + 149 * 149);
            }
        } else if j == 11 {
            assert(dist2(palette(8).0, palette(11).0) >= 2601) by {
                lemma_sq_dist(palette(8).0, palette(11).0, 0, 128, -42);
                assert(dist2(palette(8).0, palette(11).0) == 0 * 0 + 128 * 128 + -42 * -42);
            }
        } else if j == 12 {
            assert(dist2(palette(8).0, palette(12).0) >= 2601) by {
                lemma_sq_dist(palette(8).0, palette(12).0, -127, 0, 213);
                assert(dist2(palette(8).0, palette(12).0) == -127 * -127 + 0 * 0 + 213 * 213);
            }
        } else if j == 13 {
            assert(dist2(palette(8).0, palette(13).0) >= 2601) by {
                lemma_sq_dist(palette(8).0, palette(13).0, -127, 0, 85);
                assert(dist2(palette(8).0, palette(13).0) == -127 * -127 + 0 * 0 + 85 * 85);
            }
        } else if j == 14 {
            assert(dist2(palette(8).0, palette(14).0) >= 2601) by {
                lemma_sq_dist(palette(8).0, palette(14).0, -127, 128, 213);
                assert(dist2(palette(8).0, palette(14).0) == -127 * -127 + 128 * 128 + 213 * 213);
            }
        } else if j == 15 {
            assert(dist2(palette(8).0, palette(15).0) >= 2601) by {
                lemma_sq_dist(palette(8).0, palette(15).0, -127, -127, 213);
                assert(dist2(palette(8).0, palette(15).0) == -127 * -127 + -127 * -127 + 213 * 213);
            }
        } else if j == 16 {
            assert(dist2(palette(8).0, palette(16).0) >= 2601) by {
                lemma_sq_dist(palette(8).0, palette(16).0, -127, 128, -42);
                assert(dist2(palette(8).0, palette(16).0) == -127 * -127 + 128 * 128 + -42 * -42);
            }
        } else if j == 17 {
            assert(dist2(palette(8).0, palette(17).0) >= 2601) by {
                lemma_sq_dist(palette(8).0, palette(17).0, 0, 128, 85);
                assert(dist2(palette(8).0, palette(17).0) == 0 * 0 + 128 * 128 + 85 * 85);
            }
        } else if j == 18 {
            assert(dist2(palette(8).0, palette(18).0) >= 2601) by {
                lemma_sq_dist(palette(8).0, palette(18).0, -31, 15, 151);
                assert(dist2(palette(8).0, palette(18).0) == -31 * -31 + 15 * 15 + 151 * 151);
            }
        } else if j == 19 {
            assert(dist2(palette(8).0, palette(19).0) >= 2601) by {
                lemma_sq_dist(palette(8).0, palette(19).0, -30, 42, 55);
                assert(dist2(palette(8).0, palette(19).0) == -30 * -30 + 42 * 42 + 55 * 55);
            }
        } else if j == 20 {
            assert(dist2(palette(8).0, palette(20).0) >= 2601) by {
                lemma_sq_dist(palette(8).0, palette(20).0, 0, -127, -8);
                assert(dist2(palette(8).0, palette(20).0) == 0 * 0 + -127 * -127 + -8 * -8);
            }
        } else if j == 21 {
            assert(dist2(palette(8).0, palette(21).0) >= 2601) by {
                lemma_sq_dist(palette(8).0, palette(21).0, 62, -2, 102);
                assert(dist2(palette(8).0, palette(21).0) == 62 * 62 + -2 * -2 + 102 * 102);
            }
        } else if j == 22 {
            assert(dist2(palette(8).0, palette(22).0) >= 2601) by {
                lemma_sq_dist(palette(8).0, palette(22).0, -15, -50, 102);
                assert(dist2(palette(8).0, palette(22).0) == -15 * -15 + -50 * -50 + 102 * 102);
            }
        } else if j == 23 {
            assert(dist2(palette(8).0, palette(23).0) >= 2601) by {
                lemma_sq_dist(palette(8).0, palette(23).0, 77, 19, 77);
                assert(dist2(palette(8).0, palette(23).0) == 77 * 77 + 19 * 19 + 77 * 77);
            }
        }
    } else if i == 9 {
        if j == 10 {
            assert(dist2(palette(9).0, palette(10).0) >= 2601) by {
                lemma_sq_dist(palette(9).0, palette(10).0, -64, -64, 191);
                assert(dist2(palette(9).0, palette(10).0) == -64 * -64 + -64 * -64 + 191 * 191);
            }
        } else if j == 11 {
            assert(dist2(palette(9).0, palette(11).0) >= 2601) by {
                lemma_sq_dist(palette(9).0, palette(11).0, -128, 0, 0);
                assert(dist2(palette(9).0, palette(11).0) == -128 * -128 + 0 * 0 + 0 * 0);
            }
        } else if j == 12 {
            assert(dist2(palette(9).0, palette(12).0) >= 2601) by {
                lemma_sq_dist(palette(9).0, palette(12).0, -255, -128, 255);
                assert(dist2(palette(9).0, palette(12).0) == -255 * -255 + -128 * -128 + 255 * 255);
            }
        } else if j == 13 {
            assert(dist2(palette(9).0, palette(13).0) >= 2601) by {
                lemma_sq_dist(palette(9).0, palette(13).0, -255, -128, 127);
                assert(dist2(palette(9).0, palette(13).0) == -255 * -255 + -128 * -128 + 127 * 127);
            }
        } else if j == 14 {
            assert(dist2(palette(9).0, palette(14).0) >= 2601) by {
                lemma_sq_dist(palette(9).0, palette(14).0, -255, 0, 255);
                assert(dist2(palette(9).0, palette(14).0) == -255 * -255 + 0 * 0 + 255 * 255);
            }
        } else if j == 15 {
            assert(dist2(palette(9).0, palette(15).0) >= 2601) by {
                lemma_sq_dist(palette(9).0, palette(15).0, -255, -255, 255);
                assert(dist2(palette(9).0, palette(15).0) == -255 * -255 + -255 * -255 + 255 * 255);
            }
        } else if j == 16 {
            assert(dist2(palette(9).0, palette(16).0) >= 2601) by {
                lemma_sq_dist(palette(9).0, palette(16).0, -255, 0, 0);
                assert(dist2(palette(9).0, palette(16).0) == -255 * -255 + 0 * 0 + 0 * 0);
            }
        } else if j == 17 {
            assert(dist2(palette(9).0, palette(17).0) >= 2601) by {
                lemma_sq_dist(palette(9).0, palette(17).0, -128, 0, 127);
                assert(dist2(palette(9).0, palette(17).0) == -128 * -128 + 0 * 0 + 127 * 127);
            }
        } else if j == 18 {
            assert(dist2(palette(9).0, palette(18).0) >= 2601) by {
                lemma_sq_dist(palette(9).0, palette(18).0, -159, -113, 193);
                assert(dist2(palette(9).0, palette(18).0) == -159 * -159 + -113 * -113 + 193 * 193);
            }
        } else if j == 19 {
            assert(dist2(palette(9).0, palette(19).0) >= 2601) by {
                lemma_sq_dist(palette(9).0, palette(19).0, -158, -86, 97);
                assert(dist2(palette(9).0, palette(19).0) == -158 * -158 + -86 * -86 + 97 * 97);
            }
        } else if j == 20 {
            assert(dist2(palette(9).0, palette(20).0) >= 2601) by {
                lemma_sq_dist(palette(9).0, palette(20).0, -128, -255, 34);
                assert(dist2(palette(9).0, palette(20).0) == -128 * -128 + -255 * -255 + 34 * 34);
            }
        } else if j == 21 {
            assert(dist2(palette(9).0, palette(21).0) >= 2601) by {
                lemma_sq_dist(palette(9).0, palette(21).0, -66, -130, 144);
                assert(dist2(palette(9).0, palette(21).0) == -66 * -66 + -130 * -130 + 144 * 144);
            }
        } else if j == 22 {
            assert(dist2(palette(9).0, palette(22).0) >= 2601) by {
                lemma_sq_dist(palette(9).0, palette(22).0, -143, -178, 144);
                assert(dist2(palette(9).0, palette(22).0) == -143 * -143 + -178 * -178 + 144 * 144);
            }
        } else if j == 23 {
            assert(dist2(palette(9).0, palette(23).0) >= 2601) by {
                lemma_sq_dist(palette(9).0, palette(23).0, -51, -109, 119);
                assert(dist2(palette(9).0, palette(23).0) == -51 * -51 + -109 * -109 + 119 * 119);
            }
        }
    } else if i == 10 {
        if j == 11 {
            assert(dist2(palette(10).0, palette(11).0) >= 2601) by {
                lemma_sq_dist(palette(10).0, palette(11).0, -64, 64, -191);
                assert(dist2(palette(10).0, palette(11).0) == -64 * -64 + 64 * 64 + -191 * -191);
            }
        } else if j == 12 {
            assert(dist2(palette(10).0, palette(12).0) >= 2601) by {
                lemma_sq_dist(palette(10).0, palette(12).0, -191, -64, 64);
                assert(dist2(palette(10).0, palette(12).0) == -191 * -191 + -64 * -64 + 64 * 64);
            }
        } else if j == 13 {
            assert(dist2(palette(10).0, palette(13).0) >= 2601) by {
                lemma_sq_dist(palette(10).0, palette(13).0, -191, -64, -64);
                assert(dist2(palette(10).0, palette(13).0) == -191 * -191 + -64 * -64 + -64 * -64);
            }
        } else if j == 14 {
            assert(dist2(palette(10).0, palette(14).0) >= 2601) by {
                lemma_sq_dist(palette(10).0, palette(14).0, -191, 64, 64);
                assert(dist2(palette(10).0, palette(14).0) == -191 * -191 + 64 * 64 + 64 * 64);
            }
        } else if j == 15 {
            assert(dist2(palette(10).0, palette(15).0) >= 2601) by {
                lemma_sq_dist(palette(10).0, palette(15).0, -191, -191, 64);
                assert(dist2(palette(10).0, palette(15).0) == -191 * -191 + -191 * -191 + 64 * 64);
            }
        } else if j == 16 {
            assert(dist2(palette(10).0, palette(16).0) >= 2601) by {
                lemma_sq_dist(palette(10).0, palette(16).0, -191, 64, -191);
                assert(dist2(palette(10).0, palette(16).0) == -191 * -191 + 64 * 64 + -191 * -191);
            }
        } else if j == 17 {
            assert(dist2(palette(10).0, palette(17).0) >= 2601) by {
                lemma_sq_dist(palette(10).0, palette(17).0, -64, 64, -64);
                assert(dist2(palette(10).0, palette(17).0) == -64 * -64 + 64 * 64 + -64 * -64);
            }
        } else if j == 18 {
            assert(dist2(palette(10).0, palette(18).0) >= 2601) by {
                lemma_sq_dist(palette(10).0, palette(18).0, -95, -49, 2);
                assert(dist2(palette(10).0, palette(18).0) == -95 * -95 + -49 * -49 + 2 * 2);
            }
        } else if j == 19 {
            assert(dist2(palette(10).0, palette(19).0) >= 2601) by {
                lemma_sq_dist(palette(10).0, palette(19).0, -94, -22, -94);
                assert(dist2(palette(10).0, palette(19).0) == -94 * -94 + -22 * -22 + -94 * -94);
            }
        } else if j == 20 {
            assert(dist2(palette(10).0, palette(20).0) >= 2601) by {
                lemma_sq_dist(palette(10).0, palette(20).0, -64, -191, -157);
                assert(dist2(palette(10).0, palette(20).0) == -64 * -64 + -191 * -191 + -157 * -157);
            }
        } else if j == 21 {
            assert(dist2(palette(10).0, palette(21).0) >= 2601) by {
                lemma_sq_dist(palette(10).0, palette(21).0, -2, -66, -47);
                assert(dist2(palette(10).0, palette(21).0) == -2 * -2 + -66 * -66 + -47 * -47);
            }
        } else if j == 22 {
            assert(dist2(palette(10).0, palette(22).0) >= 2601) by {
                lemma_sq_dist(palette(10).0, palette(22).0, -79, -114, -47);
                assert(dist2(palette(10).0, palette(22).0) == -79 * -79 + -114 * -114 + -47 * -47);
            }
        } else if j == 23 {
            assert(dist2(palette(10).0, palette(23).0) >= 2601) by {
                lemma_sq_dist(palette(10).0, palette(23).0, 13, -45, -72);
                assert(dist2(palette(10).0, palette(23).0) == 13 * 13 + -45 * -45 + -72 * -72);
            }
        }
    } else if i == 11 {
        if j == 12 {
            assert(dist2(palette(11).0, palette(12).0) >= 2601) by {
                lemma_sq_dist(palette(11).0, palette(12).0, -127, -128, 255);
                assert(dist2(palette(11).0, palette(12).0) == -127 * -127 + -128 * -128 + 255 * 255);
            }
        } else if j == 13 {
            assert(dist2(palette(11).0, palette(13).0) >= 2601) by {
                lemma_sq_dist(palette(11).0, palette(13).0, -127, -128, 127);
                assert(dist2(palette(11).0, palette(13).0) == -127 * -127 + -128 * -128 + 127 * 127);
            }
        } else if j == 14 {
            assert(dist2(palette(11).0, palette(14).0) >= 2601) by {
                lemma_sq_dist(palette(11).0, palette(14).0, -127, 0, 255);
                assert(dist2(palette(11).0, palette(14).0) == -127 * -127 + 0 * 0 + 255 * 255);
            }
        } else if j == 15 {
            assert(dist2(palette(11).0, palette(15).0) >= 2601) by {
                lemma_sq_dist(palette(11).0, palette(15).0, -127, -255, 255);
                assert(dist2(palette(11).0, palette(15).0) == -127 * -127 + -255 * -255 + 255 * 255);
            }
        } else if j == 16 {
            assert(dist2(palette(11).0, palette(16).0) >= 2601) by {
                lemma_sq_dist(palette(11).0, palette(16).0, -127, 0, 0);
                assert(dist2(palette(11).0, palette(16).0) == -127 * -127 + 0 * 0 + 0 * 0);
            }
        } else if j == 17 {
            assert(dist2(palette(11).0, palette(17).0) >= 2601) by {
                lemma_sq_dist(palette(11).0, palette(17).0, 0, 0, 127);
                assert(dist2(palette(11).0, palette(17).0) == 0 * 0 + 0 * 0 + 127 * 127);
            }
        } else if j == 18 {
            assert(dist2(palette(11).0, palette(18).0) >= 2601) by {
                lemma_sq_dist(palette(11).0, palette(18).0, -31, -113, 193);
                assert(dist2(palette(11).0, palette(18).0) == -31 * -31 + -113 * -113 + 193 * 193);
            }
        } else if j == 19 {
            assert(dist2(palette(11).0, palette(19).0) >= 2601) by {
                lemma_sq_dist(palette(11).0, palette(19).0, -30, -86, 97);
                assert(dist2(palette(11).0, palette(19).0) == -30 * -30 + -86 * -86 + 97 * 97);
            }
        } else if j == 20 {
            assert(dist2(palette(11).0, palette(20).0) >= 2601) by {
                lemma_sq_dist(palette(11).0, palette(20).0, 0, -255, 34);
                assert(dist2(palette(11).0, palette(20).0) == 0 * 0 + -255 * -255 + 34 * 34);
            }
        } else if j == 21 {
            assert(dist2(palette(11).0, palette(21).0) >= 2601) by {
                lemma_sq_dist(palette(11).0, palette(21).0, 62, -130, 144);
                assert(dist2(palette(11).0, palette(21).0) == 62 * 62 + -130 * -130 + 144 * 144);
            }
        } else if j == 22 {
            assert(dist2(palette(11).0, palette(22).0) >= 2601) by {
                lemma_sq_dist(palette(11).0, palette(22).0, -15, -178, 144);
                assert(dist2(palette(11).0, palette(22).0) == -15 * -15 + -178 * -178 + 144 * 144);
            }
        } else if j == 23 {
            assert(dist2(palette(11).0, palette(23).0) >= 2601) by {
                lemma_sq_dist(palette(11).0, palette(23).0, 77, -109, 119);
                assert(dist2(palette(11).0, palette(23).0) == 77 * 77 + -109 * -109 + 119 * 119);
            }
        }
    } else if i == 12 {
        if j == 13 {
            assert(dist2(palette(12).0, palette(13).0) >= 2601) by {
                lemma_sq_dist(palette(12).0, palette(13).0, 0, 0, -128);
                assert(dist2(palette(12).0, palette(13).0) == 0 * 0 + 0 * 0 + -128 * -128);
            }
        } else if j == 14 {
            assert(dist2(palette(12).0, palette(14).0) >= 2601) by {
                lemma_sq_dist(palette(12).0, palette(14).0, 0, 128, 0);
                assert(dist2(palette(12).0, palette(14).0) == 0 * 0 + 128 * 128 + 0 * 0);
            }
        } else if j == 15 {
            assert(dist2(palette(12).0, palette(15).0) >= 2601) by {
                lemma_sq_dist(palette(12).0, palette(15).0, 0, -127, 0);
                assert(dist2(palette(12).0, palette(15).0) == 0 * 0 + -127 * -127 + 0 * 0);
            }
        } else if j == 16 {
            assert(dist2(palette(12).0, palette(16).0) >= 2601) by {
                lemma_sq_dist(palette(12).0, palette(16).0, 0, 128, -255);
                assert(dist2(palette(12).0, palette(16).0) == 0 * 0 + 128 * 128 + -255 * -255);
            }
        } else if j == 17 {
            assert(dist2(palette(12).0, palette(17).0) >= 2601) by {
                lemma_sq_dist(palette(12).0, palette(17).0, 127, 128, -128);
                assert(dist2(palette(12).0, palette(17).0) == 127 * 127 + 128 * 128 + -128 * -128);
            }
        } else if j == 18 {
            assert(dist2(palette(12).0, palette(18).0) >= 2601) by {
                lemma_sq_dist(palette(12).0, palette(18).0, 96, 15, -62);
                assert(dist2(palette(12).0, palette(18).0) == 96 * 96 + 15 * 15 + -62 * -62);
            }
        } else if j == 19 {
            assert(dist2(palette(12).0, palette(19).0) >= 2601) by {
                lemma_sq_dist(palette(12).0, palette(19).0, 97, 42, -158);
                assert(dist2(palette(12).0, palette(19).0) == 97 * 97 + 42 * 42 + -158 * -158);
            }
        } else if j == 20 {
            assert(dist2(palette(12).0, palette(20).0) >= 2601) by {
                lemma_sq_dist(palette(12).0, palette(20).0, 127, -127, -221);
                assert(dist2(palette(12).0, palette(20).0) == 127 * 127 + -127 * -127 + -221 * -221);
            }
        } else if j == 21 {
            assert(dist2(palette(12).0, palette(21).0) >= 2601) by {
                lemma_sq_dist(palette(12).0, palette(21).0, 189, -2, -111);
                assert(dist2(palette(12).0, palette(21).0) == 189 * 189 + -2 * -2 + -111 * -111);
            }
        } else if j == 22 {
            assert(dist2(palette(12).0, palette(22).0) >= 2601) by {
                lemma_sq_dist(palette(12).0, palette(22).0, 112, -50, -111);
                assert(dist2(palette(12).0, palette(22).0) == 112 * 112 + -50 * -50 + -111 * -111);
            }
        } else if j == 23 {
            assert(dist2(palette(12).0, palette(23).0) >= 2601) by {
                lemma_sq_dist(palette(12).0, palette(23).0, 204, 19, -136);
                assert(dist2(palette(12).0, palette(23).0) == 204 * 204 + 19 * 19 + -136 * -136);
            }
        }
    } else if i == 13 {
        if j == 14 {
            assert(dist2(palette(13).0, palette(14).0) >= 2601) by {
                lemma_sq_dist(palette(13).0, palette(14).0, 0, 128, 128);
                assert(dist2(palette(13).0, palette(14).0) == 0 * 0 + 128 * 128 + 128 * 128);
            }
        } else if j == 15 {
            assert(dist2(palette(13).0, palette(15).0) >= 2601) by {
                lemma_sq_dist(palette(13).0, palette(15).0, 0, -127, 128);
                assert(dist2(palette(13).0, palette(15).0) == 0 * 0 + -127 * -127 + 128 * 128);
            }
        } else if j == 16 {
            assert(dist2(palette(13).0, palette(16).0) >= 2601) by {
                lemma_sq_dist(palette(13).0, palette(16).0, 0, 128, -127);
                assert(dist2(palette(13).0, palette(16).0) == 0 * 0 + 128 * 128 + -127 * -127);
            }
        } else if j == 17 {
            assert(dist2(palette(13).0, palette(17).0) >= 2601) by {
                lemma_sq_dist(palette(13).0, palette(17).0, 127, 128, 0);
                assert(dist2(palette(13).0, palette(17).0) == 127 * 127 + 128 * 128 + 0 * 0);
            }
        } else if j == 18 {
            assert(dist2(palette(13).0, palette(18).0) >= 2601) by {
                lemma_sq_dist(palette(13).0, palette(18).0, 96, 15, 66);
                assert(dist2(palette(13).0, palette(18).0) == 96 * 96 + 15 * 15 + 66 * 66);
            }
        } else if j == 19 {
            assert(dist2(palette(13).0, palette(19).0) >= 2601) by {
                lemma_sq_dist(palette(13).0, palette(19).0, 97, 42, -30);
                assert(dist2(palette(13).0, palette(19).0) == 97 * 97 + 42 * 42 + -30 * -30);
            }
        } else if j == 20 {
            assert(dist2(palette(13).0, palette(20).0) >= 2601) by {
                lemma_sq_dist(palette(13).0, palette(20).0, 127, -127, -93);
                assert(dist2(palette(13).0, palette(20).0) == 127 * 127 + -127 * -127 + -93 * -93);
            }
        } else if j == 21 {
            assert(dist2(palette(13).0, palette(21).0) >= 2601) by {
                lemma_sq_dist(palette(13).0, palette(21).0, 189, -2, 17);
                assert(dist2(palette(13).0, palette(21).0) == 189 * 189 + -2 * -2 + 17 * 17);
            }
        } else if j == 22 {
            assert(dist2(palette(13).0, palette(22).0) >= 2601) by {
                lemma_sq_dist(palette(13).0, palette(22).0, 112, -50, 17);
                assert(dist2(palette(13).0, palette(22).0) == 112 * 112 + -50 * -50 + 17 * 17);
            }
        } else if j == 23 {
            assert(dist2(palette(13).0, palette(23).0) >= 2601) by {
                lemma_sq_dist(palette(13).0, palette(23).0, 204, 19, -8);
                assert(dist2(palette(13).0, palette(23).0) == 204 * 204 + 19 * 19 + -8 * -8);
            }
        }
    } else if i == 14 {
        if j == 15 {
            assert(dist2(palette(14).0, palette(15).0) >= 2601) by {
                lemma_sq_dist(palette(14).0, palette(15).0, 0, -255, 0);
                assert(dist2(palette(14).0, palette(15).0) == 0 * 0 + -255 * -255 + 0 * 0);
            }
        } else if j == 16 {
            assert(dist2(palette(14).0, palette(16).0) >= 2601) by {
                lemma_sq_dist(palette(14).0, palette(16).0, 0, 0, -255);
                assert(dist2(palette(14).0, palette(16).0) == 0 * 0 + 0 * 0 + -255 * -255);
            }
        } else if j == 17 {
            assert(dist2(palette(14).0, palette(17).0) >= 2601) by {
                lemma_sq_dist(palette(14).0, palette(17).0, 127, 0, -128);
                assert(dist2(palette(14).0, palette(17).0) == 127 * 127 + 0 * 0 + -128 * -128);
            }
        } else if j == 18 {
            assert(dist2(palette(14).0, palette(18).0) >= 2601) by {
                lemma_sq_dist(palette(14).0, palette(18).0, 96, -113, -62);
                assert(dist2(palette(14).0, palette(18).0) == 96 * 96 + -113 * -113 + -62 * -62);
            }
        } else if j == 19 {
            assert(dist2(palette(14).0, palette(19).0) >= 2601) by {
                lemma_sq_dist(palette(14).0, palette(19).0, 97, -86, -158);
                assert(dist2(palette(14).0, palette(19).0) == 97 * 97 + -86 * -86 + -158 * -158);
            }
        } else if j == 20 {
            assert(dist2(palette(14).0, palette(20).0) >= 2601) by {
                lemma_sq_dist(palette(14).0, palette(20).0, 127, -255, -221);
                assert(dist2(palette(14).0, palette(20).0) == 127 * 127 + -255 * -255 + -221 * -221);
            }
        } else if j == 21 {
            assert(dist2(palette(14).0, palette(21).0) >= 2601) by {
                lemma_sq_dist(palette(14).0, palette(21).0, 189, -130, -111);
                assert(dist2(palette(14).0, palette(21).0) == 189 * 189 + -130 * -130 + -111 * -111);
            }
        } else if j == 22 {
            assert(dist2(palette(14).0, palette(22).0) >= 2601) by {
                lemma_sq_dist(palette(14).0, palette(22).0, 112, -178, -111);
                assert(dist2(palette(14).0, palette(22).0) == 112 * 112 + -178 * -178 + -111 * -111);
            }
        } else if j == 23 {
            assert(dist2(palette(14).0, palette(23).0) >= 2601) by {
                lemma_sq_dist(palette(14).0, palette(23).0, 204, -109, -136);
                assert(dist2(palette(14).0, palette(23).0) == 204 * 204 + -109 * -109 + -136 * -136);
            }
        }
    } else if i == 15 {
        if j == 16 {
            assert(dist2(palette(15).0, palette(16).0) >= 2601) by {
                lemma_sq_dist(palette(15).0, palette(16).0, 0, 255, -255);
                assert(dist2(palette(15).0, palette(16).0) == 0 * 0 + 255 * 255 + -255 * -255);
            }
        } else if j == 17 {
            assert(dist2(palette(15).0, palette(17).0) >= 2601) by {
                lemma_sq_dist(palette(15).0, palette(17).0, 127, 255, -128);
                assert(dist2(palette(15).0, palette(17).0) == 127 * 127 + 255 * 255 + -128 * -128);
            }
        } else if j == 18 {
            assert(dist2(palette(15).0, palette(18).0) >= 2601) by {
                lemma_sq_dist(palette(15).0, palette(18).0, 96, 142, -62);
                assert(dist2(palette(15).0, palette(18).0) == 96 * 96 + 142 * 142 + -62 * -62);
            }
        } else if j == 19 {
            assert(dist2(palette(15).0, palette(19).0) >= 2601) by {
                lemma_sq_dist(palette(15).0, palette(19).0, 97, 169, -158);
                assert(dist2(palette(15).0, palette(19).0) == 97 * 97 + 169 * 169 + -158 * -158);
            }
        } else if j == 20 {
            assert(dist2(palette(15).0, palette(20).0) >= 2601) by {
                lemma_sq_dist(palette(15).0, palette(20).0, 127, 0, -221);
                assert(dist2(palette(15).0, palette(20).0) == 127 * 127 + 0 * 0 + -221 * -221);
            }
        } else if j == 21 {
            assert(dist2(palette(15).0, palette(21).0) >= 2601) by {
                lemma_sq_dist(palette(15).0, palette(21).0, 189, 125, -111);
                assert(dist2(palette(15).0, palette(21).0) == 189 * 189 + 125 * 125 + -111 * -111);
            }
        } else if j == 22 {
            assert(dist2(palette(15).0, palette(22).0) >= 2601) by {
                lemma_sq_dist(palette(15).0, palette(22).0, 112, 77, -111);
                assert(dist2(palette(15).0, palette(22).0) == 112 * 112 + 77 * 77 + -111 * -111);
            }
        } else if j == 23 {
            assert(dist2(palette(15).0, palette(23).0) >= 2601) by {
                lemma_sq_dist(palette(15).0, palette(23).0, 204, 146, -136);
                assert(dist2(palette(15).0, palette(23).0) == 204 * 204 + 146 * 146 + -136 * -136);
            }
        }
    } else if i == 16 {
        if j == 17 {
            assert(dist2(palette(16).0, palette(17).0) >= 2601) by {
                lemma_sq_dist(palette(16).0, palette(17).0, 127, 0, 127);
                assert(dist2(palette(16).0, palette(17).0) == 127 * 127 + 0 * 0 + 127 * 127);
            }
        } else if j == 18 {
            assert(dist2(palette(16).0, palette(18).0) >= 2601) by {
                lemma_sq_dist(palette(16).0, palette(18).0, 96, -113, 193);
                assert(dist2(palette(16).0, palette(18).0) == 96 * 96 + -113 * -113 + 193 * 193);
            }
        } else if j == 19 {
            assert(dist2(palette(16).0, palette(19).0) >= 2601) by {
                lemma_sq_dist(palette(16).0, palette(19).0, 97, -86, 97);
                assert(dist2(palette(16).0, palette(19).0) == 97 * 97 + -86 * -86 + 97 * 97);
            }
        } else if j == 20 {
            assert(dist2(palette(16).0, palette(20).0) >= 2601) by {
                lemma_sq_dist(palette(16).0, palette(20).0, 127, -255, 34);
                assert(dist2(palette(16).0, palette(20).0) == 127 * 127 + -255 * -255 + 34 * 34);
            }
        } else if j == 21 {
            assert(dist2(palette(16).0, palette(21).0) >= 2601) by {
                lemma_sq_dist(palette(16).0, palette(21).0, 189, -130, 144);
                assert(dist2(palette(16).0, palette(21).0) == 189 * 189 + -130 * -130 + 144 * 144);
            }
        } else if j == 22 {
            assert(dist2(palette(16).0, palette(22).0) >= 2601) by {
                lemma_sq_dist(palette(16).0, palette(22).0, 112, -178, 144);
                assert(dist2(palette(16).0, palette(22).0) == 112 * 112 + -178 * -178 + 144 * 144);
            }
        } else if j == 23 {
            assert(dist2(palette(16).0, palette(23).0) >= 2601) by {
                lemma_sq_dist(palette(16).0, palette(23).0, 204, -109, 119);
                assert(dist2(palette(16).0, palette(23).0) == 204 * 204 + -109 * -109 + 119 * 119);
            }
        }
    } else if i == 17 {
        if j == 18 {
            assert(dist2(palette(17).0, palette(18).0) >= 2601) by {
                lemma_sq_dist(palette(17).0, palette(18).0, -31, -113, 66);
                assert(dist2(palette(17).0, palette(18).0) == -31 * -31 + -113 * -113 + 66 * 66);
            }
        } else if j == 19 {
            assert(dist2(palette(17).0, palette(19).0) >= 2601) by {
                lemma_sq_dist(palette(17).0, palette(19).0, -30, -86, -30);
                assert(dist2(palette(17).0, palette(19).0) == -30 * -30 + -86 * -86 + -30 * -30);
            }
        } else if j == 20 {
            assert(dist2(palette(17).0, palette(20).0) >= 2601) by {
                lemma_sq_dist(palette(17).0, palette(20).0, 0, -255, -93);
                assert(dist2(palette(17).0, palette(20).0) == 0 * 0 + -255 * -255 + -93 * -93);
            }
        } else if j == 21 {
            assert(dist2(palette(17).0, palette(21).0) >= 2601) by {
                lemma_sq_dist(palette(17).0, palette(21).0, 62, -130, 17);
                assert(dist2(palette(17).0, palette(21).0) == 62 * 62 + -130 * -130 + 17 * 17);
            }
        } else if j == 22 {
            assert(dist2(palette(17).0, palette(22).0) >= 2601) by {
                lemma_sq_dist(palette(17).0, palette(22).0, -15, -178, 17);
                assert(dist2(palette(17).0, palette(22).0) == -15 * -15 + -178 * -178 + 17 * 17);
            }
        } else if j == 23 {
            assert(dist2(palette(17).0, palette(23).0) >= 2601) by {
                lemma_sq_dist(palette(17).0, palette(23).0, 77, -109, -8);
                assert(dist2(palette(17).0, palette(23).0) == 77 * 77 + -109 * -109 + -8 * -8);
            }
        }
    } else if i == 18 {
        if j == 19 {
            assert(dist2(palette(18).0, palette(19).0) >= 2601) by {
                lemma_sq_dist(palette(18).0, palette(19).0, 1, 27, -96);
                assert(dist2(palette(18).0, palette(19).0) == 1 * 1 + 27 * 27 + -96 * -96);
            }
        } else if j == 20 {
            assert(dist2(palette(18).0, palette(20).0) >= 2601) by {
                lemma_sq_dist(palette(18).0, palette(20).0, 31, -142, -159);
                assert(dist2(palette(18).0, palette(20).0) == 31 * 31 + -142 * -142 + -159 * -159);
            }
        } else if j == 21 {
            assert(dist2(palette(18).0, palette(21).0) >= 2601) by {
                lemma_sq_dist(palette(18).0, palette(21).0, 93, -17, -49);
                assert(dist2(palette(18).0, palette(21).0) == 93 * 93 + -17 * -17 + -49 * -49);
            }
        } else if j == 22 {
            assert(dist2(palette(18).0, palette(22).0) >= 2601) by {
                lemma_sq_dist(palette(18).0, palette(22).0, 16, -65, -49);
                assert(dist2(palette(18).0, palette(22).0) == 16 * 16 + -65 * -65 + -49 * -49);
            }
        } else if j == 23 {
            assert(dist2(palette(18).0, palette(23).0) >= 2601) by {
                lemma_sq_dist(palette(18).0, palette(23).0, 108, 4, -74);
                assert(dist2(palette(18).0, palette(23).0) == 108 * 108 + 4 * 4 + -74 * -74);
            }
        }
    } else if i == 19 {
        if j == 20 {
            assert(dist2(palette(19).0, palette(20).0) >= 2601) by {
                lemma_sq_dist(palette(19).0, palette(20).0, 30, -169, -63);
                assert(dist2(palette(19).0, palette(20).0) == 30 * 30 + -169 * -169 + -63 * -63);
            }
        } else if j == 21 {
            assert(dist2(palette(19).0, palette(21).0) >= 2601) by {
                lemma_sq_dist(palette(19).0, palette(21).0, 92, -44, 47);
                assert(dist2(palette(19).0, palette(21).0) == 92 * 92 + -44 * -44 + 47 * 47);
            }
        } else if j == 22 {
            assert(dist2(palette(19).0, palette(22).0) >= 2601) by {
                lemma_sq_dist(palette(19).0, palette(22).0, 15, -92, 47);
                assert(dist2(palette(19).0, palette(22).0) == 15 * 15 + -92 * -92 + 47 * 47);
            }
        } else if j == 23 {
            assert(dist2(palette(19).0, palette(23).0) >= 2601) by {
                lemma_sq_dist(palette(19).0, palette(23).0, 107, -23, 22);
                assert(dist2(palette(19).0, palette(23).0) == 107 * 107 + -23 * -23 + 22 * 22);
            }
        }
    } else if i == 20 {
        if j == 21 {
            assert(dist2(palette(20).0, palette(21).0) >= 2601) by {
                lemma_sq_dist(palette(20).0, palette(21).0, 62, 125, 110);
                assert(dist2(palette(20).0, palette(21).0) == 62 * 62 + 125 * 125 + 110 * 110);
            }
        } else if j == 22 {
            assert(dist2(palette(20).0, palette(22).0) >= 2601) by {
                lemma_sq_dist(palette(20).0, palette(22).0, -15, 77, 110);
                assert(dist2(palette(20).0, palette(22).0) == -15 * -15 + 77 * 77 + 110 * 110);
            }
        } else if j == 23 {
            assert(dist2(palette(20).0, palette(23).0) >= 2601) by {
                lemma_sq_dist(palette(20).0, palette(23).0, 77, 146, 85);
                assert(dist2(palette(20).0, palette(23).0) == 77 * 77 + 146 * 146 + 85 * 85);
            }
        }
    } else if i == 21 {
        if j == 22 {
            assert(dist2(palette(21).0, palette(22).0) >= 2601) by {
                lemma_sq_dist(palette(21).0, palette(22).0, -77, -48, 0);
                assert(dist2(palette(21).0, palette(22).0) == -77 * -77 + -48 * -48 + 0 * 0);
            }
        } else if j == 23 {}
    } else if i == 22 {
        if j == 23 {
            assert(dist2(palette(22).0, palette(23).0) >= 2601) by {
                lemma_sq_dist(palette(22).0, palette(23).0, 92, 69, -25);
                assert(dist2(palette(22).0, palette(23).0) == 92 * 92 + 69 * 69 + -25 * -25);
            }
        }
    }
}

/// Between two palette entries at the same minimal distance within the
/// tolerance, the one listed first decides the tile.
pub proof fn lemma_tie_goes_to_first(c: Rgb, i: int, j: int)
    requires
        0 <= i < j < PALETTE_LEN,
        dist2(c, palette(i).0) == dist2(c, palette(j).0),
        within_tolerance(c, palette(i).0),
        forall|k: int| 0 <= k < PALETTE_LEN ==> dist2(c, palette(i).0) <= #[trigger] dist2(c, palette(k).0),
    ensures
        nearest_entry(c) == i,
        classify(c) == Some(palette(i).1),
{
    lemma_nearest_among(c, PALETTE_LEN as nat);
    let k = nearest_entry(c);
    assert(dist2(c, palette(k).0) <= dist2(c, palette(i).0));
    if k != i {
        assert(dist2(c, palette(k).0) == dist2(c, palette(i).0));
        lemma_both_close(palette(i).0, palette(j).0, c);
        lemma_close_palette_pair(i, j);
        if k < i {
            lemma_both_close(palette(k).0, palette(i).0, c);
            lemma_close_palette_pair(k, i);
        } else {
            assert(dist2(c, palette(k).0) < dist2(c, palette(i).0));
        }
    }
}

/// Squared distance between two colors.
pub fn color_dist2(a: Rgb, b: Rgb) -> (r: u32)
    ensures
        r == dist2(a, b),
{
    let dr: i32 = a.r as i32 - b.r as i32;
    let dg: i32 = a.g as i32 - b.g as i32;
    let db: i32 = a.b as i32 - b.b as i32;
    assert(dr * dr <= 65025) by (nonlinear_arith)
        requires -255 <= dr <= 255;
    assert(dg * dg <= 65025) by (nonlinear_arith)
        requires -255 <= dg <= 255;
    assert(db * db <= 65025) by (nonlinear_arith)
        requires -255 <= db <= 255;
    assert(dr * dr >= 0) by (nonlinear_arith);
    assert(dg * dg >= 0) by (nonlinear_arith);
    assert(db * db >= 0) by (nonlinear_arith);
    (dr * dr + dg * dg + db * db) as u32
}

/// Converts a pixel color to the tile it selects: the nearest palette entry,
/// the first listed on a tie, provided it lies within the tolerance.
pub fn color_to_tile(c: Rgb) -> (r: Option<Tile>)
    ensures
        r == classify(c),
{
    let (first, first_tile) = palette_entry(0);
    let mut best: usize = 0;
    let mut best_dist: u32 = color_dist2(c, first);
    let mut best_tile: Tile = first_tile;
    let mut i: usize = 1;
    while i < PALETTE_LEN
        invariant
            1 <= i <= PALETTE_LEN,
            best == nearest_among(c, i as nat),
            best < PALETTE_LEN,
            best_dist == dist2(c, palette(best as int).0),
            best_tile == palette(best as int).1,
        decreases PALETTE_LEN - i,
    {
        let (color, tile) = palette_entry(i);
        let d = color_dist2(c, color);
        if d < best_dist {
            best = i;
            best_dist = d;
            best_tile = tile;
        }
        i = i + 1;
    }
    if 4 * (best_dist as u64) < 2601 {
        Some(best_tile)
    } else {
        None
    }
}

/// The luminance bucket of a hallway pixel, from its red channel: below 0.56
/// of full scale is 1, below 0.688 is 2, anything lighter is 3.
pub open spec fn red_bucket(r: u8) -> u8 {
    if r <= 142 {
        1
    } else if r <= 175 {
        2
    } else {
        3
    }
}

/// The tile a pixel decodes to: the tile its color selects, with a hallway
/// tile carrying the bucket of the pixel's red channel, and `Outside` for a
/// color that selects nothing.
pub open spec fn decoded(c: Rgb) -> Tile {
    match classify(c) {
        Some(Tile::Hallway(_)) => Tile::Hallway(red_bucket(c.r)),
        Some(t) => t,
        None => Tile::Outside,
    }
}

/// Decodes one pixel.
pub fn decode_pixel(c: Rgb) -> (t: Tile)
    ensures
        t == decoded(c),
{
    match color_to_tile(c) {
        Some(Tile::Hallway(_)) => {
            let b: u8 = if c.r <= 142 {
                1
            } else if c.r <= 175 {
                2
            } else {
                3
            };
            Tile::Hallway(b)
        },
        Some(t) => t,
        None => Tile::Outside,
    }
}

/// Tiles that take part in the power network: wires, outlets, sources,
/// mainframes, doors and the hazard robots.
pub open spec fn electrical(t: Tile) -> bool {
    match t {
        Tile::FloorWire | Tile::CrossFloorWire | Tile::WallWire | Tile::PowerSource
        | Tile::Outlet | Tile::ComputerMainframe | Tile::Door | Tile::Zappy => true,
        _ => false,
    }
}

/// Whether a tile takes part in the power network.
pub fn is_electrical(t: &Tile) -> (r: bool)
    ensures
        r == electrical(*t),
{
    match t {
        Tile::FloorWire | Tile::CrossFloorWire | Tile::WallWire | Tile::PowerSource
        | Tile::Outlet | Tile::ComputerMainframe | Tile::Door | Tile::Zappy => true,
        _ => false,
    }
}

/// Tiles a floor entity stands on.
pub open spec fn floor_like(t: Tile) -> bool {
    match t {
        Tile::Floor | Tile::FloorWire | Tile::CrossFloorWire | Tile::Outlet | Tile::Zipline => true,
        _ => false,
    }
}

/// Tiles that form a wall.
pub open spec fn wall_like(t: Tile) -> bool {
    match t {
        Tile::Wall | Tile::WallWire => true,
        _ => false,
    }
}

/// Tiles that raise their neighbours.
pub open spec fn raised(t: Tile) -> bool {
    match t {
        Tile::ElevatedFloor | Tile::Ramp => true,
        _ => false,
    }
}

/// Tiles that belong to a hallway junction.
pub open spec fn hallway(t: Tile) -> bool {
    t is Hallway
}

} // verus!
