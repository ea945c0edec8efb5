//! The level spawner: what every tile of a room turns into.
//!
//! The plan is given in the room's own grid coordinates; the caller adds the
//! room's shift and turns each placement into entities.
use vstd::prelude::*;
use crate::grid::{TileGrid, MAX_SIDE};
use crate::tile::{Tile, electrical, floor_like, wall_like, raised, is_electrical};

verus! {

/// One of the four grid directions; `Z` is the grid's second axis.
#[derive(Clone, Copy, Debug, PartialEq, Eq, Hash, Structural)]
pub enum Dir {
    PosX,
    PosZ,
    NegX,
    NegZ,
}

impl Dir {
    pub open spec fn dx(self) -> int {
        match self {
            Dir::PosX => 1,
            Dir::NegX => -1,
            _ => 0,
        }
    }

    pub open spec fn dz(self) -> int {
        match self {
            Dir::PosZ => 1,
            Dir::NegZ => -1,
            _ => 0,
        }
    }
}

/// What stands on a cell.
#[derive(Clone, Copy, Debug, PartialEq, Eq, Hash, Structural)]
pub enum Piece {
    /// The floor block under a cell.
    Floor,
    /// A block one level up, on elevated floor.
    RaisedBlock,
    Ramp,
    /// A visible wall block.
    Wall,
    /// An invisible block above a wall, hiding the room's interior.
    CeilingBlocker,
    Mainframe { facing: Dir },
    /// A hazard robot.
    Zappy,
    Well,
    Door,
    Crate,
    /// A laser emitter on a laser source, pointing at open floor.
    Laser { facing: Dir },
    SpawnPoint,
    Player,
    Outlet,
    PowerSource,
    /// A wire segment on the floor, from the cell's centre toward a neighbour.
    FloorWire { toward: Dir },
    /// A wire segment along the top of a wall, toward a neighbour.
    WallWire { toward: Dir },
}

/// A piece on a cell, raised by `lift` whole levels.
#[derive(Clone, Copy, Debug, PartialEq, Eq, Hash, Structural)]
pub struct Placement {
    pub piece: Piece,
    pub x: usize,
    pub z: usize,
    pub lift: u8,
}

/// The tile at a cell given in integers.
pub open spec fn tile(g: TileGrid, x: int, z: int) -> Tile {
    g.at(x, z)
}

/// Some cell of the 3x3 window around `(x, z)` is raised.
pub open spec fn window_raised(g: TileGrid, x: int, z: int) -> bool {
    raised(tile(g, x - 1, z - 1)) || raised(tile(g, x - 1, z)) || raised(tile(g, x - 1, z + 1))
        || raised(tile(g, x, z - 1)) || raised(tile(g, x, z)) || raised(tile(g, x, z + 1))
        || raised(tile(g, x + 1, z - 1)) || raised(tile(g, x + 1, z)) || raised(tile(g, x + 1, z + 1))
}

/// The cell or one of its edge neighbours is raised; a raised corner lifts
/// what stands on a cell but not its floor.
pub open spec fn cross_raised(g: TileGrid, x: int, z: int) -> bool {
    raised(tile(g, x, z)) || raised(tile(g, x - 1, z)) || raised(tile(g, x + 1, z)) || raised(
        tile(g, x, z - 1),
    ) || raised(tile(g, x, z + 1))
}

/// The tile spawns no floor block.
pub open spec fn skips_floor(t: Tile) -> bool {
    t == Tile::Outside || t == Tile::Well || t == Tile::ZiplineOverWell
}

/// The tile's floor is lifted beside raised floor.
pub open spec fn lifts_floor(t: Tile) -> bool {
    t == Tile::ComputerMainframe || t == Tile::Door || t == Tile::Crate || t == Tile::LaserSource
        || t == Tile::SpawnPoint || t == Tile::Zipline
}

/// What stands on the tile is lifted beside raised floor.
pub open spec fn lifts_entity(t: Tile) -> bool {
    lifts_floor(t) || t == Tile::ZiplineOverWell
}

/// Lift of the floor block of a cell.
pub open spec fn floor_lift(g: TileGrid, x: int, z: int) -> u8 {
    if lifts_floor(tile(g, x, z)) && cross_raised(g, x, z) {
        1
    } else {
        0
    }
}

/// Lift of what stands on a cell.
pub open spec fn entity_lift(g: TileGrid, x: int, z: int) -> u8 {
    if lifts_entity(tile(g, x, z)) && window_raised(g, x, z) {
        1
    } else {
        0
    }
}

/// A placement on cell `(x, z)`.
pub open spec fn place(piece: Piece, x: int, z: int, lift: u8) -> Placement {
    Placement { piece, x: x as usize, z: z as usize, lift }
}

/// A wire segment toward `d` when the neighbour that way is electrical.
pub open spec fn wire_toward(g: TileGrid, x: int, z: int, d: Dir, wall: bool, lift: u8) -> Seq<Placement> {
    if electrical(tile(g, x + d.dx(), z + d.dz())) {
        seq![place(if wall { Piece::WallWire { toward: d } } else { Piece::FloorWire { toward: d } }, x, z, lift)]
    } else {
        Seq::empty()
    }
}

/// Wire segments from a cell toward each electrical edge neighbour, in the
/// order -x, +x, -z, +z.
pub open spec fn wires(g: TileGrid, x: int, z: int, wall: bool, lift: u8) -> Seq<Placement> {
    wire_toward(g, x, z, Dir::NegX, wall, lift) + wire_toward(g, x, z, Dir::PosX, wall, lift)
        + wire_toward(g, x, z, Dir::NegZ, wall, lift) + wire_toward(g, x, z, Dir::PosZ, wall, lift)
}

/// A laser toward `d` when the neighbour that way is plain floor.
pub open spec fn laser_toward(g: TileGrid, x: int, z: int, d: Dir, lift: u8) -> Seq<Placement> {
    if tile(g, x + d.dx(), z + d.dz()) == Tile::Floor {
        seq![place(Piece::Laser { facing: d }, x, z, lift)]
    } else {
        Seq::empty()
    }
}

/// Lasers of a laser source, in the order +x, +z, -x, -z.
pub open spec fn lasers(g: TileGrid, x: int, z: int, lift: u8) -> Seq<Placement> {
    laser_toward(g, x, z, Dir::PosX, lift) + laser_toward(g, x, z, Dir::PosZ, lift) + laser_toward(
        g,
        x,
        z,
        Dir::NegX,
        lift,
    ) + laser_toward(g, x, z, Dir::NegZ, lift)
}

/// How much a mainframe wants to face `d`: open floor ahead counts most, a
/// crate ahead next, a wall behind least.
pub open spec fn facing_score(g: TileGrid, x: int, z: int, d: Dir) -> int {
    let ahead = tile(g, x + d.dx(), z + d.dz());
    let behind = tile(g, x - d.dx(), z - d.dz());
    (if floor_like(ahead) {
        999int
    } else {
        0int
    }) + (if ahead == Tile::Crate {
        500int
    } else {
        0int
    }) + (if wall_like(behind) {
        100int
    } else {
        0int
    })
}

/// The best-scoring of +x, +z, -x, -z; on a tie the later one.
pub open spec fn facing(g: TileGrid, x: int, z: int) -> Dir {
    let b1 = if facing_score(g, x, z, Dir::PosZ) >= facing_score(g, x, z, Dir::PosX) {
        Dir::PosZ
    } else {
        Dir::PosX
    };
    let b2 = if facing_score(g, x, z, Dir::NegX) >= facing_score(g, x, z, b1) {
        Dir::NegX
    } else {
        b1
    };
    if facing_score(g, x, z, Dir::NegZ) >= facing_score(g, x, z, b2) {
        Dir::NegZ
    } else {
        b2
    }
}

/// Tiles that end a crossing-wire run.
pub open spec fn stops_run(t: Tile) -> bool {
    t == Tile::Wall || t == Tile::Outside || electrical(t)
}

/// No cell strictly between `(x, z)` and `d` steps along `dir` ends a run.
pub open spec fn clear_run(g: TileGrid, x: int, z: int, dir: Dir, d: int) -> bool {
    forall|i: int| 1 <= i < d ==> !stops_run(#[trigger] tile(g, x + i * dir.dx(), z + i * dir.dz()))
}

/// The distance from a crossing wire to the next crossing wire along `dir`,
/// when only plain cells lie between them.
pub open spec fn bridge_len(g: TileGrid, x: int, z: int, dir: Dir) -> Option<int> {
    if exists|d: int|
        d >= 1 && clear_run(g, x, z, dir, d) && #[trigger] tile(g, x + d * dir.dx(), z + d * dir.dz())
            == Tile::CrossFloorWire {
        Some(
            choose|d: int|
                d >= 1 && clear_run(g, x, z, dir, d) && #[trigger] tile(g, x + d * dir.dx(), z + d
                    * dir.dz()) == Tile::CrossFloorWire,
        )
    } else {
        None
    }
}

/// The direction opposite to `d`.
pub open spec fn back(d: Dir) -> Dir {
    match d {
        Dir::PosX => Dir::NegX,
        Dir::NegX => Dir::PosX,
        Dir::PosZ => Dir::NegZ,
        Dir::NegZ => Dir::PosZ,
    }
}

/// The two floor-wire segments that carry a bridge across one cell: back
/// toward the crossing wire and on toward its partner.
pub open spec fn span_cell(x: int, z: int, dir: Dir) -> Seq<Placement> {
    seq![place(Piece::FloorWire { toward: back(dir) }, x, z, 0), place(Piece::FloorWire { toward: dir }, x, z, 0)]
}

/// Floor wires on every cell `1 .. n` steps along `dir`, each joined to the
/// cells before and after it whatever its other neighbours are.
pub open spec fn bridge_cells(g: TileGrid, x: int, z: int, dir: Dir, n: int) -> Seq<Placement>
    decreases n,
{
    if n <= 1 {
        Seq::empty()
    } else {
        bridge_cells(g, x, z, dir, n - 1) + span_cell(x + (n - 1) * dir.dx(), z + (n - 1) * dir.dz(), dir)
    }
}

/// The wires that bridge a crossing wire to its partner along `dir`.
pub open spec fn bridge(g: TileGrid, x: int, z: int, dir: Dir) -> Seq<Placement> {
    match bridge_len(g, x, z, dir) {
        Some(n) => bridge_cells(g, x, z, dir, n),
        None => Seq::empty(),
    }
}

/// The pieces a tile's rule spawns on its cell, after the floor.
pub open spec fn rule_pieces(g: TileGrid, x: int, z: int, spawn_player: bool) -> Seq<Placement> {
    let e = entity_lift(g, x, z);
    match tile(g, x, z) {
        Tile::ElevatedFloor => seq![place(Piece::RaisedBlock, x, z, e)],
        Tile::Ramp => seq![place(Piece::Ramp, x, z, e)],
        Tile::Wall => seq![place(Piece::Wall, x, z, e), place(Piece::CeilingBlocker, x, z, e)],
        Tile::ComputerMainframe => seq![place(Piece::Mainframe { facing: facing(g, x, z) }, x, z, e)],
        Tile::Zappy => wires(g, x, z, false, e).push(place(Piece::Zappy, x, z, e)),
        Tile::Well => seq![place(Piece::Well, x, z, e)],
        Tile::Door => seq![place(Piece::Door, x, z, e), place(Piece::CeilingBlocker, x, z, e)],
        Tile::Crate => seq![place(Piece::Crate, x, z, e)],
        Tile::LaserSource => seq![place(Piece::Wall, x, z, e), place(Piece::CeilingBlocker, x, z, e)]
            + lasers(g, x, z, e),
        Tile::PlayerStart => if spawn_player {
            seq![place(Piece::SpawnPoint, x, z, e), place(Piece::Player, x, z, e)]
        } else {
            Seq::empty()
        },
        Tile::SpawnPoint => seq![place(Piece::SpawnPoint, x, z, e)],
        Tile::ZiplineOverWell => seq![place(Piece::Well, x, z, e)],
        Tile::Outlet => seq![place(Piece::Outlet, x, z, e)],
        Tile::PowerSource => seq![place(Piece::PowerSource, x, z, e)],
        Tile::FloorWire => wires(g, x, z, false, e),
        Tile::CrossFloorWire => wires(g, x, z, false, e) + bridge(g, x, z, Dir::PosX) + bridge(
            g,
            x,
            z,
            Dir::PosZ,
        ),
        Tile::WallWire => seq![place(Piece::Wall, x, z, e), place(Piece::CeilingBlocker, x, z, e)]
            + wires(g, x, z, true, e),
        _ => Seq::empty(),
    }
}

/// Everything a cell spawns: its floor block, unless the tile skips it, then
/// the pieces of its rule.
pub open spec fn cell_pieces(g: TileGrid, x: int, z: int, spawn_player: bool) -> Seq<Placement> {
    let floor = if skips_floor(tile(g, x, z)) {
        Seq::empty()
    } else {
        seq![place(Piece::Floor, x, z, floor_lift(g, x, z))]
    };
    floor + rule_pieces(g, x, z, spawn_player)
}

/// `k` steps along a direction, without multiplication.
pub proof fn lemma_steps(dir: Dir, k: int)
    ensures
        k * dir.dx() == match dir {
            Dir::PosX => k,
            Dir::NegX => -k,
            _ => 0,
        },
        k * dir.dz() == match dir {
            Dir::PosZ => k,
            Dir::NegZ => -k,
            _ => 0,
        },
{
}

/// The direction opposite to `d`.
pub fn opposite(d: Dir) -> (r: Dir)
    ensures
        r == back(d),
{
    match d {
        Dir::PosX => Dir::NegX,
        Dir::NegX => Dir::PosX,
        Dir::PosZ => Dir::NegZ,
        Dir::NegZ => Dir::PosZ,
    }
}

/// The grid step of a direction.
pub fn dir_delta(d: Dir) -> (r: (i64, i64))
    ensures
        r.0 == d.dx(),
        r.1 == d.dz(),
{
    match d {
        Dir::PosX => (1, 0),
        Dir::PosZ => (0, 1),
        Dir::NegX => (-1, 0),
        Dir::NegZ => (0, -1),
    }
}

/// The tile `k` steps from `(x, z)` along `d`.
fn tile_along(g: &TileGrid, x: usize, z: usize, d: Dir, k: i64) -> (t: Tile)
    requires
        g.wf(),
        x < MAX_SIDE,
        z < MAX_SIDE,
        -2 <= k <= MAX_SIDE + 1,
    ensures
        t == tile(*g, x + k * d.dx(), z + k * d.dz()),
{
    let (dx, dz) = dir_delta(d);
    g.tile_at(x as i64 + k * dx, z as i64 + k * dz)
}

/// Appends `more` to `out`.
fn push_all(out: &mut Vec<Placement>, more: Vec<Placement>)
    ensures
        final(out)@ == old(out)@ + more@,
{
    let mut i: usize = 0;
    let ghost start = out@;
    while i < more.len()
        invariant
            i <= more.len(),
            out@ == start + more@.take(i as int),
        decreases more.len() - i,
    {
        out.push(more[i]);
        assert(more@.take(i + 1) == more@.take(i as int).push(more@[i as int]));
        i = i + 1;
    }
    assert(more@.take(more.len() as int) == more@);
}

/// A wire segment toward `d`, if the neighbour that way is electrical.
fn wire_toward_exec(g: &TileGrid, x: usize, z: usize, d: Dir, wall: bool, lift: u8, out: &mut Vec<Placement>)
    requires
        g.wf(),
        x < MAX_SIDE,
        z < MAX_SIDE,
    ensures
        final(out)@ == old(out)@ + wire_toward(*g, x as int, z as int, d, wall, lift),
{
    let t = tile_along(g, x, z, d, 1);
    if is_electrical(&t) {
        let piece = if wall {
            Piece::WallWire { toward: d }
        } else {
            Piece::FloorWire { toward: d }
        };
        out.push(Placement { piece, x, z, lift });
        assert(out@ =~= old(out)@ + wire_toward(*g, x as int, z as int, d, wall, lift));
    } else {
        assert(out@ =~= old(out)@ + wire_toward(*g, x as int, z as int, d, wall, lift));
    }
}

/// Wire segments from a cell toward each electrical edge neighbour.
pub fn spawn_floor_wire(g: &TileGrid, x: usize, z: usize, wall: bool, lift: u8) -> (r: Vec<Placement>)
    requires
        g.wf(),
        x < MAX_SIDE,
        z < MAX_SIDE,
    ensures
        r@ == wires(*g, x as int, z as int, wall, lift),
{
    let mut r: Vec<Placement> = Vec::new();
    wire_toward_exec(g, x, z, Dir::NegX, wall, lift, &mut r);
    wire_toward_exec(g, x, z, Dir::PosX, wall, lift, &mut r);
    wire_toward_exec(g, x, z, Dir::NegZ, wall, lift, &mut r);
    wire_toward_exec(g, x, z, Dir::PosZ, wall, lift, &mut r);
    assert(r@ =~= wires(*g, x as int, z as int, wall, lift));
    r
}

/// A laser toward `d`, if the neighbour that way is plain floor.
fn laser_toward_exec(g: &TileGrid, x: usize, z: usize, d: Dir, lift: u8, out: &mut Vec<Placement>)
    requires
        g.wf(),
        x < MAX_SIDE,
        z < MAX_SIDE,
    ensures
        final(out)@ == old(out)@ + laser_toward(*g, x as int, z as int, d, lift),
{
    let t = tile_along(g, x, z, d, 1);
    if t == Tile::Floor {
        out.push(Placement { piece: Piece::Laser { facing: d }, x, z, lift });
    }
    assert(out@ =~= old(out)@ + laser_toward(*g, x as int, z as int, d, lift));
}

/// The score of facing `d`.
fn facing_score_exec(g: &TileGrid, x: usize, z: usize, d: Dir) -> (r: u32)
    requires
        g.wf(),
        x < MAX_SIDE,
        z < MAX_SIDE,
    ensures
        r == facing_score(*g, x as int, z as int, d),
{
    let ahead = tile_along(g, x, z, d, 1);
    let behind = tile_along(g, x, z, d, -1);
    let mut score: u32 = 0;
    if matches!(ahead, Tile::Floor | Tile::FloorWire | Tile::CrossFloorWire | Tile::Outlet | Tile::Zipline) {
        score = score + 999;
    }
    if ahead == Tile::Crate {
        score = score + 500;
    }
    if matches!(behind, Tile::Wall | Tile::WallWire) {
        score = score + 100;
    }
    score
}

/// The direction a mainframe faces.
pub fn mainframe_facing(g: &TileGrid, x: usize, z: usize) -> (r: Dir)
    requires
        g.wf(),
        x < MAX_SIDE,
        z < MAX_SIDE,
    ensures
        r == facing(*g, x as int, z as int),
{
    let mut best = Dir::PosX;
    let mut best_score = facing_score_exec(g, x, z, Dir::PosX);
    let s = facing_score_exec(g, x, z, Dir::PosZ);
    if s >= best_score {
        best = Dir::PosZ;
        best_score = s;
    }
    let s = facing_score_exec(g, x, z, Dir::NegX);
    if s >= best_score {
        best = Dir::NegX;
        best_score = s;
    }
    let s = facing_score_exec(g, x, z, Dir::NegZ);
    if s >= best_score {
        best = Dir::NegZ;
    }
    best
}

/// Whether a tile ends a crossing-wire run.
fn stops_run_exec(t: Tile) -> (r: bool)
    ensures
        r == stops_run(t),
{
    t == Tile::Wall || t == Tile::Outside || is_electrical(&t)
}

/// The cell `k` steps from `(x, z)` along `dir`, which lies in the grid.
fn step_cell(g: &TileGrid, x: usize, z: usize, dir: Dir, k: usize) -> (r: (usize, usize))
    requires
        g.wf(),
        g.in_bounds(x + k * dir.dx(), z + k * dir.dz()),
    ensures
        r.0 == x + k * dir.dx(),
        r.1 == z + k * dir.dz(),
        r.0 < g.width,
        r.1 < g.height,
{
    proof {
        lemma_steps(dir, k as int);
    }
    match dir {
        Dir::PosX => (x + k, z),
        Dir::NegX => (x - k, z),
        Dir::PosZ => (x, z + k),
        Dir::NegZ => (x, z - k),
    }
}

/// The wires bridging a crossing wire to the next one along `dir`.
pub fn cross_bridge(g: &TileGrid, x: usize, z: usize, dir: Dir) -> (r: Vec<Placement>)
    requires
        g.wf(),
        x < g.width,
        z < g.height,
    ensures
        r@ == bridge(*g, x as int, z as int, dir),
{
    let mut dist: i64 = 1;
    let mut t = tile_along(g, x, z, dir, 1);
    while !stops_run_exec(t)
        invariant
            g.wf(),
            x < g.width,
            z < g.height,
            1 <= dist <= MAX_SIDE,
            clear_run(*g, x as int, z as int, dir, dist as int),
            t == tile(*g, x + dist * dir.dx(), z + dist * dir.dz()),
        decreases MAX_SIDE - dist,
    {
        proof {
            lemma_steps(dir, dist as int);
            assert(g.in_bounds(x + dist * dir.dx(), z + dist * dir.dz()));
            assert(dist < MAX_SIDE);
            assert forall|i: int| 1 <= i < dist + 1 implies !stops_run(#[trigger] tile(*g, x + i * dir.dx(), z + i * dir.dz())) by {
                if i < dist {
                    assert(!stops_run(tile(*g, x + i * dir.dx(), z + i * dir.dz())));
                }
            }
        }
        dist = dist + 1;
        t = tile_along(g, x, z, dir, dist);
    }
    let ghost xi = x as int;
    let ghost zi = z as int;
    if t != Tile::CrossFloorWire {
        proof {
            if bridge_len(*g, xi, zi, dir) is Some {
                let d = choose|d: int|
                    d >= 1 && clear_run(*g, xi, zi, dir, d) && #[trigger] tile(*g, xi + d * dir.dx(), zi + d * dir.dz()) == Tile::CrossFloorWire;
                if d < dist {
                    assert(!stops_run(tile(*g, xi + d * dir.dx(), zi + d * dir.dz())));
                } else if d > dist {
                    assert(!stops_run(tile(*g, xi + dist * dir.dx(), zi + dist * dir.dz())));
                }
            }
        }
        return Vec::new();
    }
    proof {
        let d = choose|d: int|
            d >= 1 && clear_run(*g, xi, zi, dir, d) && #[trigger] tile(*g, xi + d * dir.dx(), zi + d * dir.dz()) == Tile::CrossFloorWire;
        if d < dist {
            assert(!stops_run(tile(*g, xi + d * dir.dx(), zi + d * dir.dz())));
        } else if d > dist {
            assert(!stops_run(tile(*g, xi + dist * dir.dx(), zi + dist * dir.dz())));
        }
        assert(bridge_len(*g, xi, zi, dir) == Some(dist as int));
    }
    let n = dist as usize;
    let mut r: Vec<Placement> = Vec::new();
    let mut i: usize = 1;
    while i < n
        invariant
            g.wf(),
            x < g.width,
            z < g.height,
            1 <= i <= n <= MAX_SIDE,
            xi == x,
            zi == z,
            clear_run(*g, xi, zi, dir, n as int),
            r@ == bridge_cells(*g, xi, zi, dir, i as int),
        decreases n - i,
    {
        proof {
            lemma_steps(dir, i as int);
            assert(!stops_run(tile(*g, xi + i * dir.dx(), zi + i * dir.dz())));
            assert(g.in_bounds(xi + i * dir.dx(), zi + i * dir.dz()));
        }
        let (cx, cz) = step_cell(g, x, z, dir, i);
        let ghost before = r@;
        r.push(Placement { piece: Piece::FloorWire { toward: opposite(dir) }, x: cx, z: cz, lift: 0 });
        r.push(Placement { piece: Piece::FloorWire { toward: dir }, x: cx, z: cz, lift: 0 });
        assert(r@ =~= before + span_cell(cx as int, cz as int, dir));
        i = i + 1;
    }
    r
}

/// Whether the tile at `(x, z)` is raised.
fn raised_at(g: &TileGrid, x: i64, z: i64) -> (r: bool)
    requires
        g.wf(),
    ensures
        r == raised(tile(*g, x as int, z as int)),
{
    matches!(g.tile_at(x, z), Tile::ElevatedFloor | Tile::Ramp)
}

/// The floor lift and the entity lift of a cell.
pub fn cell_lifts(g: &TileGrid, x: usize, z: usize) -> (r: (u8, u8))
    requires
        g.wf(),
        x < MAX_SIDE,
        z < MAX_SIDE,
    ensures
        r.0 == floor_lift(*g, x as int, z as int),
        r.1 == entity_lift(*g, x as int, z as int),
{
    let t = g.tile_at(x as i64, z as i64);
    let xi = x as i64;
    let zi = z as i64;
    let cross = raised_at(g, xi, zi) || raised_at(g, xi - 1, zi) || raised_at(g, xi + 1, zi)
        || raised_at(g, xi, zi - 1) || raised_at(g, xi, zi + 1);
    let window = cross || raised_at(g, xi - 1, zi - 1) || raised_at(g, xi - 1, zi + 1)
        || raised_at(g, xi + 1, zi - 1) || raised_at(g, xi + 1, zi + 1);
    let lifts_floor = matches!(t, Tile::ComputerMainframe | Tile::Door | Tile::Crate | Tile::LaserSource | Tile::SpawnPoint | Tile::Zipline);
    let lifts_entity = lifts_floor || t == Tile::ZiplineOverWell;
    let f: u8 = if lifts_floor && cross { 1 } else { 0 };
    let e: u8 = if lifts_entity && window { 1 } else { 0 };
    (f, e)
}

/// The pieces of the tiles whose rule involves wires or lasers.
fn spawn_wired(g: &TileGrid, x: usize, z: usize, t: Tile, e: u8) -> (r: Vec<Placement>)
    requires
        g.wf(),
        x < g.width,
        z < g.height,
        t == tile(*g, x as int, z as int),
        e == entity_lift(*g, x as int, z as int),
        t == Tile::Zappy || t == Tile::FloorWire || t == Tile::CrossFloorWire || t == Tile::WallWire
            || t == Tile::LaserSource,
    ensures
        r@ == rule_pieces(*g, x as int, z as int, false),
{
    let ghost xi = x as int;
    let ghost zi = z as int;
    let mut r: Vec<Placement> = Vec::new();
    match t {
        Tile::Zappy => {
            r = spawn_floor_wire(g, x, z, false, e);
            r.push(Placement { piece: Piece::Zappy, x, z, lift: e });
        },
        Tile::FloorWire => {
            r = spawn_floor_wire(g, x, z, false, e);
        },
        Tile::CrossFloorWire => {
            r = spawn_floor_wire(g, x, z, false, e);
            let bx = cross_bridge(g, x, z, Dir::PosX);
            push_all(&mut r, bx);
            let bz = cross_bridge(g, x, z, Dir::PosZ);
            push_all(&mut r, bz);
        },
        Tile::WallWire => {
            r.push(Placement { piece: Piece::Wall, x, z, lift: e });
            r.push(Placement { piece: Piece::CeilingBlocker, x, z, lift: e });
            let w = spawn_floor_wire(g, x, z, true, e);
            push_all(&mut r, w);
        },
        _ => {
            r.push(Placement { piece: Piece::Wall, x, z, lift: e });
            r.push(Placement { piece: Piece::CeilingBlocker, x, z, lift: e });
            let ghost before = r@;
            laser_toward_exec(g, x, z, Dir::PosX, e, &mut r);
            laser_toward_exec(g, x, z, Dir::PosZ, e, &mut r);
            laser_toward_exec(g, x, z, Dir::NegX, e, &mut r);
            laser_toward_exec(g, x, z, Dir::NegZ, e, &mut r);
            assert(r@ =~= before + lasers(*g, xi, zi, e));
        },
    }
    assert(r@ =~= rule_pieces(*g, xi, zi, false));
    r
}

/// The pieces of the tiles whose rule places a fixed set of pieces.
fn spawn_plain(g: &TileGrid, x: usize, z: usize, t: Tile, e: u8, spawn_player: bool) -> (r: Vec<Placement>)
    requires
        g.wf(),
        x < g.width,
        z < g.height,
        t == tile(*g, x as int, z as int),
        e == entity_lift(*g, x as int, z as int),
        !(t == Tile::Zappy || t == Tile::FloorWire || t == Tile::CrossFloorWire || t == Tile::WallWire
            || t == Tile::LaserSource),
    ensures
        r@ == rule_pieces(*g, x as int, z as int, spawn_player),
{
    let ghost xi = x as int;
    let ghost zi = z as int;
    let mut r: Vec<Placement> = Vec::new();
    match t {
        Tile::ElevatedFloor => r.push(Placement { piece: Piece::RaisedBlock, x, z, lift: e }),
        Tile::Ramp => r.push(Placement { piece: Piece::Ramp, x, z, lift: e }),
        Tile::Wall => {
            r.push(Placement { piece: Piece::Wall, x, z, lift: e });
            r.push(Placement { piece: Piece::CeilingBlocker, x, z, lift: e });
        },
        Tile::ComputerMainframe => {
            let facing = mainframe_facing(g, x, z);
            r.push(Placement { piece: Piece::Mainframe { facing }, x, z, lift: e });
        },
        Tile::Well | Tile::ZiplineOverWell => r.push(Placement { piece: Piece::Well, x, z, lift: e }),
        Tile::Door => {
            r.push(Placement { piece: Piece::Door, x, z, lift: e });
            r.push(Placement { piece: Piece::CeilingBlocker, x, z, lift: e });
        },
        Tile::Crate => r.push(Placement { piece: Piece::Crate, x, z, lift: e }),
        Tile::PlayerStart => {
            if spawn_player {
                r.push(Placement { piece: Piece::SpawnPoint, x, z, lift: e });
                r.push(Placement { piece: Piece::Player, x, z, lift: e });
            }
        },
        Tile::SpawnPoint => r.push(Placement { piece: Piece::SpawnPoint, x, z, lift: e }),
        Tile::Outlet => r.push(Placement { piece: Piece::Outlet, x, z, lift: e }),
        Tile::PowerSource => r.push(Placement { piece: Piece::PowerSource, x, z, lift: e }),
        _ => {},
    }
    assert(r@ =~= rule_pieces(*g, xi, zi, spawn_player));
    r
}

/// Everything a cell spawns, in order.
pub fn spawn_cell(g: &TileGrid, x: usize, z: usize, spawn_player: bool) -> (r: Vec<Placement>)
    requires
        g.wf(),
        x < g.width,
        z < g.height,
    ensures
        r@ == cell_pieces(*g, x as int, z as int, spawn_player),
{
    let t = g.tile_at(x as i64, z as i64);
    let (fl, e) = cell_lifts(g, x, z);
    let mut r: Vec<Placement> = Vec::new();
    if !(t == Tile::Outside || t == Tile::Well || t == Tile::ZiplineOverWell) {
        r.push(Placement { piece: Piece::Floor, x, z, lift: fl });
    }
    let wired = t == Tile::Zappy || t == Tile::FloorWire || t == Tile::CrossFloorWire || t == Tile::WallWire
        || t == Tile::LaserSource;
    let more = if wired {
        spawn_wired(g, x, z, t, e)
    } else {
        spawn_plain(g, x, z, t, e, spawn_player)
    };
    push_all(&mut r, more);
    assert(r@ =~= cell_pieces(*g, x as int, z as int, spawn_player));
    r
}

/// The pieces of the first `k` cells, in `(x, z)` order.
pub open spec fn plan_upto(g: TileGrid, spawn_player: bool, k: nat) -> Seq<Placement>
    decreases k,
{
    if k == 0 || g.height == 0 {
        Seq::empty()
    } else {
        plan_upto(g, spawn_player, (k - 1) as nat) + cell_pieces(
            g,
            (k - 1) / (g.height as int),
            (k - 1) % (g.height as int),
            spawn_player,
        )
    }
}

/// The pieces of a whole room.
pub open spec fn room_plan(g: TileGrid, spawn_player: bool) -> Seq<Placement> {
    plan_upto(g, spawn_player, (g.width * g.height) as nat)
}

/// Plans a room: every cell once, in `(x, z)` order, each spawning its floor
/// and the pieces its tile's rule calls for.
pub fn load_level(g: &TileGrid, spawn_player: bool) -> (r: Vec<Placement>)
    requires
        g.wf(),
    ensures
        r@ == room_plan(*g, spawn_player),
{
    let mut r: Vec<Placement> = Vec::new();
    let mut x: usize = 0;
    while x < g.width
        invariant
            g.wf(),
            x <= g.width,
            r@ == plan_upto(*g, spawn_player, (x * g.height) as nat),
        decreases g.width - x,
    {
        let mut z: usize = 0;
        while z < g.height
            invariant
                g.wf(),
                x < g.width,
                z <= g.height,
                r@ == plan_upto(*g, spawn_player, (x * g.height + z) as nat),
            decreases g.height - z,
        {
            proof {
                crate::hallway::lemma_scan_cell(*g, x as int, z as int);
            }
            let more = spawn_cell(g, x, z, spawn_player);
            push_all(&mut r, more);
            z = z + 1;
        }
        assert(x * g.height + g.height == (x + 1) * g.height) by (nonlinear_arith);
        x = x + 1;
    }
    r
}

proof fn lemma_plan_prefix(g: TileGrid, spawn_player: bool, k: nat, n: nat)
    requires
        k <= n,
    ensures
        plan_upto(g, spawn_player, k).len() <= plan_upto(g, spawn_player, n).len(),
        forall|i: int|
            0 <= i < plan_upto(g, spawn_player, k).len() ==> #[trigger] plan_upto(g, spawn_player, n)[i]
                == plan_upto(g, spawn_player, k)[i],
    decreases n - k,
{
    if k < n {
        lemma_plan_prefix(g, spawn_player, k, (n - 1) as nat);
    }
}

/// Every cell of a room whose tile keeps its floor gets its floor block, at
/// the cell's floor lift, in the room's plan.
pub proof fn lemma_every_floor_planned(g: TileGrid, spawn_player: bool, x: int, z: int)
    requires
        g.wf(),
        g.in_bounds(x, z),
        !skips_floor(tile(g, x, z)),
    ensures
        room_plan(g, spawn_player).contains(place(Piece::Floor, x, z, floor_lift(g, x, z))),
{
    let k = x * g.height + z;
    crate::hallway::lemma_scan_cell(g, x, z);
    assert(k + 1 <= g.width * g.height) by (nonlinear_arith)
        requires
            0 <= x < g.width,
            0 <= z < g.height,
            k == x * g.height + z,
    ;
    let before = plan_upto(g, spawn_player, k as nat);
    let here = plan_upto(g, spawn_player, (k + 1) as nat);
    assert(here == before + cell_pieces(g, x, z, spawn_player));
    assert(here[before.len() as int] == place(Piece::Floor, x, z, floor_lift(g, x, z)));
    lemma_plan_prefix(g, spawn_player, (k + 1) as nat, (g.width * g.height) as nat);
    assert(room_plan(g, spawn_player)[before.len() as int] == here[before.len() as int]);
}

proof fn lemma_bridge_cells_cover(g: TileGrid, x: int, z: int, dir: Dir, n: int, i: int)
    requires
        1 <= i < n,
    ensures
        bridge_cells(g, x, z, dir, n).contains(place(Piece::FloorWire { toward: dir }, x + i * dir.dx(), z + i * dir.dz(), 0)),
        bridge_cells(g, x, z, dir, n).contains(place(Piece::FloorWire { toward: back(dir) }, x + i * dir.dx(), z + i * dir.dz(), 0)),
    decreases n,
{
    let prev = bridge_cells(g, x, z, dir, n - 1);
    let all = bridge_cells(g, x, z, dir, n);
    let fwd = place(Piece::FloorWire { toward: dir }, x + i * dir.dx(), z + i * dir.dz(), 0);
    let bwd = place(Piece::FloorWire { toward: back(dir) }, x + i * dir.dx(), z + i * dir.dz(), 0);
    if i < n - 1 {
        lemma_bridge_cells_cover(g, x, z, dir, n - 1, i);
        let a = choose|a: int| 0 <= a < prev.len() && prev[a] == fwd;
        let b = choose|b: int| 0 <= b < prev.len() && prev[b] == bwd;
        assert(all[a] == prev[a]);
        assert(all[b] == prev[b]);
    } else {
        assert(all[prev.len() as int + 1] == fwd);
        assert(all[prev.len() as int] == bwd);
    }
}

/// A crossing wire whose partner lies `n` cells along `dir` wires every cell
/// between them, with segments both back and on along the run.
pub proof fn lemma_bridge_spans_run(g: TileGrid, x: int, z: int, dir: Dir, i: int)
    requires
        bridge_len(g, x, z, dir) matches Some(n) && 1 <= i < n,
    ensures
        bridge(g, x, z, dir).contains(place(Piece::FloorWire { toward: dir }, x + i * dir.dx(), z + i * dir.dz(), 0)),
        bridge(g, x, z, dir).contains(place(Piece::FloorWire { toward: back(dir) }, x + i * dir.dx(), z + i * dir.dz(), 0)),
{
    lemma_bridge_cells_cover(g, x, z, dir, bridge_len(g, x, z, dir).unwrap(), i);
}

} // verus!
