//! Hallway junctions: the regions that connect rooms, their fingerprints, and
//! the shift that lines two rooms up on a shared junction.
use vstd::prelude::*;
use vstd::arithmetic::div_mod::lemma_fundamental_div_mod_converse;
use vstd::set_lib::{set_int_range, lemma_int_range, lemma_len_subset};
use crate::grid::{
    TileGrid, Mask, TileKind, tile_mask, tile_mask_spec, cell_index, lemma_cell_index,
    lemma_cell_index_injective, MAX_SIDE,
};
use crate::region::{Connectivity, grow_region, region_of, fill_step, adjacent, pt, can_seed};
use crate::reach::{reachable, closed_under, lemma_reachable_mono, lemma_closed_holds_reachable};
use crate::tile::Tile;

verus! {

/// The luminance bucket a hallway tile contributes to a fingerprint.
pub open spec fn shade(t: Tile) -> int {
    match t {
        Tile::Hallway(b) => b as int,
        _ => 0,
    }
}

/// The fingerprint of the cells of `s` among the first `k` cells of `g` in
/// `(x, y)` order: each bucket is a base-4 digit, kept to 32 bits.
pub open spec fn fold_fingerprint(g: TileGrid, s: Set<(usize, usize)>, k: nat) -> int
    decreases k,
{
    if k == 0 || g.height == 0 {
        0
    } else {
        let prev = fold_fingerprint(g, s, (k - 1) as nat);
        let x = (k - 1) / (g.height as int);
        let y = (k - 1) % (g.height as int);
        if s.contains((x as usize, y as usize)) {
            (prev * 4 + shade(g.at(x, y))) % 0x1_0000_0000
        } else {
            prev
        }
    }
}

/// The fingerprint of a set of cells: their buckets folded in `(x, y)` order.
pub open spec fn fingerprint(g: TileGrid, s: Set<(usize, usize)>) -> int {
    fold_fingerprint(g, s, (g.width * g.height) as nat)
}

pub proof fn lemma_scan_cell(g: TileGrid, x: int, y: int)
    requires
        g.height > 0,
        0 <= x,
        0 <= y < g.height,
    ensures
        (x * g.height + y) / (g.height as int) == x,
        (x * g.height + y) % (g.height as int) == y,
{
    lemma_fundamental_div_mod_converse(x * g.height + y, g.height as int, x, y);
}

proof fn lemma_scan_bounds(g: TileGrid, k: int)
    requires
        g.height > 0,
        0 <= k < g.width * g.height,
    ensures
        0 <= k / (g.height as int) < g.width,
        0 <= k % (g.height as int) < g.height,
{
    let h = g.height as int;
    let w = g.width as int;
    vstd::arithmetic::div_mod::lemma_fundamental_div_mod(k, h);
    let x = k / h;
    let y = k % h;
    assert(0 <= x < w) by (nonlinear_arith)
        requires
            k == h * x + y,
            0 <= y < h,
            0 <= k < w * h,
    ;
}

/// Sets that agree on the cells of the grid have the same fingerprint.
proof fn lemma_fold_agree(g: TileGrid, s1: Set<(usize, usize)>, s2: Set<(usize, usize)>, k: nat)
    requires
        g.wf(),
        k <= g.width * g.height,
        forall|c: (usize, usize)| c.0 < g.width && c.1 < g.height ==> (#[trigger] s1.contains(c) == s2.contains(c)),
    ensures
        fold_fingerprint(g, s1, k) == fold_fingerprint(g, s2, k),
    decreases k,
{
    if k > 0 && g.height > 0 {
        lemma_fold_agree(g, s1, s2, (k - 1) as nat);
        let x = (k - 1) / (g.height as int);
        let y = (k - 1) % (g.height as int);
        lemma_scan_bounds(g, (k - 1) as int);
        assert(s1.contains((x as usize, y as usize)) == s2.contains((x as usize, y as usize)));
    }
}

/// The bucket of a tile.
fn tile_shade(t: Tile) -> (r: u8)
    ensures
        r == shade(t),
{
    match t {
        Tile::Hallway(b) => b,
        _ => 0,
    }
}

/// The fingerprint of the cells a mask holds.
fn mask_fingerprint(g: &TileGrid, m: &Mask) -> (r: u32)
    requires
        g.wf(),
        m.wf(),
        m.width == g.width,
        m.height == g.height,
    ensures
        r == fingerprint(*g, Set::new(|c: (usize, usize)| m.holds(c))),
{
    let ghost s = Set::new(|c: (usize, usize)| m.holds(c));
    let mut fp: u32 = 0;
    let mut x: usize = 0;
    while x < g.width
        invariant
            g.wf(),
            m.wf(),
            m.width == g.width,
            m.height == g.height,
            s == Set::new(|c: (usize, usize)| m.holds(c)),
            x <= g.width,
            fp == fold_fingerprint(*g, s, (x * g.height) as nat),
        decreases g.width - x,
    {
        let mut y: usize = 0;
        while y < g.height
            invariant
                g.wf(),
                m.wf(),
                m.width == g.width,
                m.height == g.height,
                s == Set::new(|c: (usize, usize)| m.holds(c)),
                x < g.width,
                y <= g.height,
                fp == fold_fingerprint(*g, s, (x * g.height + y) as nat),
            decreases g.height - y,
        {
            proof {
                lemma_scan_cell(*g, x as int, y as int);
                assert((x * g.height + y) + 1 <= g.width * g.height) by (nonlinear_arith)
                    requires
                        x < g.width,
                        y < g.height,
                ;
                assert(s.contains((x, y)) == m.holds((x, y)));
            }
            if m.get(x, y) {
                let t = g.tile_at(x as i64, y as i64);
                fp = ((fp as u64 * 4 + tile_shade(t) as u64) % 0x1_0000_0000) as u32;
            }
            y = y + 1;
        }
        assert(x * g.height + g.height == (x + 1) * g.height) by (nonlinear_arith);
        x = x + 1;
    }
    fp
}

/// The fingerprint of a hallway region given by its cells in any order.
///
/// Cells are taken in `(x, y)` order whatever order they are listed in, so
/// the order in which a flood fill happened to discover them does not matter.
pub fn fingerprint_cells(g: &TileGrid, cells: &Vec<(usize, usize)>) -> (r: u32)
    requires
        g.wf(),
    ensures
        r == fingerprint(*g, cells@.to_set()),
{
    let mut m = Mask::empty(g.width, g.height);
    let mut i: usize = 0;
    while i < cells.len()
        invariant
            g.wf(),
            m.wf(),
            m.width == g.width,
            m.height == g.height,
            i <= cells.len(),
            forall|c: (usize, usize)|
                c.0 < g.width && c.1 < g.height ==> (#[trigger] m.holds(c) == cells@.take(
                    i as int,
                ).contains(c)),
        decreases cells.len() - i,
    {
        let c = cells[i];
        let ghost before = m;
        if c.0 < g.width && c.1 < g.height {
            m.insert(c.0, c.1);
        }
        proof {
            let next = cells@.take(i + 1);
            let prev = cells@.take(i as int);
            assert(next == prev.push(c));
            assert forall|d: (usize, usize)|
                d.0 < g.width && d.1 < g.height implies (#[trigger] m.holds(d) == cells@.take(
                i + 1,
            ).contains(d)) by {
                assert(before.holds(d) == cells@.take(i as int).contains(d));
                if d == c {
                    assert(cells@.take(i + 1)[i as int] == c);
                } else if next.contains(d) {
                    let j = choose|j: int| 0 <= j < next.len() && next[j] == d;
                    assert(prev[j] == d);
                }
            }
        }
        i = i + 1;
    }
    proof {
        assert(cells@.take(cells.len() as int) == cells@);
        lemma_fold_agree(
            *g,
            Set::new(|c: (usize, usize)| m.holds(c)),
            cells@.to_set(),
            (g.width * g.height) as nat,
        );
    }
    mask_fingerprint(g, &m)
}

/// Listing the same cells in another order leaves the fingerprint unchanged.
pub proof fn lemma_fingerprint_order_free(g: TileGrid, a: Seq<(usize, usize)>, b: Seq<(usize, usize)>)
    requires
        a.to_multiset() == b.to_multiset(),
    ensures
        fingerprint(g, a.to_set()) == fingerprint(g, b.to_set()),
{
    broadcast use vstd::seq_lib::to_multiset_contains;
    assert forall|c: (usize, usize)| a.to_set().contains(c) == b.to_set().contains(c) by {
        if a.contains(c) {
            assert(a.to_multiset().count(c) > 0);
            assert(b.contains(c));
        }
        if b.contains(c) {
            assert(b.to_multiset().count(c) > 0);
            assert(a.contains(c));
        }
    }
    assert(a.to_set() =~= b.to_set());
}

/// Sum of the x coordinates of the cells.
pub open spec fn sum_x(s: Seq<(usize, usize)>) -> int
    decreases s.len(),
{
    if s.len() == 0 {
        0
    } else {
        sum_x(s.drop_last()) + s.last().0
    }
}

/// Sum of the y coordinates of the cells.
pub open spec fn sum_y(s: Seq<(usize, usize)>) -> int
    decreases s.len(),
{
    if s.len() == 0 {
        0
    } else {
        sum_y(s.drop_last()) + s.last().1
    }
}

/// Distinct cells of a grid are no more than the grid has.
proof fn lemma_cells_len(w: int, h: int, s: Seq<(usize, usize)>)
    requires
        w >= 0,
        h >= 0,
        s.no_duplicates(),
        forall|i: int| 0 <= i < s.len() ==> (#[trigger] s[i]).0 < w && s[i].1 < h,
    ensures
        s.len() <= w * h,
{
    let idx = s.map_values(|c: (usize, usize)| cell_index(w, c.0 as int, c.1 as int));
    assert(idx.no_duplicates()) by {
        assert forall|i: int, j: int| 0 <= i < idx.len() && 0 <= j < idx.len() && i != j implies idx[i] != idx[j] by {
            if idx[i] == idx[j] {
                lemma_cell_index_injective(w, s[i].0 as int, s[i].1 as int, s[j].0 as int, s[j].1 as int);
            }
        }
    }
    lemma_int_range(0, w * h);
    assert(idx.to_set().subset_of(set_int_range(0, w * h))) by {
        assert forall|v: int| idx.to_set().contains(v) implies set_int_range(0, w * h).contains(v) by {
            let i = choose|i: int| 0 <= i < idx.len() && idx[i] == v;
            lemma_cell_index(w, h, s[i].0 as int, s[i].1 as int);
        }
    }
    idx.unique_seq_to_set();
    lemma_len_subset(idx.to_set(), set_int_range(0, w * h));
}

/// The coordinate sums of a list of grid cells.
fn cell_sums(cells: &Vec<(usize, usize)>) -> (r: (u64, u64))
    requires
        cells.len() <= MAX_SIDE * MAX_SIDE,
        forall|i: int| 0 <= i < cells.len() ==> (#[trigger] cells@[i]).0 <= MAX_SIDE && cells@[i].1 <= MAX_SIDE,
    ensures
        r.0 == sum_x(cells@),
        r.1 == sum_y(cells@),
        r.0 <= cells.len() * MAX_SIDE,
        r.1 <= cells.len() * MAX_SIDE,
{
    let mut sx: u64 = 0;
    let mut sy: u64 = 0;
    let mut i: usize = 0;
    while i < cells.len()
        invariant
            i <= cells.len(),
            cells.len() <= MAX_SIDE * MAX_SIDE,
            forall|j: int| 0 <= j < cells.len() ==> (#[trigger] cells@[j]).0 <= MAX_SIDE && cells@[j].1 <= MAX_SIDE,
            sx == sum_x(cells@.take(i as int)),
            sy == sum_y(cells@.take(i as int)),
            sx <= i * MAX_SIDE,
            sy <= i * MAX_SIDE,
        decreases cells.len() - i,
    {
        let c = cells[i];
        proof {
            assert(cells@.take(i + 1).drop_last() == cells@.take(i as int));
            assert(i * MAX_SIDE + MAX_SIDE <= MAX_SIDE * MAX_SIDE * MAX_SIDE) by (nonlinear_arith)
                requires
                    i < MAX_SIDE * MAX_SIDE,
            ;
        }
        sx = sx + c.0 as u64;
        sy = sy + c.1 as u64;
        i = i + 1;
    }
    assert(cells@.take(cells.len() as int) == cells@);
    (sx, sy)
}

/// A flood-filled region of hallway cells that can join two rooms.
#[derive(Clone, Debug)]
pub struct HallwayJunction {
    /// Identifies the junction across rooms.
    pub fingerprint: u32,
    /// Member cells, in discovery order.
    pub cells: Vec<(usize, usize)>,
    /// Sums of the member cells' coordinates; divided by the cell count they
    /// give the centroid.
    pub sum_x: u64,
    pub sum_y: u64,
}

/// `c` is a hallway cell of `g`.
pub open spec fn is_hall(g: TileGrid, c: (usize, usize)) -> bool {
    g.in_bounds(c.0 as int, c.1 as int) && g.at(c.0 as int, c.1 as int) is Hallway
}

/// A step between edge-adjacent hallway cells.
pub open spec fn hall_step(g: TileGrid) -> spec_fn((usize, usize), (usize, usize)) -> bool {
    |p: (usize, usize), q: (usize, usize)| adjacent(Connectivity::Four, pt(p), pt(q)) && is_hall(g, q)
}

/// `j` is one connected hallway region of `g`, with its fingerprint and sums.
pub open spec fn is_junction(g: TileGrid, j: HallwayJunction) -> bool {
    let cs = j.cells@;
    &&& cs.len() > 0
    &&& cs.no_duplicates()
    &&& forall|i: int| 0 <= i < cs.len() ==> is_hall(g, #[trigger] cs[i])
    &&& forall|i: int| 0 <= i < cs.len() ==> reachable(hall_step(g), set![cs[0]], #[trigger] cs[i])
    &&& closed_under(hall_step(g), cs.to_set())
    &&& j.fingerprint == fingerprint(g, cs.to_set())
    &&& j.sum_x == sum_x(cs)
    &&& j.sum_y == sum_y(cs)
    &&& in_range(j)
}

/// `js` are the hallway regions of `g`: each a junction, no two sharing a
/// cell, and every hallway cell in one of them.
pub open spec fn junctions_of(g: TileGrid, js: Seq<HallwayJunction>) -> bool {
    &&& forall|i: int| 0 <= i < js.len() ==> is_junction(g, #[trigger] js[i])
    &&& forall|a: int, b: int, c: (usize, usize)|
        0 <= a < js.len() && 0 <= b < js.len() && a != b && #[trigger] js[a].cells@.contains(c)
            ==> !#[trigger] js[b].cells@.contains(c)
    &&& forall|c: (usize, usize)|
        is_hall(g, c) ==> exists|i: int| 0 <= i < js.len() && #[trigger] js[i].cells@.contains(c)
}

/// What a fill from `seed` over the hallway mask, blocked by earlier regions, yields.
proof fn lemma_fill_is_hall_region(
    g: TileGrid,
    member: Mask,
    blocked: Mask,
    seed: (usize, usize),
    q: (usize, usize),
)
    requires
        tile_mask_spec(g, TileKind::Hallway, member),
        can_seed(member, blocked, seed),
        region_of(member, blocked, seed, Connectivity::Four).contains(q),
    ensures
        is_hall(g, q),
        !blocked.holds(q),
        reachable(hall_step(g), set![seed], q),
{
    let step = fill_step(member, blocked, Connectivity::Four);
    let ok = Set::new(|c: (usize, usize)| member.holds(c) && !blocked.holds(c));
    assert forall|a: (usize, usize), b: (usize, usize)| ok.contains(a) && #[trigger] step(a, b) implies ok.contains(b) by {}
    lemma_closed_holds_reachable(step, set![seed], ok, q);
    assert(member.holds(q));
    assert forall|a: (usize, usize), b: (usize, usize)| #[trigger] step(a, b) implies hall_step(g)(a, b) by {
        assert(member.holds(b));
    }
    lemma_reachable_mono(step, hall_step(g), set![seed], q);
}

/// Finds every hallway junction of a room, scanning cells in `(x, y)` order.
pub fn get_hallway_junctions(g: &TileGrid) -> (js: Vec<HallwayJunction>)
    requires
        g.wf(),
    ensures
        junctions_of(*g, js@),
{
    let member = tile_mask(g, TileKind::Hallway);
    let mut visited = Mask::empty(g.width, g.height);
    let mut js: Vec<HallwayJunction> = Vec::new();
    let mut x: usize = 0;
    while x < g.width
        invariant
            g.wf(),
            tile_mask_spec(*g, TileKind::Hallway, member),
            visited.wf(),
            visited.width == g.width,
            visited.height == g.height,
            x <= g.width,
            forall|i: int| 0 <= i < js.len() ==> is_junction(*g, #[trigger] js@[i]),
            forall|a: int, b: int, c: (usize, usize)|
                0 <= a < js.len() && 0 <= b < js.len() && a != b && #[trigger] js@[a].cells@.contains(c)
                    ==> !#[trigger] js@[b].cells@.contains(c),
            forall|c: (usize, usize)|
                #[trigger] visited.holds(c) == exists|i: int| 0 <= i < js.len() && #[trigger] js@[i].cells@.contains(c),
            forall|c: (usize, usize)| is_hall(*g, c) && c.0 < x ==> #[trigger] visited.holds(c),
        decreases g.width - x,
    {
        let mut y: usize = 0;
        while y < g.height
            invariant
                g.wf(),
                tile_mask_spec(*g, TileKind::Hallway, member),
                visited.wf(),
                visited.width == g.width,
                visited.height == g.height,
                x < g.width,
                y <= g.height,
                forall|i: int| 0 <= i < js.len() ==> is_junction(*g, #[trigger] js@[i]),
                forall|a: int, b: int, c: (usize, usize)|
                    0 <= a < js.len() && 0 <= b < js.len() && a != b && #[trigger] js@[a].cells@.contains(c)
                        ==> !#[trigger] js@[b].cells@.contains(c),
                forall|c: (usize, usize)|
                    #[trigger] visited.holds(c) == exists|i: int| 0 <= i < js.len() && #[trigger] js@[i].cells@.contains(c),
                forall|c: (usize, usize)|
                    is_hall(*g, c) && (c.0 < x || (c.0 == x && c.1 < y)) ==> #[trigger] visited.holds(c),
            decreases g.height - y,
        {
            if member.get(x, y) && !visited.get(x, y) {
                let ghost blocked = visited;
                let ghost old_js = js@;
                let region = grow_region(&member, &mut visited, (x, y), Connectivity::Four);
                let fp = fingerprint_cells(g, &region);
                proof {
                    let seed = (x, y);
                    assert(can_seed(member, blocked, seed));
                    crate::reach::lemma_seed_reachable(fill_step(member, blocked, Connectivity::Four), set![seed], seed);
                    assert(region@.to_set().contains(seed));
                    assert forall|i: int| 0 <= i < region.len() implies {
                        &&& is_hall(*g, #[trigger] region@[i])
                        &&& !blocked.holds(region@[i])
                        &&& reachable(hall_step(*g), set![seed], region@[i])
                    } by {
                        assert(region@.to_set().contains(region@[i]));
                        lemma_fill_is_hall_region(*g, member, blocked, seed, region@[i]);
                    }
                    lemma_cells_len(g.width as int, g.height as int, region@);
                    assert(g.width * g.height <= MAX_SIDE * MAX_SIDE) by (nonlinear_arith)
                        requires g.width <= MAX_SIDE, g.height <= MAX_SIDE;
                }
                let (sx, sy) = cell_sums(&region);
                let j = HallwayJunction { fingerprint: fp, cells: region, sum_x: sx, sum_y: sy };
                proof {
                    assert(in_range(j));
                    let seed = (x, y);
                    let rs = j.cells@.to_set();
                    assert(j.cells@[0] == seed);
                    assert(closed_under(hall_step(*g), rs)) by {
                        assert forall|p: (usize, usize), q: (usize, usize)|
                            rs.contains(p) && #[trigger] hall_step(*g)(p, q) implies rs.contains(q) by {
                            let ip = choose|ip: int| 0 <= ip < j.cells.len() && j.cells@[ip] == p;
                            assert(!blocked.holds(p));
                            if blocked.holds(q) {
                                let i = choose|i: int| 0 <= i < old_js.len() && #[trigger] old_js[i].cells@.contains(q);
                                assert(is_junction(*g, old_js[i]));
                                assert(hall_step(*g)(q, p));
                                assert(old_js[i].cells@.to_set().contains(q));
                                assert(old_js[i].cells@.contains(p));
                                assert(blocked.holds(p));
                            } else {
                                assert(member.holds(q));
                                assert(fill_step(member, blocked, Connectivity::Four)(p, q));
                                assert(region_of(member, blocked, seed, Connectivity::Four).contains(p));
                                crate::reach::lemma_step_reachable(fill_step(member, blocked, Connectivity::Four), set![seed], p, q);
                                assert(region_of(member, blocked, seed, Connectivity::Four).contains(q));
                            }
                        }
                    }
                }
                js.push(j);
                proof {
                    let n = js.len() - 1;
                    assert(js@[n] == j);
                    assert forall|i: int| 0 <= i < js.len() implies is_junction(*g, #[trigger] js@[i]) by {
                        if i < n {
                            assert(js@[i] == old_js[i]);
                        }
                    }
                    assert forall|a: int, b: int, c: (usize, usize)|
                        0 <= a < js.len() && 0 <= b < js.len() && a != b && #[trigger] js@[a].cells@.contains(c)
                            implies !#[trigger] js@[b].cells@.contains(c) by {
                        if a < n && b < n {
                            assert(js@[a] == old_js[a]);
                            assert(js@[b] == old_js[b]);
                        } else if a == n {
                            assert(js@[b] == old_js[b]);
                            if js@[b].cells@.contains(c) {
                                assert(blocked.holds(c));
                                let k = choose|k: int| 0 <= k < j.cells.len() && j.cells@[k] == c;
                            }
                        } else {
                            assert(js@[a] == old_js[a]);
                            assert(blocked.holds(c));
                            if j.cells@.contains(c) {
                                let k = choose|k: int| 0 <= k < j.cells.len() && j.cells@[k] == c;
                            }
                        }
                    }
                    assert forall|c: (usize, usize)|
                        #[trigger] visited.holds(c) == exists|i: int| 0 <= i < js.len() && #[trigger] js@[i].cells@.contains(c) by {
                        if visited.holds(c) {
                            if blocked.holds(c) {
                                let i = choose|i: int| 0 <= i < old_js.len() && #[trigger] old_js[i].cells@.contains(c);
                                assert(js@[i] == old_js[i]);
                            } else {
                                assert(js@[n].cells@.contains(c));
                            }
                        }
                        if exists|i: int| 0 <= i < js.len() && #[trigger] js@[i].cells@.contains(c) {
                            let i = choose|i: int| 0 <= i < js.len() && #[trigger] js@[i].cells@.contains(c);
                            if i < n {
                                assert(js@[i] == old_js[i]);
                                assert(blocked.holds(c));
                            }
                        }
                    }
                }
            }
            proof {
                assert(member.holds((x, y)) == is_hall(*g, (x, y)));
            }
            y = y + 1;
        }
        x = x + 1;
    }
    proof {
        assert forall|c: (usize, usize)|
            is_hall(*g, c) implies exists|i: int| 0 <= i < js.len() && #[trigger] js@[i].cells@.contains(c) by {
            assert(visited.holds(c));
        }
    }
    js
}

/// When the hallway cells of a room form one edge-connected region, the room
/// has exactly one junction and it holds every hallway cell, whichever of
/// them the scan happens to meet first.
pub proof fn lemma_single_hallway_region(g: TileGrid, js: Seq<HallwayJunction>, h0: (usize, usize))
    requires
        junctions_of(g, js),
        is_hall(g, h0),
        forall|p: (usize, usize), q: (usize, usize)|
            is_hall(g, p) && is_hall(g, q) ==> #[trigger] reachable(hall_step(g), set![p], q),
    ensures
        js.len() == 1,
        forall|c: (usize, usize)| #[trigger] js[0].cells@.contains(c) == is_hall(g, c),
{
    assert forall|k: int, c: (usize, usize)| 0 <= k < js.len() && is_hall(g, c) implies #[trigger] js[k].cells@.contains(c) by {
        assert(is_junction(g, js[k]));
        let f = js[k].cells@[0];
        assert(is_hall(g, f));
        assert(reachable(hall_step(g), set![f], c));
        assert(js[k].cells@.to_set().contains(f));
        lemma_closed_holds_reachable(hall_step(g), set![f], js[k].cells@.to_set(), c);
    }
    let i = choose|i: int| 0 <= i < js.len() && #[trigger] js[i].cells@.contains(h0);
    if js.len() >= 2 {
        assert(js[0].cells@.contains(h0));
        assert(js[1].cells@.contains(h0));
    }
    assert forall|c: (usize, usize)| #[trigger] js[0].cells@.contains(c) implies is_hall(g, c) by {
        let k = choose|k: int| 0 <= k < js[0].cells.len() && js[0].cells@[k] == c;
        assert(is_junction(g, js[0]));
    }
}

/// Sub-cell steps per cell. A shift is counted in these steps; every
/// centroid offset between junctions of up to sixteen cells is a whole number
/// of them.
pub const SUBCELLS: i64 = 720720;

/// A world-space translation of a room, in sub-cell steps.
#[derive(Clone, Copy, Debug, PartialEq, Eq, Hash, Structural)]
pub struct Shift {
    pub x: i64,
    pub z: i64,
}

/// A junction whose sums and size fit the arithmetic of alignment: true of
/// every junction of a room.
pub open spec fn in_range(j: HallwayJunction) -> bool {
    &&& 0 < j.cells.len() <= MAX_SIDE * MAX_SIDE
    &&& j.sum_x <= j.cells.len() * MAX_SIDE
    &&& j.sum_y <= j.cells.len() * MAX_SIDE
}

/// `k / m` rounded to the nearest integer, halves away from zero.
pub open spec fn round_div(k: int, m: int) -> int {
    if k >= 0 {
        (2 * k + m) / (2 * m)
    } else {
        -((-2 * k + m) / (2 * m))
    }
}

/// `SUBCELLS * (a / na - b / nb)` as a fraction over `na * nb`: its numerator.
pub open spec fn offset_num(a: int, na: int, b: int, nb: int) -> int {
    SUBCELLS * (a * nb - b * na)
}

/// The shift that puts the centroid of `new` on the centroid of `old`, whose
/// room stands at `old_shift`: `old_shift + centroid(old) - centroid(new)`,
/// rounded to the nearest sub-cell step; none when it leaves the range of
/// `i64` or a junction is out of range.
pub open spec fn aligned_shift(old_shift: Shift, old: HallwayJunction, new: HallwayJunction) -> Option<Shift> {
    let no = old.cells.len() as int;
    let nn = new.cells.len() as int;
    let x = old_shift.x + round_div(offset_num(old.sum_x as int, no, new.sum_x as int, nn), no * nn);
    let z = old_shift.z + round_div(offset_num(old.sum_y as int, no, new.sum_y as int, nn), no * nn);
    if in_range(old) && in_range(new) && i64::MIN <= x <= i64::MAX && i64::MIN <= z <= i64::MAX {
        Some(Shift { x: x as i64, z: z as i64 })
    } else {
        None
    }
}

/// `(2k + m) / (2m)` for `k >= 0`, with its rounding bound.
fn round_nonneg(k: u128, m: u128) -> (q: u128)
    requires
        m > 0,
        k <= 0x100_0000_0000_0000_0000_0000_0000,
        m <= 0x1_0000_0000_0000_0000,
    ensures
        q == (2 * k + m) / (2 * m),
        q <= k + 1,
{
    proof {
        vstd::arithmetic::div_mod::lemma_fundamental_div_mod((2 * k + m) as int, (2 * m) as int);
        let q = (2 * k + m) / (2 * m);
        let r = (2 * k + m) % (2 * m);
        assert(q <= k + 1) by (nonlinear_arith)
            requires 2 * k + m == 2 * m * q + r, 0 <= r, m >= 1, q >= 0;
    }
    (2 * k + m) / (2 * m)
}

/// The rounded quotient `round_div(k, m)`.
fn round_div_exec(k: i128, m: u128) -> (q: i128)
    requires
        m > 0,
        -0x100_0000_0000_0000_0000_0000_0000 <= k <= 0x100_0000_0000_0000_0000_0000_0000,
        m <= 0x1_0000_0000_0000_0000,
    ensures
        q == round_div(k as int, m as int),
{
    if k >= 0 {
        round_nonneg(k as u128, m) as i128
    } else {
        -(round_nonneg((-k) as u128, m) as i128)
    }
}

/// The numerator `offset_num` of one axis.
fn offset_exec(a: u64, na: usize, b: u64, nb: usize) -> (r: i128)
    requires
        a < 0x1_0000_0000_0000,
        b < 0x1_0000_0000_0000,
        na <= MAX_SIDE * MAX_SIDE,
        nb <= MAX_SIDE * MAX_SIDE,
    ensures
        r == offset_num(a as int, na as int, b as int, nb as int),
        -0x100_0000_0000_0000_0000_0000_0000 <= r <= 0x100_0000_0000_0000_0000_0000_0000,
{
    assert(a * nb <= 0x1_0000_0000_0000 * (MAX_SIDE * MAX_SIDE)) by (nonlinear_arith)
        requires a < 0x1_0000_0000_0000, nb <= MAX_SIDE * MAX_SIDE;
    assert(b * na <= 0x1_0000_0000_0000 * (MAX_SIDE * MAX_SIDE)) by (nonlinear_arith)
        requires b < 0x1_0000_0000_0000, na <= MAX_SIDE * MAX_SIDE;
    assert(a * nb >= 0 && b * na >= 0) by (nonlinear_arith);
    let d: i128 = (a as i128) * (nb as i128) - (b as i128) * (na as i128);
    assert(-0x1_0000_0000_0000 * (MAX_SIDE * MAX_SIDE) <= d <= 0x1_0000_0000_0000 * (MAX_SIDE * MAX_SIDE));
    assert(-0x100_0000_0000_0000_0000_0000_0000 <= SUBCELLS * d <= 0x100_0000_0000_0000_0000_0000_0000) by (nonlinear_arith)
        requires -0x1_0000_0000_0000 * (MAX_SIDE * MAX_SIDE) <= d <= 0x1_0000_0000_0000 * (MAX_SIDE * MAX_SIDE);
    (SUBCELLS as i128) * d
}

/// The shift that lines a newly loaded room up with an already placed one on
/// a junction they share: `old_shift + centroid(old) - centroid(new)`, to the
/// nearest sub-cell step.
pub fn align_shift(old_shift: Shift, old: &HallwayJunction, new: &HallwayJunction) -> (r: Option<Shift>)
    ensures
        r == aligned_shift(old_shift, *old, *new),
{
    let no = old.cells.len();
    let nn = new.cells.len();
    if no == 0 || nn == 0 || no > MAX_SIDE * MAX_SIDE || nn > MAX_SIDE * MAX_SIDE {
        return None;
    }
    assert(no * MAX_SIDE < 0x1_0000_0000_0000 && nn * MAX_SIDE < 0x1_0000_0000_0000) by (nonlinear_arith)
        requires no <= MAX_SIDE * MAX_SIDE, nn <= MAX_SIDE * MAX_SIDE;
    if old.sum_x > (no as u64) * (MAX_SIDE as u64) || old.sum_y > (no as u64) * (MAX_SIDE as u64)
        || new.sum_x > (nn as u64) * (MAX_SIDE as u64) || new.sum_y > (nn as u64) * (MAX_SIDE as u64) {
        return None;
    }
    assert(no * nn <= 0x1_0000_0000_0000_0000) by (nonlinear_arith)
        requires no <= MAX_SIDE * MAX_SIDE, nn <= MAX_SIDE * MAX_SIDE;
    assert(no * nn > 0) by (nonlinear_arith)
        requires no > 0, nn > 0;
    let m: u128 = (no as u128) * (nn as u128);
    let qx = round_div_exec(offset_exec(old.sum_x, no, new.sum_x, nn), m);
    let qz = round_div_exec(offset_exec(old.sum_y, no, new.sum_y, nn), m);
    let x: i128 = old_shift.x as i128 + qx;
    let z: i128 = old_shift.z as i128 + qz;
    if x < i64::MIN as i128 || x > i64::MAX as i128 || z < i64::MIN as i128 || z > i64::MAX as i128 {
        return None;
    }
    Some(Shift { x: x as i64, z: z as i64 })
}

/// Rounding misses the exact quotient by at most half.
pub proof fn lemma_round_div(k: int, m: int)
    requires
        m > 0,
    ensures
        2 * (round_div(k, m) * m - k) <= m,
        2 * (k - round_div(k, m) * m) <= m,
{
    let kk = if k >= 0 { k } else { -k };
    vstd::arithmetic::div_mod::lemma_fundamental_div_mod(2 * kk + m, 2 * m);
    let q = (2 * kk + m) / (2 * m);
    let r = (2 * kk + m) % (2 * m);
    assert(2 * (q * m - kk) <= m && 2 * (kk - q * m) <= m) by (nonlinear_arith)
        requires 2 * kk + m == 2 * m * q + r, 0 <= r < 2 * m;
    if k >= 0 {
        assert(round_div(k, m) == q);
    } else {
        assert(round_div(k, m) == -q);
        assert(round_div(k, m) * m == -(q * m)) by (nonlinear_arith)
            requires round_div(k, m) == -q;
    }
}

/// The world-space centroid of a junction in a room placed at `shift`, in
/// sub-cell steps, as numerators over the junction's cell count:
/// `(x_num, z_num, count)`.
pub open spec fn world_centroid(shift: Shift, j: HallwayJunction) -> (int, int, int) {
    let n = j.cells.len() as int;
    (shift.x * n + SUBCELLS * j.sum_x, shift.z * n + SUBCELLS * j.sum_y, n)
}

/// Two fractional points `(x / n, z / n)` lie within half a sub-cell step of
/// each other on each axis.
pub open spec fn within_half_step(a: (int, int, int), b: (int, int, int)) -> bool {
    &&& 2 * (a.0 * b.2 - b.0 * a.2) <= a.2 * b.2
    &&& 2 * (b.0 * a.2 - a.0 * b.2) <= a.2 * b.2
    &&& 2 * (a.1 * b.2 - b.1 * a.2) <= a.2 * b.2
    &&& 2 * (b.1 * a.2 - a.1 * b.2) <= a.2 * b.2
}

/// Two fractional points `(x / n, z / n)` are the same point.
pub open spec fn same_point(a: (int, int, int), b: (int, int, int)) -> bool {
    a.0 * b.2 == b.0 * a.2 && a.1 * b.2 == b.1 * a.2
}

/// When alignment succeeds, the new room's junction centroid lands on the old
/// room's junction centroid in world space, to within half a sub-cell step;
/// exactly, when the offset between the centroids is a whole number of steps.
pub proof fn lemma_aligned_centroids_coincide(old_shift: Shift, old: HallwayJunction, new: HallwayJunction, s: Shift)
    requires
        aligned_shift(old_shift, old, new) == Some(s),
    ensures
        within_half_step(world_centroid(s, new), world_centroid(old_shift, old)),
        offset_num(old.sum_x as int, old.cells.len() as int, new.sum_x as int, new.cells.len() as int) % (old.cells.len() * new.cells.len()) == 0
            && offset_num(old.sum_y as int, old.cells.len() as int, new.sum_y as int, new.cells.len() as int) % (old.cells.len() * new.cells.len()) == 0
            ==> same_point(world_centroid(s, new), world_centroid(old_shift, old)),
{
    let no = old.cells.len() as int;
    let nn = new.cells.len() as int;
    assert(in_range(old) && in_range(new));
    let m = no * nn;
    assert(m > 0) by (nonlinear_arith)
        requires no > 0, nn > 0, m == no * nn;
    let kx = offset_num(old.sum_x as int, no, new.sum_x as int, nn);
    let kz = offset_num(old.sum_y as int, no, new.sum_y as int, nn);
    let qx = round_div(kx, m);
    let qz = round_div(kz, m);
    lemma_round_div(kx, m);
    lemma_round_div(kz, m);
    let a = world_centroid(s, new);
    let b = world_centroid(old_shift, old);
    assert(a.0 * b.2 - b.0 * a.2 == qx * m - kx) by (nonlinear_arith)
        requires
            a.0 == s.x * nn + SUBCELLS * new.sum_x,
            b.0 == old_shift.x * no + SUBCELLS * old.sum_x,
            a.2 == nn,
            b.2 == no,
            s.x == old_shift.x + qx,
            kx == SUBCELLS * (old.sum_x * nn - new.sum_x * no),
            m == no * nn,
    ;
    assert(a.1 * b.2 - b.1 * a.2 == qz * m - kz) by (nonlinear_arith)
        requires
            a.1 == s.z * nn + SUBCELLS * new.sum_y,
            b.1 == old_shift.z * no + SUBCELLS * old.sum_y,
            a.2 == nn,
            b.2 == no,
            s.z == old_shift.z + qz,
            kz == SUBCELLS * (old.sum_y * nn - new.sum_y * no),
            m == no * nn,
    ;
    assert(a.2 * b.2 == m) by (nonlinear_arith)
        requires a.2 == nn, b.2 == no, m == no * nn;
    if kx % m == 0 && kz % m == 0 {
        vstd::arithmetic::div_mod::lemma_fundamental_div_mod(kx, m);
        vstd::arithmetic::div_mod::lemma_fundamental_div_mod(kz, m);
        let tx = kx / m;
        let tz = kz / m;
        assert(kx == tx * m && kz == tz * m) by (nonlinear_arith)
            requires kx == m * (kx / m) + kx % m, kz == m * (kz / m) + kz % m, kx % m == 0, kz % m == 0, tx == kx / m, tz == kz / m;
        assert(2 * ((qx - tx) * m) <= m && 2 * ((tx - qx) * m) <= m) by (nonlinear_arith)
            requires 2 * (qx * m - kx) <= m, 2 * (kx - qx * m) <= m, kx == tx * m;
        assert(qx == tx) by (nonlinear_arith)
            requires 2 * ((qx - tx) * m) <= m, 2 * ((tx - qx) * m) <= m, m > 0;
        assert(2 * ((qz - tz) * m) <= m && 2 * ((tz - qz) * m) <= m) by (nonlinear_arith)
            requires 2 * (qz * m - kz) <= m, 2 * (kz - qz * m) <= m, kz == tz * m;
        assert(qz == tz) by (nonlinear_arith)
            requires 2 * ((qz - tz) * m) <= m, 2 * ((tz - qz) * m) <= m, m > 0;
    }
}

} // verus!
