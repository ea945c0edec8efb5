//! Ziplines and chains: cells gathered during the scan, grouped afterwards
//! into connected runs.
use vstd::prelude::*;
use crate::grid::{TileGrid, Mask, TileKind, tile_mask, tile_mask_spec, MAX_SIDE};
use crate::region::{Connectivity, grow_region, region_of, fill_step, adjacent, pt, can_seed, bfs_ordered, earlier_neighbor, neighbor_by};
use crate::reach::{reachable, closed_under, lemma_reachable_mono, lemma_closed_holds_reachable, lemma_seed_reachable, lemma_step_reachable};
use crate::spawner::{entity_lift, cell_lifts};

verus! {

/// `c` is a cell of `kind` in `g`.
pub open spec fn of_kind(g: TileGrid, kind: TileKind, c: (usize, usize)) -> bool {
    g.in_bounds(c.0 as int, c.1 as int) && kind.holds(g.at(c.0 as int, c.1 as int))
}

/// A step between neighbouring cells of `kind`.
pub open spec fn kind_step(g: TileGrid, kind: TileKind, conn: Connectivity) -> spec_fn((usize, usize), (usize, usize)) -> bool {
    |p: (usize, usize), q: (usize, usize)| adjacent(conn, pt(p), pt(q)) && of_kind(g, kind, q)
}

/// Number of neighbours of `c` that are cells of `kind`, among the first `k` offsets.
pub open spec fn kind_neighbors(g: TileGrid, kind: TileKind, conn: Connectivity, c: (usize, usize), k: int) -> int
    decreases k,
{
    if k <= 0 {
        0
    } else {
        let o = crate::region::offset(conn, k - 1);
        let x = c.0 + o.0;
        let y = c.1 + o.1;
        kind_neighbors(g, kind, conn, c, k - 1) + if g.in_bounds(x, y) && kind.holds(g.at(x, y)) {
            1int
        } else {
            0int
        }
    }
}

/// `c` is the end of a line: exactly one of its neighbours is of the same kind.
pub open spec fn is_line_end(g: TileGrid, kind: TileKind, conn: Connectivity, c: (usize, usize)) -> bool {
    kind_neighbors(g, kind, conn, c, crate::region::offset_count(conn)) == 1
}

/// `cs` is one connected run of `kind` cells: started from its first cell,
/// holding every such cell reachable from there and no other.
pub open spec fn is_run(g: TileGrid, kind: TileKind, conn: Connectivity, cs: Seq<(usize, usize)>) -> bool {
    &&& cs.len() > 0
    &&& cs.no_duplicates()
    &&& forall|i: int| 0 <= i < cs.len() ==> of_kind(g, kind, #[trigger] cs[i])
    &&& forall|i: int| 0 <= i < cs.len() ==> reachable(kind_step(g, kind, conn), set![cs[0]], #[trigger] cs[i])
    &&& closed_under(kind_step(g, kind, conn), cs.to_set())
}

/// `runs` are disjoint runs of `kind`, each started from a cell that
/// `ends_only` allows, and every such cell lies in one of them.
pub open spec fn runs_of(g: TileGrid, kind: TileKind, conn: Connectivity, ends_only: bool, runs: Seq<Seq<(usize, usize)>>) -> bool {
    &&& forall|i: int| 0 <= i < runs.len() ==> is_run(g, kind, conn, #[trigger] runs[i])
    &&& forall|i: int| 0 <= i < runs.len() ==> ends_only ==> is_line_end(g, kind, conn, (#[trigger] runs[i])[0])
    &&& forall|i: int| 0 <= i < runs.len() ==> bfs_ordered(conn, #[trigger] runs[i])
    &&& forall|a: int, b: int, c: (usize, usize)|
        0 <= a < runs.len() && 0 <= b < runs.len() && a != b && #[trigger] runs[a].contains(c)
            ==> !#[trigger] runs[b].contains(c)
    &&& forall|c: (usize, usize)|
        of_kind(g, kind, c) && (ends_only ==> is_line_end(g, kind, conn, c)) ==> exists|i: int|
            0 <= i < runs.len() && #[trigger] runs[i].contains(c)
}

/// The cell lists of a list of runs.
pub open spec fn run_views(runs: Seq<Vec<(usize, usize)>>) -> Seq<Seq<(usize, usize)>> {
    runs.map_values(|v: Vec<(usize, usize)>| v@)
}

/// Counts the neighbours of `c` that are in the mask.
fn count_neighbors(g: &TileGrid, kind: TileKind, member: &Mask, conn: Connectivity, c: (usize, usize)) -> (n: usize)
    requires
        g.wf(),
        tile_mask_spec(*g, kind, *member),
        c.0 < g.width,
        c.1 < g.height,
    ensures
        n == kind_neighbors(*g, kind, conn, c, crate::region::offset_count(conn)),
{
    let count: usize = match conn {
        Connectivity::Four => 4,
        Connectivity::Eight => 8,
    };
    let mut n: usize = 0;
    let mut k: usize = 0;
    while k < count
        invariant
            g.wf(),
            tile_mask_spec(*g, kind, *member),
            c.0 < g.width,
            c.1 < g.height,
            count == crate::region::offset_count(conn),
            k <= count,
            n <= k,
            n == kind_neighbors(*g, kind, conn, c, k as int),
        decreases count - k,
    {
        let (dx, dy) = crate::region::neighbor_offset(conn, k);
        let nx: i64 = c.0 as i64 + dx;
        let ny: i64 = c.1 as i64 + dy;
        if 0 <= nx && nx < g.width as i64 && 0 <= ny && ny < g.height as i64 {
            if member.get(nx as usize, ny as usize) {
                n = n + 1;
            }
        }
        k = k + 1;
    }
    n
}

/// What a fill from `seed` over the kind's mask, blocked by earlier runs, yields.
proof fn lemma_fill_is_run(g: TileGrid, kind: TileKind, conn: Connectivity, member: Mask, blocked: Mask, seed: (usize, usize), q: (usize, usize))
    requires
        tile_mask_spec(g, kind, member),
        can_seed(member, blocked, seed),
        region_of(member, blocked, seed, conn).contains(q),
    ensures
        of_kind(g, kind, q),
        !blocked.holds(q),
        reachable(kind_step(g, kind, conn), set![seed], q),
{
    let step = fill_step(member, blocked, conn);
    let ok = Set::new(|c: (usize, usize)| member.holds(c) && !blocked.holds(c));
    assert forall|a: (usize, usize), b: (usize, usize)| ok.contains(a) && #[trigger] step(a, b) implies ok.contains(b) by {}
    lemma_closed_holds_reachable(step, set![seed], ok, q);
    assert(member.holds(q));
    assert forall|a: (usize, usize), b: (usize, usize)| #[trigger] step(a, b) implies kind_step(g, kind, conn)(a, b) by {
        assert(member.holds(b));
    }
    lemma_reachable_mono(step, kind_step(g, kind, conn), set![seed], q);
}

proof fn lemma_adjacent_symmetric(conn: Connectivity, p: (int, int), q: (int, int))
    requires
        adjacent(conn, p, q),
    ensures
        adjacent(conn, q, p),
{
}

/// Groups the cells of `kind` into connected runs, scanning in `(x, z)`
/// order; with `ends_only`, a run starts only at a line end, so that it is
/// laid out from one end.
pub fn find_runs(g: &TileGrid, kind: TileKind, conn: Connectivity, ends_only: bool) -> (runs: Vec<Vec<(usize, usize)>>)
    requires
        g.wf(),
    ensures
        runs_of(*g, kind, conn, ends_only, run_views(runs@)),
{
    let member = tile_mask(g, kind);
    let mut visited = Mask::empty(g.width, g.height);
    let mut runs: Vec<Vec<(usize, usize)>> = Vec::new();
    let mut x: usize = 0;
    while x < g.width
        invariant
            g.wf(),
            tile_mask_spec(*g, kind, member),
            visited.wf(),
            visited.width == g.width,
            visited.height == g.height,
            x <= g.width,
            forall|i: int| 0 <= i < runs.len() ==> is_run(*g, kind, conn, #[trigger] runs@[i]@),
            forall|i: int| 0 <= i < runs.len() ==> ends_only ==> is_line_end(*g, kind, conn, (#[trigger] runs@[i])@[0]),
            forall|i: int| 0 <= i < runs.len() ==> bfs_ordered(conn, (#[trigger] runs@[i])@),
            forall|a: int, b: int, c: (usize, usize)|
                0 <= a < runs.len() && 0 <= b < runs.len() && a != b && #[trigger] runs@[a]@.contains(c)
                    ==> !#[trigger] runs@[b]@.contains(c),
            forall|c: (usize, usize)|
                #[trigger] visited.holds(c) == exists|i: int| 0 <= i < runs.len() && #[trigger] runs@[i]@.contains(c),
            forall|c: (usize, usize)|
                of_kind(*g, kind, c) && (ends_only ==> is_line_end(*g, kind, conn, c)) && c.0 < x ==> #[trigger] visited.holds(c),
        decreases g.width - x,
    {
        let mut y: usize = 0;
        while y < g.height
            invariant
                g.wf(),
                tile_mask_spec(*g, kind, member),
                visited.wf(),
                visited.width == g.width,
                visited.height == g.height,
                x < g.width,
                y <= g.height,
                forall|i: int| 0 <= i < runs.len() ==> is_run(*g, kind, conn, #[trigger] runs@[i]@),
                forall|i: int| 0 <= i < runs.len() ==> ends_only ==> is_line_end(*g, kind, conn, (#[trigger] runs@[i])@[0]),
                forall|i: int| 0 <= i < runs.len() ==> bfs_ordered(conn, (#[trigger] runs@[i])@),
                forall|a: int, b: int, c: (usize, usize)|
                    0 <= a < runs.len() && 0 <= b < runs.len() && a != b && #[trigger] runs@[a]@.contains(c)
                        ==> !#[trigger] runs@[b]@.contains(c),
                forall|c: (usize, usize)|
                    #[trigger] visited.holds(c) == exists|i: int| 0 <= i < runs.len() && #[trigger] runs@[i]@.contains(c),
                forall|c: (usize, usize)|
                    of_kind(*g, kind, c) && (ends_only ==> is_line_end(*g, kind, conn, c)) && (c.0 < x || (c.0 == x && c.1 < y)) ==> #[trigger] visited.holds(c),
            decreases g.height - y,
        {
            let start = member.get(x, y) && !visited.get(x, y) && (!ends_only || count_neighbors(g, kind, &member, conn, (x, y)) == 1);
            if start {
                let ghost blocked = visited;
                let ghost old_runs = runs@;
                let region = grow_region(&member, &mut visited, (x, y), conn);
                proof {
                    let seed = (x, y);
                    assert(can_seed(member, blocked, seed));
                    lemma_seed_reachable(fill_step(member, blocked, conn), set![seed], seed);
                    assert(region@.to_set().contains(seed));
                    assert forall|i: int| 0 <= i < region.len() implies {
                        &&& of_kind(*g, kind, #[trigger] region@[i])
                        &&& !blocked.holds(region@[i])
                        &&& reachable(kind_step(*g, kind, conn), set![seed], region@[i])
                    } by {
                        assert(region@.to_set().contains(region@[i]));
                        lemma_fill_is_run(*g, kind, conn, member, blocked, seed, region@[i]);
                    }
                    let rs = region@.to_set();
                    assert(region@[0] == seed);
                    assert(closed_under(kind_step(*g, kind, conn), rs)) by {
                        assert forall|p: (usize, usize), q: (usize, usize)|
                            rs.contains(p) && #[trigger] kind_step(*g, kind, conn)(p, q) implies rs.contains(q) by {
                            let ip = choose|ip: int| 0 <= ip < region.len() && region@[ip] == p;
                            assert(!blocked.holds(p));
                            if blocked.holds(q) {
                                let i = choose|i: int| 0 <= i < old_runs.len() && #[trigger] old_runs[i]@.contains(q);
                                assert(is_run(*g, kind, conn, old_runs[i]@));
                                lemma_adjacent_symmetric(conn, pt(p), pt(q));
                                assert(kind_step(*g, kind, conn)(q, p));
                                assert(old_runs[i]@.to_set().contains(q));
                                assert(old_runs[i]@.contains(p));
                                assert(blocked.holds(p));
                            } else {
                                assert(member.holds(q));
                                assert(fill_step(member, blocked, conn)(p, q));
                                assert(region_of(member, blocked, seed, conn).contains(p));
                                lemma_step_reachable(fill_step(member, blocked, conn), set![seed], p, q);
                            }
                        }
                    }
                }
                runs.push(region);
                proof {
                    let n = runs.len() - 1;
                    let j = runs@[n];
                    assert forall|i: int| 0 <= i < runs.len() implies is_run(*g, kind, conn, #[trigger] runs@[i]@) by {
                        if i < n {
                            assert(runs@[i] == old_runs[i]);
                        }
                    }
                    assert forall|i: int| 0 <= i < runs.len() && ends_only implies is_line_end(*g, kind, conn, (#[trigger] runs@[i])@[0]) by {
                        if i < n {
                            assert(runs@[i] == old_runs[i]);
                        }
                    }
                    assert forall|i: int| 0 <= i < runs.len() implies bfs_ordered(conn, (#[trigger] runs@[i])@) by {
                        if i < n {
                            assert(runs@[i] == old_runs[i]);
                        }
                    }
                    assert forall|a: int, b: int, c: (usize, usize)|
                        0 <= a < runs.len() && 0 <= b < runs.len() && a != b && #[trigger] runs@[a]@.contains(c)
                            implies !#[trigger] runs@[b]@.contains(c) by {
                        if a < n && b < n {
                            assert(runs@[a] == old_runs[a]);
                            assert(runs@[b] == old_runs[b]);
                        } else if a == n {
                            assert(runs@[b] == old_runs[b]);
                            if runs@[b]@.contains(c) {
                                assert(blocked.holds(c));
                                let k = choose|k: int| 0 <= k < j.len() && j@[k] == c;
                            }
                        } else {
                            assert(runs@[a] == old_runs[a]);
                            assert(blocked.holds(c));
                            if j@.contains(c) {
                                let k = choose|k: int| 0 <= k < j.len() && j@[k] == c;
                            }
                        }
                    }
                    assert forall|c: (usize, usize)|
                        #[trigger] visited.holds(c) == exists|i: int| 0 <= i < runs.len() && #[trigger] runs@[i]@.contains(c) by {
                        if visited.holds(c) {
                            if blocked.holds(c) {
                                let i = choose|i: int| 0 <= i < old_runs.len() && #[trigger] old_runs[i]@.contains(c);
                                assert(runs@[i] == old_runs[i]);
                            } else {
                                assert(runs@[n]@.contains(c));
                            }
                        }
                        if exists|i: int| 0 <= i < runs.len() && #[trigger] runs@[i]@.contains(c) {
                            let i = choose|i: int| 0 <= i < runs.len() && #[trigger] runs@[i]@.contains(c);
                            if i < n {
                                assert(runs@[i] == old_runs[i]);
                                assert(blocked.holds(c));
                            }
                        }
                    }
                }
            }
            proof {
                assert(member.holds((x, y)) == of_kind(*g, kind, (x, y)));
            }
            y = y + 1;
        }
        x = x + 1;
    }
    proof {
        let rv = run_views(runs@);
        assert forall|c: (usize, usize)|
            of_kind(*g, kind, c) && (ends_only ==> is_line_end(*g, kind, conn, c)) implies exists|i: int|
                0 <= i < rv.len() && #[trigger] rv[i].contains(c) by {
            assert(visited.holds(c));
            let i = choose|i: int| 0 <= i < runs.len() && #[trigger] runs@[i]@.contains(c);
            assert(rv[i] == runs@[i]@);
        }
        assert forall|i: int| 0 <= i < rv.len() implies is_run(*g, kind, conn, #[trigger] rv[i]) by {
            assert(rv[i] == runs@[i]@);
        }
        assert forall|i: int| 0 <= i < rv.len() && ends_only implies is_line_end(*g, kind, conn, (#[trigger] rv[i])[0]) by {
            assert(rv[i] == runs@[i]@);
        }
        assert forall|i: int| 0 <= i < rv.len() implies bfs_ordered(conn, #[trigger] rv[i]) by {
            assert(rv[i] == runs@[i]@);
        }
        assert forall|a: int, b: int, c: (usize, usize)|
            0 <= a < rv.len() && 0 <= b < rv.len() && a != b && #[trigger] rv[a].contains(c)
                implies !#[trigger] rv[b].contains(c) by {
            assert(rv[a] == runs@[a]@);
            assert(rv[b] == runs@[b]@);
        }
    }
    runs
}

/// A line end has a neighbour of its kind.
proof fn lemma_end_has_neighbor(g: TileGrid, kind: TileKind, conn: Connectivity, c: (usize, usize), k: int) -> (j: int)
    requires
        kind_neighbors(g, kind, conn, c, k) > 0,
    ensures
        0 <= j < k,
        g.in_bounds(c.0 + crate::region::offset(conn, j).0, c.1 + crate::region::offset(conn, j).1),
        kind.holds(g.at(c.0 + crate::region::offset(conn, j).0, c.1 + crate::region::offset(conn, j).1)),
    decreases k,
{
    let o = crate::region::offset(conn, k - 1);
    if g.in_bounds(c.0 + o.0, c.1 + o.1) && kind.holds(g.at(c.0 + o.0, c.1 + o.1)) {
        k - 1
    } else {
        lemma_end_has_neighbor(g, kind, conn, c, k - 1)
    }
}

/// A run that starts at a line end has at least two cells.
proof fn lemma_run_from_end(g: TileGrid, kind: TileKind, conn: Connectivity, cs: Seq<(usize, usize)>)
    requires
        is_run(g, kind, conn, cs),
        is_line_end(g, kind, conn, cs[0]),
    ensures
        cs.len() >= 2,
{
    let c = cs[0];
    let j = lemma_end_has_neighbor(g, kind, conn, c, crate::region::offset_count(conn));
    let o = crate::region::offset(conn, j);
    let q = ((c.0 + o.0) as usize, (c.1 + o.1) as usize);
    crate::region::lemma_offset_adjacent(conn, pt(c), j);
    assert(kind_step(g, kind, conn)(c, q));
    assert(cs.to_set().contains(c));
    assert(cs.to_set().contains(q));
    assert(q != c);
    if cs.len() == 1 {
        let i = choose|i: int| 0 <= i < cs.len() && cs[i] == q;
    }
}

/// `c` has at most two distinct neighbours of `kind`.
pub open spec fn at_most_two_neighbors(g: TileGrid, kind: TileKind, conn: Connectivity, c: (usize, usize)) -> bool {
    forall|a: (usize, usize), b: (usize, usize), d: (usize, usize)|
        #![trigger adjacent(conn, pt(c), pt(a)), adjacent(conn, pt(c), pt(b)), adjacent(conn, pt(c), pt(d))]
        of_kind(g, kind, a) && of_kind(g, kind, b) && of_kind(g, kind, d) && adjacent(conn, pt(c), pt(a))
            && adjacent(conn, pt(c), pt(b)) && adjacent(conn, pt(c), pt(d)) ==> a == b || a == d || b == d
}

/// Consecutive cells of `cs` are neighbours.
pub open spec fn consecutive(conn: Connectivity, cs: Seq<(usize, usize)>) -> bool {
    forall|i: int| 1 <= i < cs.len() ==> #[trigger] adjacent(conn, pt(cs[i - 1]), pt(cs[i]))
}

proof fn lemma_count_two(g: TileGrid, kind: TileKind, conn: Connectivity, c: (usize, usize), ka: int, kb: int, k: int)
    requires
        ka != kb,
        0 <= ka,
        0 <= kb,
        g.in_bounds(c.0 + crate::region::offset(conn, ka).0, c.1 + crate::region::offset(conn, ka).1),
        kind.holds(g.at(c.0 + crate::region::offset(conn, ka).0, c.1 + crate::region::offset(conn, ka).1)),
        g.in_bounds(c.0 + crate::region::offset(conn, kb).0, c.1 + crate::region::offset(conn, kb).1),
        kind.holds(g.at(c.0 + crate::region::offset(conn, kb).0, c.1 + crate::region::offset(conn, kb).1)),
    ensures
        kind_neighbors(g, kind, conn, c, k) >= (if ka < k { 1int } else { 0int }) + (if kb < k { 1int } else { 0int }),
    decreases k,
{
    if k > 0 {
        lemma_count_two(g, kind, conn, c, ka, kb, k - 1);
        assert(kind_neighbors(g, kind, conn, c, k - 1) >= 0) by {
            lemma_count_nonneg(g, kind, conn, c, k - 1);
        }
    }
}

proof fn lemma_count_nonneg(g: TileGrid, kind: TileKind, conn: Connectivity, c: (usize, usize), k: int)
    ensures
        kind_neighbors(g, kind, conn, c, k) >= 0,
    decreases k,
{
    if k > 0 {
        lemma_count_nonneg(g, kind, conn, c, k - 1);
    }
}

/// A cell with two distinct neighbours of its kind is no line end.
proof fn lemma_two_neighbors_no_end(g: TileGrid, kind: TileKind, conn: Connectivity, c: (usize, usize), a: (usize, usize), b: (usize, usize))
    requires
        a != b,
        of_kind(g, kind, a),
        of_kind(g, kind, b),
        adjacent(conn, pt(c), pt(a)),
        adjacent(conn, pt(c), pt(b)),
    ensures
        !is_line_end(g, kind, conn, c),
{
    let ka = crate::region::lemma_adjacent_offset(conn, pt(c), pt(a));
    let kb = crate::region::lemma_adjacent_offset(conn, pt(c), pt(b));
    lemma_count_two(g, kind, conn, c, ka, kb, crate::region::offset_count(conn));
}

proof fn lemma_thin_prefix(g: TileGrid, kind: TileKind, conn: Connectivity, cs: Seq<(usize, usize)>, i: int)
    requires
        is_run(g, kind, conn, cs),
        is_line_end(g, kind, conn, cs[0]),
        bfs_ordered(conn, cs),
        forall|m: int| 0 <= m < cs.len() ==> at_most_two_neighbors(g, kind, conn, #[trigger] cs[m]),
        0 <= i < cs.len(),
    ensures
        forall|m: int| 1 <= m <= i ==> #[trigger] earlier_neighbor(conn, cs, m, m - 1),
    decreases i,
{
    if i >= 1 {
        lemma_thin_prefix(g, kind, conn, cs, i - 1);
        assert(neighbor_by(conn, cs, i, i - 1));
        let k = choose|k2: int| k2 <= i - 1 && #[trigger] earlier_neighbor(conn, cs, i, k2);
        if k < i - 1 {
            assert(cs[k] != cs[i]);
            lemma_adjacent_symmetric(conn, pt(cs[k]), pt(cs[i]));
            let m = k + 1;
            assert(earlier_neighbor(conn, cs, m, m - 1));
            assert(earlier_neighbor(conn, cs, k + 1, k));
            assert(cs[k + 1] != cs[i]);
            if k == 0 {
                lemma_two_neighbors_no_end(g, kind, conn, cs[0], cs[1], cs[i]);
            } else {
                assert(earlier_neighbor(conn, cs, k, k - 1));
                lemma_adjacent_symmetric(conn, pt(cs[k - 1]), pt(cs[k]));
                assert(cs[k - 1] != cs[i]);
                assert(cs[k - 1] != cs[k + 1]);
                assert(at_most_two_neighbors(g, kind, conn, cs[k]));
                assert(of_kind(g, kind, cs[k - 1]));
                assert(of_kind(g, kind, cs[k + 1]));
                assert(of_kind(g, kind, cs[i]));
                assert(adjacent(conn, pt(cs[k]), pt(cs[k - 1])));
                assert(adjacent(conn, pt(cs[k]), pt(cs[k + 1])));
                assert(adjacent(conn, pt(cs[k]), pt(cs[i])));
            }
        }
    }
}

/// A run that starts at a line end, and whose cells have at most two
/// neighbours of their kind each, is laid out along the line: each cell is a
/// neighbour of the one before it.
pub proof fn lemma_thin_run_in_order(g: TileGrid, kind: TileKind, conn: Connectivity, cs: Seq<(usize, usize)>)
    requires
        is_run(g, kind, conn, cs),
        is_line_end(g, kind, conn, cs[0]),
        bfs_ordered(conn, cs),
        forall|m: int| 0 <= m < cs.len() ==> at_most_two_neighbors(g, kind, conn, #[trigger] cs[m]),
    ensures
        consecutive(conn, cs),
{
    lemma_thin_prefix(g, kind, conn, cs, cs.len() - 1);
    assert forall|i: int| 1 <= i < cs.len() implies #[trigger] adjacent(conn, pt(cs[i - 1]), pt(cs[i])) by {
        assert(earlier_neighbor(conn, cs, i, i - 1));
    }
}

/// A zipline, its cells laid out from one end.
#[derive(Clone, Debug)]
pub struct ZiplineLine {
    pub cells: Vec<(usize, usize)>,
    /// How many levels each cell's node is lifted.
    pub lifts: Vec<u8>,
}

/// A copy of a list of cells.
fn copy_cells(v: &Vec<(usize, usize)>) -> (r: Vec<(usize, usize)>)
    ensures
        r@ == v@,
{
    let mut r: Vec<(usize, usize)> = Vec::new();
    let mut i: usize = 0;
    while i < v.len()
        invariant
            i <= v.len(),
            r@ == v@.take(i as int),
        decreases v.len() - i,
    {
        r.push(v[i]);
        assert(v@.take(i + 1) == v@.take(i as int).push(v@[i as int]));
        i = i + 1;
    }
    assert(v@.take(v.len() as int) == v@);
    r
}

/// Groups zipline cells into lines. Each line starts at a cell with exactly
/// one zipline neighbour among its eight, holds the cells connected to it,
/// and has at least two cells; a closed loop has no end and forms no line.
/// Cells come in breadth-first order from the end, so on a line whose cells
/// each have at most two zipline neighbours every cell is a neighbour of the
/// one before it.
pub fn spawn_ziplines(g: &TileGrid) -> (lines: Vec<ZiplineLine>)
    requires
        g.wf(),
    ensures
        runs_of(*g, TileKind::Zipline, Connectivity::Eight, true, lines@.map_values(|l: ZiplineLine| l.cells@)),
        forall|i: int| 0 <= i < lines.len() ==> (#[trigger] lines@[i]).cells.len() >= 2,
        forall|i: int|
            0 <= i < lines.len() && (forall|m: int| 0 <= m < lines@[i].cells.len() ==> at_most_two_neighbors(*g, TileKind::Zipline, Connectivity::Eight, #[trigger] lines@[i].cells@[m]))
                ==> consecutive(Connectivity::Eight, (#[trigger] lines@[i]).cells@),
        forall|i: int| 0 <= i < lines.len() ==> (#[trigger] lines@[i]).lifts.len() == lines@[i].cells.len(),
        forall|i: int, k: int|
            0 <= i < lines.len() && 0 <= k < lines@[i].cells.len() ==> #[trigger] lines@[i].lifts@[k]
                == entity_lift(*g, lines@[i].cells@[k].0 as int, lines@[i].cells@[k].1 as int),
{
    let runs = find_runs(g, TileKind::Zipline, Connectivity::Eight, true);
    let mut lines: Vec<ZiplineLine> = Vec::new();
    let mut i: usize = 0;
    while i < runs.len()
        invariant
            g.wf(),
            runs_of(*g, TileKind::Zipline, Connectivity::Eight, true, run_views(runs@)),
            i <= runs.len(),
            lines.len() == i,
            forall|j: int| 0 <= j < i ==> (#[trigger] lines@[j]).cells@ == runs@[j]@,
            forall|j: int| 0 <= j < i ==> (#[trigger] lines@[j]).lifts.len() == lines@[j].cells.len(),
            forall|j: int, k: int|
                0 <= j < i && 0 <= k < lines@[j].cells.len() ==> #[trigger] lines@[j].lifts@[k]
                    == entity_lift(*g, lines@[j].cells@[k].0 as int, lines@[j].cells@[k].1 as int),
        decreases runs.len() - i,
    {
        let cells = copy_cells(&runs[i]);
        proof {
            assert(run_views(runs@)[i as int] == runs@[i as int]@);
            assert(is_run(*g, TileKind::Zipline, Connectivity::Eight, runs@[i as int]@));
        }
        let mut lifts: Vec<u8> = Vec::new();
        let mut k: usize = 0;
        while k < cells.len()
            invariant
                g.wf(),
                cells@ == runs@[i as int]@,
                forall|m: int| 0 <= m < cells.len() ==> of_kind(*g, TileKind::Zipline, #[trigger] cells@[m]),
                k <= cells.len(),
                lifts.len() == k,
                forall|m: int| 0 <= m < k ==> #[trigger] lifts@[m] == entity_lift(*g, cells@[m].0 as int, cells@[m].1 as int),
            decreases cells.len() - k,
        {
            let c = cells[k];
            assert(of_kind(*g, TileKind::Zipline, cells@[k as int]));
            let (_, e) = cell_lifts(g, c.0, c.1);
            lifts.push(e);
            k = k + 1;
        }
        lines.push(ZiplineLine { cells, lifts });
        i = i + 1;
    }
    proof {
        let view = lines@.map_values(|l: ZiplineLine| l.cells@);
        assert(view =~= run_views(runs@));
        assert forall|j: int| 0 <= j < lines.len() implies (#[trigger] lines@[j]).cells.len() >= 2 by {
            assert(run_views(runs@)[j] == runs@[j]@);
            lemma_run_from_end(*g, TileKind::Zipline, Connectivity::Eight, runs@[j]@);
        }
        assert forall|j: int|
            0 <= j < lines.len() && (forall|m: int| 0 <= m < lines@[j].cells.len() ==> at_most_two_neighbors(*g, TileKind::Zipline, Connectivity::Eight, #[trigger] lines@[j].cells@[m]))
                implies consecutive(Connectivity::Eight, (#[trigger] lines@[j]).cells@) by {
            assert(run_views(runs@)[j] == runs@[j]@);
            lemma_thin_run_in_order(*g, TileKind::Zipline, Connectivity::Eight, runs@[j]@);
        }
    }
    lines
}

/// `cells[j]` lies one step past `cells[i]` along +z or +x.
pub open spec fn is_link(cells: Seq<(usize, usize)>, i: int, j: int) -> bool {
    &&& 0 <= i < cells.len()
    &&& 0 <= j < cells.len()
    &&& ((cells[j].0 == cells[i].0 && cells[j].1 == cells[i].1 + 1) || (cells[j].0 == cells[i].0 + 1
        && cells[j].1 == cells[i].1))
}

/// Indices, among the first `k`, of the cells that end a chain.
pub open spec fn end_indices(g: TileGrid, cells: Seq<(usize, usize)>, k: int) -> Seq<usize>
    decreases k,
{
    if k <= 0 {
        Seq::empty()
    } else {
        let prev = end_indices(g, cells, k - 1);
        if is_line_end(g, TileKind::Chain, Connectivity::Four, cells[k - 1]) {
            prev.push((k - 1) as usize)
        } else {
            prev
        }
    }
}

/// One simulated chain: its cells, the joints between neighbouring cells, and
/// the two ends that act as a plug pair when the chain is a simple line.
#[derive(Clone, Debug)]
pub struct ChainGroup {
    pub cells: Vec<(usize, usize)>,
    /// Pairs of indices into `cells`, one per pair of edge neighbours.
    pub links: Vec<(usize, usize)>,
    /// The two ends, when there are exactly two.
    pub ends: Option<(usize, usize)>,
}

/// The index of `c` in `cells`, if it is there.
fn index_of(cells: &Vec<(usize, usize)>, c: (usize, usize)) -> (r: Option<usize>)
    ensures
        r matches Some(j) ==> j < cells.len() && cells@[j as int] == c,
        r is None ==> !cells@.contains(c),
{
    let mut j: usize = 0;
    while j < cells.len()
        invariant
            j <= cells.len(),
            forall|m: int| 0 <= m < j ==> cells@[m] != c,
        decreases cells.len() - j,
    {
        if cells[j].0 == c.0 && cells[j].1 == c.1 {
            return Some(j);
        }
        j = j + 1;
    }
    None
}

/// The joints of a chain.
fn chain_links(cells: &Vec<(usize, usize)>) -> (links: Vec<(usize, usize)>)
    requires
        cells@.no_duplicates(),
        forall|m: int| 0 <= m < cells.len() ==> (#[trigger] cells@[m]).0 < MAX_SIDE && cells@[m].1 < MAX_SIDE,
    ensures
        links@.no_duplicates(),
        forall|i: usize, j: usize| #[trigger] links@.contains((i, j)) == is_link(cells@, i as int, j as int),
{
    let mut links: Vec<(usize, usize)> = Vec::new();
    let mut i: usize = 0;
    while i < cells.len()
        invariant
            cells@.no_duplicates(),
            forall|m: int| 0 <= m < cells.len() ==> (#[trigger] cells@[m]).0 < MAX_SIDE && cells@[m].1 < MAX_SIDE,
            i <= cells.len(),
            links@.no_duplicates(),
            forall|k: int| 0 <= k < links.len() ==> (#[trigger] links@[k]).0 < i,
            forall|a: usize, b: usize| #[trigger] links@.contains((a, b)) ==> is_link(cells@, a as int, b as int),
            forall|a: usize, b: usize| is_link(cells@, a as int, b as int) && a < i ==> #[trigger] links@.contains((a, b)),
        decreases cells.len() - i,
    {
        let c = cells[i];
        let ghost start = links@;
        let up = index_of(cells, (c.0, c.1 + 1));
        if let Some(j) = up {
            proof {
                assert(is_link(cells@, i as int, j as int));
                assert(!links@.contains((i, j))) by {
                    if links@.contains((i, j)) {
                        let k = choose|k: int| 0 <= k < links.len() && links@[k] == (i, j);
                        assert(links@[k].0 < i);
                    }
                }
            }
            links.push((i, j));
        }
        let ghost mid = links@;
        let right = index_of(cells, (c.0 + 1, c.1));
        if let Some(j) = right {
            proof {
                assert(is_link(cells@, i as int, j as int));
                assert(!links@.contains((i, j))) by {
                    if links@.contains((i, j)) {
                        let k = choose|k: int| 0 <= k < links.len() && links@[k] == (i, j);
                        if k < start.len() {
                            assert(start[k] == links@[k]);
                            assert(links@[k].0 < i);
                        } else {
                            assert(cells@[j as int] == (c.0, (c.1 + 1) as usize));
                        }
                    }
                }
            }
            links.push((i, j));
        }
        proof {
            assert forall|k: int| 0 <= k < links.len() implies (#[trigger] links@[k]).0 < i + 1 by {
                if k < start.len() {
                    assert(links@[k] == start[k]);
                }
            }
            assert forall|a: usize, b: usize| #[trigger] links@.contains((a, b)) implies is_link(cells@, a as int, b as int) by {
                let k = choose|k: int| 0 <= k < links.len() && links@[k] == (a, b);
                if k < start.len() {
                    assert(start[k] == links@[k]);
                    assert(start.contains((a, b)));
                } else if k < mid.len() {
                    assert(mid[k] == links@[k]);
                    assert(mid[k] == (i, up.unwrap()));
                } else {
                    assert(links@[k] == (i, right.unwrap()));
                }
            }
            assert forall|a: usize, b: usize| is_link(cells@, a as int, b as int) && a < i + 1 implies #[trigger] links@.contains((a, b)) by {
                if a < i {
                    assert(start.contains((a, b)));
                    let k = choose|k: int| 0 <= k < start.len() && start[k] == (a, b);
                    assert(links@[k] == start[k]);
                } else {
                    if cells@[b as int].1 == c.1 + 1 {
                        assert(up is Some);
                    } else {
                        assert(right is Some);
                    }
                    assert(links@.contains((a, b))) by {
                        if cells@[b as int] == (c.0, (c.1 + 1) as usize) {
                            let j = up.unwrap();
                            assert(cells@[j as int] == cells@[b as int]);
                            assert(j == b);
                            let k = start.len() as int;
                            assert(links@[k] == (i, j));
                        } else {
                            let j = right.unwrap();
                            assert(cells@[j as int] == cells@[b as int]);
                            assert(j == b);
                            assert(links@[links.len() - 1] == (i, j));
                        }
                    }
                }
            }
        }
        i = i + 1;
    }
    links
}

/// The ends of a chain, when it has exactly two.
pub open spec fn chain_ends(g: TileGrid, cells: Seq<(usize, usize)>) -> Option<(usize, usize)> {
    let e = end_indices(g, cells, cells.len() as int);
    if e.len() == 2 {
        Some((e[0], e[1]))
    } else {
        None
    }
}

/// Splits the chain cells into separate chains, one per edge-connected
/// group, each with a joint between every two neighbouring cells and, when
/// the chain is a line with two ends, those ends as a plug pair.
pub fn spawn_chains(g: &TileGrid) -> (chains: Vec<ChainGroup>)
    requires
        g.wf(),
    ensures
        runs_of(*g, TileKind::Chain, Connectivity::Four, false, chains@.map_values(|c: ChainGroup| c.cells@)),
        forall|i: int| 0 <= i < chains.len() ==> (#[trigger] chains@[i]).links@.no_duplicates(),
        forall|i: int, a: usize, b: usize|
            0 <= i < chains.len() ==> (#[trigger] chains@[i].links@.contains((a, b)) == is_link(chains@[i].cells@, a as int, b as int)),
        forall|i: int| 0 <= i < chains.len() ==> (#[trigger] chains@[i]).ends == chain_ends(*g, chains@[i].cells@),
{
    let member = tile_mask(g, TileKind::Chain);
    let runs = find_runs(g, TileKind::Chain, Connectivity::Four, false);
    let mut chains: Vec<ChainGroup> = Vec::new();
    let mut i: usize = 0;
    while i < runs.len()
        invariant
            g.wf(),
            tile_mask_spec(*g, TileKind::Chain, member),
            runs_of(*g, TileKind::Chain, Connectivity::Four, false, run_views(runs@)),
            i <= runs.len(),
            chains.len() == i,
            forall|j: int| 0 <= j < i ==> (#[trigger] chains@[j]).cells@ == runs@[j]@,
            forall|j: int| 0 <= j < i ==> (#[trigger] chains@[j]).links@.no_duplicates(),
            forall|j: int, a: usize, b: usize|
                0 <= j < i ==> (#[trigger] chains@[j].links@.contains((a, b)) == is_link(chains@[j].cells@, a as int, b as int)),
            forall|j: int| 0 <= j < i ==> (#[trigger] chains@[j]).ends == chain_ends(*g, chains@[j].cells@),
        decreases runs.len() - i,
    {
        let cells = copy_cells(&runs[i]);
        proof {
            assert(run_views(runs@)[i as int] == runs@[i as int]@);
            assert(is_run(*g, TileKind::Chain, Connectivity::Four, cells@));
            assert forall|m: int| 0 <= m < cells.len() implies (#[trigger] cells@[m]).0 < MAX_SIDE && cells@[m].1 < MAX_SIDE by {
                assert(of_kind(*g, TileKind::Chain, cells@[m]));
            }
        }
        let links = chain_links(&cells);
        let mut ends: Vec<usize> = Vec::new();
        let mut k: usize = 0;
        while k < cells.len()
            invariant
                g.wf(),
                tile_mask_spec(*g, TileKind::Chain, member),
                forall|m: int| 0 <= m < cells.len() ==> of_kind(*g, TileKind::Chain, #[trigger] cells@[m]),
                k <= cells.len(),
                ends@ == end_indices(*g, cells@, k as int),
            decreases cells.len() - k,
        {
            assert(of_kind(*g, TileKind::Chain, cells@[k as int]));
            if count_neighbors(g, TileKind::Chain, &member, Connectivity::Four, cells[k]) == 1 {
                ends.push(k);
            }
            k = k + 1;
        }
        let pair = if ends.len() == 2 {
            Some((ends[0], ends[1]))
        } else {
            None
        };
        chains.push(ChainGroup { cells, links, ends: pair });
        i = i + 1;
    }
    proof {
        let view = chains@.map_values(|c: ChainGroup| c.cells@);
        assert(view =~= run_views(runs@));
    }
    chains
}

} // verus!
