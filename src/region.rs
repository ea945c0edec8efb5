//! The region grower: a breadth-first flood fill over a mask of member cells.
use vstd::prelude::*;
use crate::grid::{Mask, unset_count};
use crate::reach::{
    reachable, closed_under, lemma_seed_reachable, lemma_step_reachable,
    lemma_closed_holds_reachable,
};

verus! {

/// Which neighbours a flood fill steps to.
#[derive(Clone, Copy, Debug, PartialEq, Eq, Structural)]
pub enum Connectivity {
    /// The four edge neighbours.
    Four,
    /// The eight edge and corner neighbours.
    Eight,
}

/// `q` is a neighbour of `p` under the connectivity.
pub open spec fn adjacent(conn: Connectivity, p: (int, int), q: (int, int)) -> bool {
    let dx = q.0 - p.0;
    let dy = q.1 - p.1;
    match conn {
        Connectivity::Four => (dx == 0 && (dy == 1 || dy == -1)) || (dy == 0 && (dx == 1 || dx
            == -1)),
        Connectivity::Eight => -1 <= dx <= 1 && -1 <= dy <= 1 && !(dx == 0 && dy == 0),
    }
}

/// Number of neighbours under the connectivity.
pub open spec fn offset_count(conn: Connectivity) -> int {
    match conn {
        Connectivity::Four => 4,
        Connectivity::Eight => 8,
    }
}

/// The `k`-th neighbour offset, in the order the fill visits them.
pub open spec fn offset(conn: Connectivity, k: int) -> (int, int) {
    match conn {
        Connectivity::Four => if k == 0 {
            (1, 0)
        } else if k == 1 {
            (-1, 0)
        } else if k == 2 {
            (0, 1)
        } else {
            (0, -1)
        },
        Connectivity::Eight => {
            let j = if k < 4 {
                k
            } else {
                k + 1
            };
            (j / 3 - 1, j % 3 - 1)
        },
    }
}

/// The `k`-th neighbour offset.
pub fn neighbor_offset(conn: Connectivity, k: usize) -> (r: (i64, i64))
    requires
        k < offset_count(conn),
    ensures
        r.0 == offset(conn, k as int).0,
        r.1 == offset(conn, k as int).1,
{
    match conn {
        Connectivity::Four => if k == 0 {
            (1, 0)
        } else if k == 1 {
            (-1, 0)
        } else if k == 2 {
            (0, 1)
        } else {
            (0, -1)
        },
        Connectivity::Eight => {
            let j: i64 = if k < 4 {
                k as i64
            } else {
                k as i64 + 1
            };
            (j / 3 - 1, j % 3 - 1)
        },
    }
}

/// Every neighbour is reached by one of the offsets.
pub proof fn lemma_adjacent_offset(conn: Connectivity, p: (int, int), q: (int, int)) -> (k: int)
    requires
        adjacent(conn, p, q),
    ensures
        0 <= k < offset_count(conn),
        q.0 == p.0 + offset(conn, k).0,
        q.1 == p.1 + offset(conn, k).1,
{
    let dx = q.0 - p.0;
    let dy = q.1 - p.1;
    match conn {
        Connectivity::Four => if dx == 1 {
            0
        } else if dx == -1 {
            1
        } else if dy == 1 {
            2
        } else {
            3
        },
        Connectivity::Eight => {
            let j = (dx + 1) * 3 + (dy + 1);
            if j < 4 {
                j
            } else {
                j - 1
            }
        },
    }
}

/// Every offset leads to a neighbour.
pub proof fn lemma_offset_adjacent(conn: Connectivity, p: (int, int), k: int)
    requires
        0 <= k < offset_count(conn),
    ensures
        adjacent(conn, p, (p.0 + offset(conn, k).0, p.1 + offset(conn, k).1)),
{
}

/// View of a cell as a pair of integers.
pub open spec fn pt(c: (usize, usize)) -> (int, int) {
    (c.0 as int, c.1 as int)
}

/// One step of a fill: to a neighbour that is a member and was not blocked
/// before the fill began.
pub open spec fn fill_step(member: Mask, blocked: Mask, conn: Connectivity) -> spec_fn(
    (usize, usize),
    (usize, usize),
) -> bool {
    |p: (usize, usize), q: (usize, usize)|
        adjacent(conn, pt(p), pt(q)) && member.has(q.0 as int, q.1 as int) && !blocked.has(
            q.0 as int,
            q.1 as int,
        )
}

/// The seed can start a region: it is a member and was not visited yet.
pub open spec fn can_seed(member: Mask, blocked: Mask, seed: (usize, usize)) -> bool {
    member.has(seed.0 as int, seed.1 as int) && !blocked.has(seed.0 as int, seed.1 as int)
}

/// The region grown from `seed`: every member cell that steps through member,
/// not yet visited cells reach from it; nothing when the seed cannot start one.
pub open spec fn region_of(member: Mask, blocked: Mask, seed: (usize, usize), conn: Connectivity) -> Set<
    (usize, usize),
> {
    if can_seed(member, blocked, seed) {
        Set::new(|q: (usize, usize)| reachable(fill_step(member, blocked, conn), set![seed], q))
    } else {
        Set::empty()
    }
}

/// Cell `k` comes before cell `i` of `cs` and is its neighbour.
pub open spec fn earlier_neighbor(conn: Connectivity, cs: Seq<(usize, usize)>, i: int, k: int) -> bool {
    0 <= k < i < cs.len() && adjacent(conn, pt(cs[k]), pt(cs[i]))
}

/// Cell `i` of `cs` has an earlier neighbour at position `k` or before.
pub open spec fn neighbor_by(conn: Connectivity, cs: Seq<(usize, usize)>, i: int, k: int) -> bool {
    exists|k2: int| k2 <= k && #[trigger] earlier_neighbor(conn, cs, i, k2)
}

/// Later cells of `cs` were reached from cells no earlier than those that
/// reached earlier cells.
pub open spec fn reached_in_order(conn: Connectivity, cs: Seq<(usize, usize)>) -> bool {
    forall|a: int, b: int, k: int|
        #![trigger earlier_neighbor(conn, cs, b, k), neighbor_by(conn, cs, a, k)]
        1 <= a < b && earlier_neighbor(conn, cs, b, k) ==> neighbor_by(conn, cs, a, k)
}

/// `cs` is in breadth-first order: every cell after the first has an earlier
/// neighbour, and the first earlier neighbour never moves back from one cell
/// to the next.
pub open spec fn bfs_ordered(conn: Connectivity, cs: Seq<(usize, usize)>) -> bool {
    &&& forall|i: int| 1 <= i < cs.len() ==> #[trigger] neighbor_by(conn, cs, i, i - 1)
    &&& reached_in_order(conn, cs)
}

/// The part of breadth-first order that holds while cell `head` is expanded.
pub open spec fn bfs_prefix(conn: Connectivity, cs: Seq<(usize, usize)>, head: int) -> bool {
    &&& forall|i: int| 1 <= i < cs.len() ==> #[trigger] neighbor_by(conn, cs, i, head)
    &&& reached_in_order(conn, cs)
}

proof fn lemma_bfs_push(conn: Connectivity, cs: Seq<(usize, usize)>, q: (usize, usize), head: int)
    requires
        bfs_prefix(conn, cs, head),
        0 <= head < cs.len(),
        adjacent(conn, pt(cs[head]), pt(q)),
        forall|k: int| 0 <= k < head ==> !adjacent(conn, pt(#[trigger] cs[k]), pt(q)),
    ensures
        bfs_prefix(conn, cs.push(q), head),
{
    let ns = cs.push(q);
    let b = cs.len() as int;
    assert forall|i: int, k: int| i < cs.len() implies earlier_neighbor(conn, ns, i, k) == earlier_neighbor(conn, cs, i, k) by {
        if 0 <= k < i {
            assert(ns[k] == cs[k]);
            assert(ns[i] == cs[i]);
        }
    }
    assert forall|i: int, k: int| i < cs.len() && #[trigger] neighbor_by(conn, cs, i, k) implies neighbor_by(conn, ns, i, k) by {
        let k2 = choose|k2: int| k2 <= k && #[trigger] earlier_neighbor(conn, cs, i, k2);
        assert(earlier_neighbor(conn, ns, i, k2));
    }
    assert(earlier_neighbor(conn, ns, b, head));
    assert forall|i: int| 1 <= i < ns.len() implies #[trigger] neighbor_by(conn, ns, i, head) by {
        if i < b {
            assert(neighbor_by(conn, cs, i, head));
        }
    }
    assert forall|a: int, bb: int, k: int|
        1 <= a < bb && earlier_neighbor(conn, ns, bb, k) implies neighbor_by(conn, ns, a, k) by {
        if bb < b {
            assert(earlier_neighbor(conn, cs, bb, k));
            assert(neighbor_by(conn, cs, a, k));
        } else {
            assert(ns[k] == cs[k]);
            assert(k >= head);
            assert(neighbor_by(conn, cs, a, head));
            let k2 = choose|k2: int| k2 <= head && #[trigger] earlier_neighbor(conn, cs, a, k2);
            assert(earlier_neighbor(conn, ns, a, k2));
        }
    }
}

/// Grows the region of `seed`, in breadth-first order, over the cells of
/// `member` that `visited` does not hold yet, and adds them to `visited`.
///
/// Sharing one `visited` mask across calls keeps separate fills from ever
/// taking the same cell twice.
pub fn grow_region(member: &Mask, visited: &mut Mask, seed: (usize, usize), conn: Connectivity) -> (region: Vec<(usize, usize)>)
    requires
        member.wf(),
        old(visited).wf(),
        old(visited).width == member.width,
        old(visited).height == member.height,
    ensures
        final(visited).wf(),
        final(visited).width == member.width,
        final(visited).height == member.height,
        region@.to_set() == region_of(*member, *old(visited), seed, conn),
        region@.no_duplicates(),
        region.len() > 0 ==> region@[0] == seed,
        bfs_ordered(conn, region@),
        forall|c: (usize, usize)|
            #[trigger] final(visited).holds(c) == (old(visited).holds(c) || region@.contains(c)),
{
    let ghost blocked = *visited;
    let ghost step = fill_step(*member, blocked, conn);
    let mut region: Vec<(usize, usize)> = Vec::new();
    if seed.0 >= member.width || seed.1 >= member.height || !member.get(seed.0, seed.1)
        || visited.get(seed.0, seed.1) {
        assert(region@.to_set() =~= Set::empty());
        return region;
    }
    visited.insert(seed.0, seed.1);
    region.push(seed);
    proof {
        lemma_seed_reachable(step, set![seed], seed);
        assert(region@ =~= seq![seed]);
        assert forall|c: (usize, usize)|
            #[trigger] visited.holds(c) == (blocked.holds(c) || region@.contains(c)) by {
            if c == seed {
                assert(region@[0] == seed);
            }
        }
    }
    let mut head: usize = 0;
    while head < region.len()
        invariant
            member.wf(),
            visited.wf(),
            visited.width == member.width,
            visited.height == member.height,
            blocked.width == member.width,
            blocked.height == member.height,
            step == fill_step(*member, blocked, conn),
            can_seed(*member, blocked, seed),
            head <= region.len(),
            region.len() >= 1,
            region@[0] == seed,
            region@.no_duplicates(),
            bfs_prefix(conn, region@, head as int),
            forall|i: int|
                #![trigger region@[i]]
                0 <= i < region.len() ==> {
                    &&& member.has(region@[i].0 as int, region@[i].1 as int)
                    &&& !blocked.has(region@[i].0 as int, region@[i].1 as int)
                    &&& reachable(step, set![seed], region@[i])
                },
            forall|c: (usize, usize)|
                #[trigger] visited.holds(c) == (blocked.holds(c) || region@.contains(c)),
            forall|i: int, q: (usize, usize)|
                0 <= i < head && #[trigger] step(region@[i], q) ==> region@.contains(q),
        decreases unset_count(visited.bits@) + region.len() - head,
    {
        let p = region[head];
        let mut k: usize = 0;
        let count: usize = match conn {
            Connectivity::Four => 4,
            Connectivity::Eight => 8,
        };
        let ghost len0 = region.len();
        let ghost measure = unset_count(visited.bits@) + region.len();
        while k < count
            invariant
                member.wf(),
                visited.wf(),
                visited.width == member.width,
                visited.height == member.height,
                blocked.width == member.width,
                blocked.height == member.height,
                step == fill_step(*member, blocked, conn),
                can_seed(*member, blocked, seed),
                head < len0 <= region.len(),
                p == region@[head as int],
                bfs_prefix(conn, region@, head as int),
                k <= count,
                count == offset_count(conn),
                region@[0] == seed,
                region@.no_duplicates(),
                unset_count(visited.bits@) + region.len() == measure,
                forall|i: int|
                    #![trigger region@[i]]
                    0 <= i < region.len() ==> {
                        &&& member.has(region@[i].0 as int, region@[i].1 as int)
                        &&& !blocked.has(region@[i].0 as int, region@[i].1 as int)
                        &&& reachable(step, set![seed], region@[i])
                    },
                forall|c: (usize, usize)|
                    #[trigger] visited.holds(c) == (blocked.holds(c) || region@.contains(c)),
                forall|i: int, q: (usize, usize)|
                    0 <= i < head && #[trigger] step(region@[i], q) ==> region@.contains(q),
                forall|j: int, q: (usize, usize)|
                    #![trigger offset(conn, j), step(p, q)]
                    0 <= j < k && pt(q) == (p.0 + offset(conn, j).0, p.1 + offset(conn, j).1)
                        && step(p, q) ==> region@.contains(q),
            decreases count - k,
        {
            let (dx, dy) = neighbor_offset(conn, k);
            let nx: i64 = p.0 as i64 + dx;
            let ny: i64 = p.1 as i64 + dy;
            if 0 <= nx && nx < member.width as i64 && 0 <= ny && ny < member.height as i64 {
                let q: (usize, usize) = (nx as usize, ny as usize);
                if member.get(q.0, q.1) && !visited.get(q.0, q.1) {
                    proof {
                        assert(!visited.holds(q));
                        assert(member.holds(q));
                        lemma_offset_adjacent(conn, pt(p), k as int);
                        assert(step(p, q));
                        lemma_step_reachable(step, set![seed], p, q);
                        assert(!region@.contains(q));
                    }
                    let ghost before = region@;
                    let ghost vis_before = *visited;
                    proof {
                        assert forall|k: int| 0 <= k < head implies !adjacent(conn, pt(#[trigger] region@[k]), pt(q)) by {
                            if adjacent(conn, pt(region@[k]), pt(q)) {
                                assert(step(region@[k], q));
                            }
                        }
                        lemma_bfs_push(conn, region@, q, head as int);
                    }
                    visited.insert(q.0, q.1);
                    region.push(q);
                    proof {
                        assert(region@ == before.push(q));
                        assert forall|r: (usize, usize)| before.contains(r) implies region@.contains(r) by {
                            let j = choose|j: int| 0 <= j < before.len() && before[j] == r;
                            assert(region@[j] == r);
                        }
                        assert forall|c: (usize, usize)|
                            #[trigger] visited.holds(c) == (blocked.holds(c) || region@.contains(c)) by {
                            assert(visited.holds(c) == (vis_before.holds(c) || c == q));
                            assert(vis_before.holds(c) == (blocked.holds(c) || before.contains(c)));
                            if c == q {
                                assert(region@[region.len() - 1] == q);
                            } else if region@.contains(c) {
                                let j = choose|j: int| 0 <= j < region.len() && region@[j] == c;
                                assert(j < before.len());
                                assert(before[j] == c);
                            }
                        }
                    }
                }
            }
            proof {
                assert forall|q: (usize, usize)|
                    pt(q) == (p.0 + offset(conn, k as int).0, p.1 + offset(conn, k as int).1)
                        && #[trigger] step(p, q) implies region@.contains(q) by {
                    assert(member.holds(q));
                    assert(!blocked.holds(q));
                    assert(visited.holds(q) == (blocked.holds(q) || region@.contains(q)));
                }
            }
            k = k + 1;
        }
        proof {
            assert forall|q: (usize, usize)| #[trigger] step(p, q) implies region@.contains(q) by {
                let j = lemma_adjacent_offset(conn, pt(p), pt(q));
            }
        }
        proof {
            assert forall|i: int| 1 <= i < region.len() implies #[trigger] neighbor_by(conn, region@, i, head + 1) by {
                assert(neighbor_by(conn, region@, i, head as int));
                let k2 = choose|k2: int| k2 <= head && #[trigger] earlier_neighbor(conn, region@, i, k2);
            }
        }
        head = head + 1;
    }
    proof {
        assert forall|i: int| 1 <= i < region.len() implies #[trigger] neighbor_by(conn, region@, i, i - 1) by {
            assert(neighbor_by(conn, region@, i, head as int));
            let k2 = choose|k2: int| k2 <= head && #[trigger] earlier_neighbor(conn, region@, i, k2);
        }
        let s = region@.to_set();
        assert(closed_under(step, s)) by {
            assert forall|a: (usize, usize), b: (usize, usize)|
                s.contains(a) && #[trigger] step(a, b) implies s.contains(b) by {
                let i = choose|i: int| 0 <= i < region.len() && region@[i] == a;
            }
        }
        assert(set![seed].subset_of(s)) by {
            assert(region@[0] == seed);
        }
        let whole = region_of(*member, blocked, seed, conn);
        assert forall|q: (usize, usize)| #[trigger] whole.contains(q) implies s.contains(q) by {
            lemma_closed_holds_reachable(step, set![seed], s, q);
        }
        assert forall|q: (usize, usize)| #[trigger] s.contains(q) implies whole.contains(q) by {
            let i = choose|i: int| 0 <= i < region.len() && region@[i] == q;
        }
        assert(s =~= region_of(*member, blocked, seed, conn));
    }
    region
}

} // verus!
