//! The electrical grid: which cells carry charge this tick.
use vstd::prelude::*;
use vstd::seq_lib::seq_to_set_is_finite;
use crate::reach::{
    lemma_reachable_mono, is_path, lemma_reachable_iff_path,
    reachable, closed_under, lemma_seed_reachable, lemma_step_reachable,
    lemma_closed_holds_reachable,
};

verus! {

/// A cell of the world grid.
#[derive(Clone, Copy, Debug, PartialEq, Eq, Hash, Structural)]
pub struct Pos {
    pub x: i64,
    pub y: i64,
}

/// `p` and `q` share an edge.
pub open spec fn edge_adjacent(p: Pos, q: Pos) -> bool {
    (p.x == q.x && (q.y - p.y == 1 || p.y - q.y == 1)) || (p.y == q.y && (q.x - p.x == 1 || p.x
        - q.x == 1))
}

/// Whether `p` and `q` share an edge.
pub fn are_edge_adjacent(p: Pos, q: Pos) -> (r: bool)
    ensures
        r == edge_adjacent(p, q),
{
    let dx: i128 = q.x as i128 - p.x as i128;
    let dy: i128 = q.y as i128 - p.y as i128;
    (dx == 0 && (dy == 1 || dy == -1)) || (dy == 0 && (dx == 1 || dx == -1))
}

/// A cable whose two plugs both sit in outlets, joining the outlets' cells.
#[derive(Clone, Copy, Debug, PartialEq, Eq, Hash, Structural)]
pub struct Cable {
    pub a: Pos,
    pub b: Pos,
}

/// What the grid is built from in one tick.
#[derive(Clone, Debug)]
pub struct GridInputs {
    /// Cells that originate power: sources, and mainframes that are switched on.
    pub seeds: Vec<Pos>,
    /// Cells of mainframes that are switched off; they take charge but pass none on.
    pub sinks: Vec<Pos>,
    /// Cells of wires and outlets.
    pub wires: Vec<Pos>,
    /// Cables plugged in at both ends.
    pub cables: Vec<Cable>,
}

/// One step of charge: onto an edge neighbour that holds a wire, or across a cable.
pub open spec fn charge_step(wires: Seq<Pos>, cables: Seq<Cable>) -> spec_fn(Pos, Pos) -> bool {
    |p: Pos, q: Pos|
        (edge_adjacent(p, q) && wires.contains(q)) || cables.contains(Cable { a: p, b: q })
            || cables.contains(Cable { a: q, b: p })
}

/// `q` carries charge: some seed reaches it by wire adjacency and cables.
pub open spec fn energized(inputs: GridInputs, q: Pos) -> bool {
    reachable(charge_step(inputs.wires@, inputs.cables@), inputs.seeds@.to_set(), q)
}

/// A sink takes charge from an energized edge neighbour.
pub open spec fn sink_charged(inputs: GridInputs, s: Pos) -> bool {
    exists|p: Pos| energized(inputs, p) && #[trigger] edge_adjacent(p, s)
}

/// The outcome of one tick.
#[derive(Clone, Debug)]
pub struct PowerGrid {
    /// The energized cells, each once.
    pub active: Vec<Pos>,
    /// For each sink, in order, whether it has charge.
    pub sink_charge: Vec<bool>,
}

/// Every cell that could ever carry charge.
pub open spec fn universe(inputs: GridInputs) -> Seq<Pos> {
    inputs.seeds@ + inputs.wires@ + inputs.cables@.map_values(|c: Cable| c.a)
        + inputs.cables@.map_values(|c: Cable| c.b)
}

/// Whether `v` holds `p`.
pub fn contains_pos(v: &Vec<Pos>, p: Pos) -> (r: bool)
    ensures
        r == v@.contains(p),
{
    let mut i: usize = 0;
    while i < v.len()
        invariant
            i <= v.len(),
            forall|j: int| 0 <= j < i ==> v@[j] != p,
        decreases v.len() - i,
    {
        if v[i] == p {
            return true;
        }
        i = i + 1;
    }
    false
}

proof fn lemma_universe_bound(inputs: GridInputs, active: Seq<Pos>)
    requires
        sound(inputs, active),
    ensures
        active.len() <= universe(inputs).to_set().len(),
{
    let u = universe(inputs).to_set();
    seq_to_set_is_finite(universe(inputs));
    active.unique_seq_to_set();
    seq_to_set_is_finite(active);
    assert(active.to_set().subset_of(u)) by {
        assert forall|p: Pos| active.to_set().contains(p) implies u.contains(p) by {
            let i = choose|i: int| 0 <= i < active.len() && active[i] == p;
        }
    }
    vstd::set_lib::lemma_len_subset(active.to_set(), u);
}

/// Every listed cell is distinct, energized, and one of the input cells.
pub open spec fn sound(inputs: GridInputs, active: Seq<Pos>) -> bool {
    &&& active.no_duplicates()
    &&& forall|j: int|
        #![trigger active[j]]
        0 <= j < active.len() ==> energized(inputs, active[j]) && universe(inputs).contains(
            active[j],
        )
}

/// Appends `q` to `active` unless it is there already.
fn add_cell(inputs: &GridInputs, active: &mut Vec<Pos>, q: Pos)
    requires
        sound(*inputs, old(active)@),
        energized(*inputs, q),
        universe(*inputs).contains(q),
    ensures
        sound(*inputs, final(active)@),
        final(active)@.contains(q),
        final(active).len() >= old(active).len(),
        forall|j: int| 0 <= j < old(active).len() ==> #[trigger] final(active)@[j] == old(active)@[j],
{
    if !contains_pos(active, q) {
        active.push(q);
        assert(active@[active.len() - 1] == q);
    }
}

/// Adds every cell one step of charge away from `p`.
fn spread_from(inputs: &GridInputs, active: &mut Vec<Pos>, p: Pos)
    requires
        sound(*inputs, old(active)@),
        energized(*inputs, p),
    ensures
        sound(*inputs, final(active)@),
        final(active).len() >= old(active).len(),
        forall|j: int| 0 <= j < old(active).len() ==> #[trigger] final(active)@[j] == old(active)@[j],
        forall|q: Pos|
            #[trigger] charge_step(inputs.wires@, inputs.cables@)(p, q) ==> final(active)@.contains(q),
{
    let ghost step = charge_step(inputs.wires@, inputs.cables@);
    let ghost seeds = inputs.seeds@.to_set();
    let ghost start = active@;
    let ghost u = universe(*inputs);
    let mut w: usize = 0;
    while w < inputs.wires.len()
        invariant
            step == charge_step(inputs.wires@, inputs.cables@),
            seeds == inputs.seeds@.to_set(),
            u == universe(*inputs),
            energized(*inputs, p),
            w <= inputs.wires.len(),
            sound(*inputs, active@),
            active.len() >= start.len(),
            forall|j: int| 0 <= j < start.len() ==> #[trigger] active@[j] == start[j],
            forall|j: int|
                0 <= j < w && edge_adjacent(p, #[trigger] inputs.wires@[j]) ==> active@.contains(
                    inputs.wires@[j],
                ),
        decreases inputs.wires.len() - w,
    {
        let q = inputs.wires[w];
        if are_edge_adjacent(p, q) {
            proof {
                assert(inputs.wires@.contains(q));
                assert(step(p, q));
                lemma_step_reachable(step, seeds, p, q);
                assert(u[inputs.seeds.len() + w] == q);
            }
            let ghost before = active@;
            add_cell(inputs, active, q);
            proof {
                assert forall|j: int|
                    0 <= j < w + 1 && edge_adjacent(p, #[trigger] inputs.wires@[j]) implies active@.contains(
                    inputs.wires@[j],
                ) by {
                    if j < w {
                        let k = choose|k: int| 0 <= k < before.len() && before[k] == inputs.wires@[j];
                        assert(active@[k] == before[k]);
                    }
                }
            }
        }
        w = w + 1;
    }
    let mut c: usize = 0;
    while c < inputs.cables.len()
        invariant
            step == charge_step(inputs.wires@, inputs.cables@),
            seeds == inputs.seeds@.to_set(),
            u == universe(*inputs),
            energized(*inputs, p),
            c <= inputs.cables.len(),
            sound(*inputs, active@),
            active.len() >= start.len(),
            forall|j: int| 0 <= j < start.len() ==> #[trigger] active@[j] == start[j],
            forall|q: Pos| edge_adjacent(p, q) && #[trigger] inputs.wires@.contains(q) ==> active@.contains(q),
            forall|j: int|
                0 <= j < c && (#[trigger] inputs.cables@[j]).a == p ==> active@.contains(inputs.cables@[j].b),
            forall|j: int|
                0 <= j < c && (#[trigger] inputs.cables@[j]).b == p ==> active@.contains(inputs.cables@[j].a),
        decreases inputs.cables.len() - c,
    {
        let cable = inputs.cables[c];
        let ghost before = active@;
        let ghost n = inputs.seeds.len() + inputs.wires.len();
        let ghost m = inputs.cables.len();
        proof {
            assert(inputs.cables@.contains(cable));
            assert(u[n + c] == cable.a);
            assert(u[n + m + c] == cable.b);
        }
        if cable.a == p {
            proof {
                assert(cable == Cable { a: p, b: cable.b });
                assert(step(p, cable.b));
                lemma_step_reachable(step, seeds, p, cable.b);
            }
            add_cell(inputs, active, cable.b);
        }
        if cable.b == p {
            proof {
                assert(cable == Cable { a: cable.a, b: p });
                assert(step(p, cable.a));
                lemma_step_reachable(step, seeds, p, cable.a);
            }
            add_cell(inputs, active, cable.a);
        }
        proof {
            assert forall|r: Pos| before.contains(r) implies active@.contains(r) by {
                let k = choose|k: int| 0 <= k < before.len() && before[k] == r;
                assert(active@[k] == before[k]);
            }
        }
        c = c + 1;
    }
    proof {
        assert forall|q: Pos| #[trigger] step(p, q) implies active@.contains(q) by {
            if inputs.cables@.contains(Cable { a: p, b: q }) {
                let j = choose|j: int| 0 <= j < inputs.cables.len() && inputs.cables@[j] == Cable { a: p, b: q };
                assert(inputs.cables@[j].a == p);
            } else if inputs.cables@.contains(Cable { a: q, b: p }) {
                let j = choose|j: int| 0 <= j < inputs.cables.len() && inputs.cables@[j] == Cable { a: q, b: p };
                assert(inputs.cables@[j].b == p);
            }
        }
    }
}

/// Recomputes the grid from scratch: charge spreads from the seeds to edge
/// neighbours that hold a wire and across cables, and each sink next to an
/// energized cell is marked.
pub fn compute_charge(inputs: &GridInputs) -> (grid: PowerGrid)
    ensures
        grid.active@.no_duplicates(),
        forall|q: Pos| #[trigger] grid.active@.contains(q) == energized(*inputs, q),
        grid.sink_charge.len() == inputs.sinks.len(),
        forall|i: int|
            0 <= i < inputs.sinks.len() ==> #[trigger] grid.sink_charge@[i] == sink_charged(
                *inputs,
                inputs.sinks@[i],
            ),
{
    let ghost step = charge_step(inputs.wires@, inputs.cables@);
    let ghost seeds = inputs.seeds@.to_set();
    let ghost u = universe(*inputs);
    let mut active: Vec<Pos> = Vec::new();
    let mut i: usize = 0;
    while i < inputs.seeds.len()
        invariant
            i <= inputs.seeds.len(),
            seeds == inputs.seeds@.to_set(),
            u == universe(*inputs),
            step == charge_step(inputs.wires@, inputs.cables@),
            sound(*inputs, active@),
            forall|j: int| 0 <= j < i ==> active@.contains(#[trigger] inputs.seeds@[j]),
        decreases inputs.seeds.len() - i,
    {
        let s = inputs.seeds[i];
        proof {
            assert(inputs.seeds@.contains(s));
            lemma_seed_reachable(step, seeds, s);
            assert(u[i as int] == s);
        }
        let ghost before = active@;
        add_cell(inputs, &mut active, s);
        proof {
            assert forall|j: int| 0 <= j < i + 1 implies active@.contains(#[trigger] inputs.seeds@[j]) by {
                if j < i {
                    let k = choose|k: int| 0 <= k < before.len() && before[k] == inputs.seeds@[j];
                    assert(active@[k] == before[k]);
                }
            }
        }
        i = i + 1;
    }
    let mut head: usize = 0;
    while head < active.len()
        invariant
            seeds == inputs.seeds@.to_set(),
            u == universe(*inputs),
            step == charge_step(inputs.wires@, inputs.cables@),
            head <= active.len(),
            sound(*inputs, active@),
            forall|j: int| 0 <= j < inputs.seeds.len() ==> active@.contains(#[trigger] inputs.seeds@[j]),
            forall|j: int, q: Pos| 0 <= j < head && #[trigger] step(active@[j], q) ==> active@.contains(q),
        decreases u.to_set().len() - head,
    {
        let p = active[head];
        let ghost before = active@;
        spread_from(inputs, &mut active, p);
        proof {
            lemma_universe_bound(*inputs, active@);
            assert forall|j: int, q: Pos| 0 <= j < head + 1 && #[trigger] step(active@[j], q) implies active@.contains(q) by {
                assert(active@[j] == before[j]);
                if j < head {
                    let k = choose|k: int| 0 <= k < before.len() && before[k] == q;
                    assert(active@[k] == before[k]);
                }
            }
            assert forall|j: int| 0 <= j < inputs.seeds.len() implies active@.contains(#[trigger] inputs.seeds@[j]) by {
                let k = choose|k: int| 0 <= k < before.len() && before[k] == inputs.seeds@[j];
                assert(active@[k] == before[k]);
            }
        }
        head = head + 1;
    }
    proof {
        let s = active@.to_set();
        assert(seeds.subset_of(s)) by {
            assert forall|q: Pos| seeds.contains(q) implies s.contains(q) by {
                let j = choose|j: int| 0 <= j < inputs.seeds.len() && inputs.seeds@[j] == q;
            }
        }
        assert(closed_under(step, s)) by {
            assert forall|a: Pos, b: Pos| s.contains(a) && #[trigger] step(a, b) implies s.contains(b) by {
                let j = choose|j: int| 0 <= j < active.len() && active@[j] == a;
            }
        }
        assert forall|q: Pos| #[trigger] active@.contains(q) == energized(*inputs, q) by {
            if energized(*inputs, q) {
                lemma_closed_holds_reachable(step, seeds, s, q);
            }
            if active@.contains(q) {
                let j = choose|j: int| 0 <= j < active.len() && active@[j] == q;
            }
        }
    }
    let mut sink_charge: Vec<bool> = Vec::new();
    let mut k: usize = 0;
    while k < inputs.sinks.len()
        invariant
            k <= inputs.sinks.len(),
            sink_charge.len() == k,
            forall|q: Pos| #[trigger] active@.contains(q) == energized(*inputs, q),
            forall|j: int|
                0 <= j < k ==> #[trigger] sink_charge@[j] == sink_charged(*inputs, inputs.sinks@[j]),
        decreases inputs.sinks.len() - k,
    {
        let target = inputs.sinks[k];
        let mut charged = false;
        let mut j: usize = 0;
        while j < active.len()
            invariant
                j <= active.len(),
                forall|q: Pos| #[trigger] active@.contains(q) == energized(*inputs, q),
                charged == exists|l: int| 0 <= l < j && #[trigger] edge_adjacent(active@[l], target),
            decreases active.len() - j,
        {
            if are_edge_adjacent(active[j], target) {
                charged = true;
            }
            j = j + 1;
        }
        proof {
            if charged {
                let l = choose|l: int| 0 <= l < j && #[trigger] edge_adjacent(active@[l], target);
                assert(active@.contains(active@[l]));
            }
            if sink_charged(*inputs, target) {
                let p = choose|p: Pos| energized(*inputs, p) && #[trigger] edge_adjacent(p, target);
                assert(active@.contains(p));
                let l = choose|l: int| 0 <= l < active.len() && active@[l] == p;
                assert(edge_adjacent(active@[l], target));
            }
        }
        sink_charge.push(charged);
        k = k + 1;
    }
    PowerGrid { active, sink_charge }
}

/// Unplugging cables, or otherwise taking cables away, never energizes a
/// cell: whatever is energized afterwards was energized before. A cell whose
/// every path from a seed ran over a removed cable loses its charge, since
/// charge is exactly reachability over what is left.
pub proof fn lemma_unplugging_only_removes(before: GridInputs, after: GridInputs, q: Pos)
    requires
        after.seeds@ == before.seeds@,
        after.wires@ == before.wires@,
        forall|c: Cable| #[trigger] after.cables@.contains(c) ==> before.cables@.contains(c),
        energized(after, q),
    ensures
        energized(before, q),
{
    let small = charge_step(after.wires@, after.cables@);
    let big = charge_step(before.wires@, before.cables@);
    assert forall|p: Pos, r: Pos| #[trigger] small(p, r) implies big(p, r) by {
        if after.cables@.contains(Cable { a: p, b: r }) {
            assert(before.cables@.contains(Cable { a: p, b: r }));
        }
        if after.cables@.contains(Cable { a: r, b: p }) {
            assert(before.cables@.contains(Cable { a: r, b: p }));
        }
    }
    lemma_reachable_mono(small, big, before.seeds@.to_set(), q);
}

/// A cell is energized exactly when a path runs to it from a seed, each step
/// onto an edge-adjacent wire or across a plugged-in cable.
pub proof fn lemma_energized_iff_path(inputs: GridInputs, q: Pos)
    ensures
        energized(inputs, q) <==> exists|path: Seq<Pos>|
            is_path(charge_step(inputs.wires@, inputs.cables@), inputs.seeds@.to_set(), path)
                && path.last() == q,
{
    lemma_reachable_iff_path(charge_step(inputs.wires@, inputs.cables@), inputs.seeds@.to_set(), q);
}

/// A mainframe's cell, and whether it is switched on.
#[derive(Clone, Copy, Debug, PartialEq, Eq, Structural)]
pub struct MainframeAt {
    pub at: Pos,
    pub active: bool,
}

/// A plug: the cell of the outlet it sits in, if any, and the number of the
/// plug at the other end of its cable.
#[derive(Clone, Copy, Debug, PartialEq, Eq, Structural)]
pub struct PlugAt {
    pub outlet: Option<Pos>,
    pub other_end: usize,
}

/// The cells of the mainframes that are switched on (`on`) or off.
pub open spec fn mainframe_cells(ms: Seq<MainframeAt>, on: bool) -> Seq<Pos>
    decreases ms.len(),
{
    if ms.len() == 0 {
        Seq::empty()
    } else {
        mainframe_cells(ms.drop_last(), on) + if ms.last().active == on {
            seq![ms.last().at]
        } else {
            Seq::empty()
        }
    }
}

/// The cable of plug `p`, when it and the plug at the other end both sit in outlets.
pub open spec fn cable_of(ps: Seq<PlugAt>, p: int) -> Seq<Cable> {
    let other = ps[p].other_end as int;
    if other < ps.len() && ps[p].outlet is Some && ps[other].outlet is Some {
        seq![Cable { a: ps[p].outlet.unwrap(), b: ps[other].outlet.unwrap() }]
    } else {
        Seq::empty()
    }
}

/// The cables of the first `k` plugs.
pub open spec fn cables_of(ps: Seq<PlugAt>, k: int) -> Seq<Cable>
    decreases k,
{
    if k <= 0 {
        Seq::empty()
    } else {
        cables_of(ps, k - 1) + cable_of(ps, k - 1)
    }
}

/// Gathers a tick's grid inputs: power sources and switched-on mainframes are
/// seeds, switched-off mainframes are sinks, wires and outlets are wire
/// cells, and a cable joins two outlets when both its plugs are plugged in.
pub fn build_inputs(
    sources: &Vec<Pos>,
    mainframes: &Vec<MainframeAt>,
    wires: &Vec<Pos>,
    outlets: &Vec<Pos>,
    plugs: &Vec<PlugAt>,
) -> (r: GridInputs)
    ensures
        r.seeds@ == sources@ + mainframe_cells(mainframes@, true),
        r.sinks@ == mainframe_cells(mainframes@, false),
        r.wires@ == wires@ + outlets@,
        r.cables@ == cables_of(plugs@, plugs.len() as int),
{
    let mut seeds: Vec<Pos> = Vec::new();
    let mut i: usize = 0;
    while i < sources.len()
        invariant
            i <= sources.len(),
            seeds@ == sources@.take(i as int),
        decreases sources.len() - i,
    {
        seeds.push(sources[i]);
        assert(sources@.take(i + 1) == sources@.take(i as int).push(sources@[i as int]));
        i = i + 1;
    }
    assert(sources@.take(sources.len() as int) == sources@);
    let mut sinks: Vec<Pos> = Vec::new();
    let mut k: usize = 0;
    while k < mainframes.len()
        invariant
            k <= mainframes.len(),
            seeds@ == sources@ + mainframe_cells(mainframes@.take(k as int), true),
            sinks@ == mainframe_cells(mainframes@.take(k as int), false),
        decreases mainframes.len() - k,
    {
        let m = mainframes[k];
        assert(mainframes@.take(k + 1).drop_last() == mainframes@.take(k as int));
        if m.active {
            seeds.push(m.at);
        } else {
            sinks.push(m.at);
        }
        k = k + 1;
    }
    assert(mainframes@.take(mainframes.len() as int) == mainframes@);
    let mut all_wires: Vec<Pos> = Vec::new();
    let mut w: usize = 0;
    while w < wires.len()
        invariant
            w <= wires.len(),
            all_wires@ == wires@.take(w as int),
        decreases wires.len() - w,
    {
        all_wires.push(wires[w]);
        assert(wires@.take(w + 1) == wires@.take(w as int).push(wires@[w as int]));
        w = w + 1;
    }
    assert(wires@.take(wires.len() as int) == wires@);
    let mut o: usize = 0;
    while o < outlets.len()
        invariant
            o <= outlets.len(),
            all_wires@ == wires@ + outlets@.take(o as int),
        decreases outlets.len() - o,
    {
        all_wires.push(outlets[o]);
        assert(outlets@.take(o + 1) == outlets@.take(o as int).push(outlets@[o as int]));
        o = o + 1;
    }
    assert(outlets@.take(outlets.len() as int) == outlets@);
    let mut cables: Vec<Cable> = Vec::new();
    let mut p: usize = 0;
    while p < plugs.len()
        invariant
            p <= plugs.len(),
            cables@ == cables_of(plugs@, p as int),
        decreases plugs.len() - p,
    {
        let plug = plugs[p];
        if plug.other_end < plugs.len() {
            let other = plugs[plug.other_end];
            if let (Some(a), Some(b)) = (plug.outlet, other.outlet) {
                cables.push(Cable { a, b });
            }
        }
        assert(cables@ =~= cables_of(plugs@, p + 1));
        p = p + 1;
    }
    GridInputs { seeds, sinks, wires: all_wires, cables }
}

} // verus!
