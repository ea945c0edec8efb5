use roomgrid::power::{build_inputs, compute_charge, Cable, GridInputs, MainframeAt, PlugAt, Pos};

fn p(x: i64, y: i64) -> Pos {
    Pos { x, y }
}

fn sorted(mut v: Vec<Pos>) -> Vec<(i64, i64)> {
    let mut out: Vec<(i64, i64)> = v.drain(..).map(|q| (q.x, q.y)).collect();
    out.sort();
    out
}

fn strip(cables: Vec<Cable>) -> GridInputs {
    // source, wire, outlet, gap, outlet, wire, switched-off mainframe
    GridInputs {
        seeds: vec![p(0, 0)],
        sinks: vec![p(6, 0)],
        wires: vec![p(1, 0), p(2, 0), p(4, 0), p(5, 0)],
        cables,
    }
}

#[test]
fn charge_stops_at_a_gap() {
    let grid = compute_charge(&strip(vec![]));
    assert_eq!(sorted(grid.active), vec![(0, 0), (1, 0), (2, 0)]);
    assert_eq!(grid.sink_charge, vec![false]);
}

#[test]
fn a_cable_bridges_the_gap() {
    let grid = compute_charge(&strip(vec![Cable { a: p(2, 0), b: p(4, 0) }]));
    assert_eq!(sorted(grid.active), vec![(0, 0), (1, 0), (2, 0), (4, 0), (5, 0)]);
    assert_eq!(grid.sink_charge, vec![true]);
}

#[test]
fn cables_work_both_ways() {
    let grid = compute_charge(&strip(vec![Cable { a: p(4, 0), b: p(2, 0) }]));
    assert_eq!(grid.sink_charge, vec![true]);
}

#[test]
fn unplugging_removes_only_the_cut_off_cells() {
    let mut inputs = strip(vec![Cable { a: p(2, 0), b: p(4, 0) }]);
    inputs.wires.push(p(2, 1));
    let before = compute_charge(&inputs);
    assert!(before.active.contains(&p(5, 0)));
    inputs.cables.clear();
    let after = compute_charge(&inputs);
    assert_eq!(sorted(after.active), vec![(0, 0), (1, 0), (2, 0), (2, 1)]);
}

#[test]
fn sinks_pass_no_charge_on() {
    let inputs = GridInputs {
        seeds: vec![p(0, 0)],
        sinks: vec![p(1, 0)],
        wires: vec![p(2, 0)],
        cables: vec![],
    };
    let grid = compute_charge(&inputs);
    assert_eq!(sorted(grid.active), vec![(0, 0)]);
    assert_eq!(grid.sink_charge, vec![true]);
}

#[test]
fn diagonal_wires_do_not_connect() {
    let inputs = GridInputs { seeds: vec![p(0, 0)], sinks: vec![], wires: vec![p(1, 1)], cables: vec![] };
    assert_eq!(sorted(compute_charge(&inputs).active), vec![(0, 0)]);
}

#[test]
fn duplicate_seeds_are_listed_once() {
    let inputs = GridInputs {
        seeds: vec![p(3, 3), p(3, 3)],
        sinks: vec![],
        wires: vec![p(3, 4)],
        cables: vec![],
    };
    assert_eq!(sorted(compute_charge(&inputs).active), vec![(3, 3), (3, 4)]);
}

#[test]
fn extreme_coordinates_do_not_overflow() {
    let inputs = GridInputs {
        seeds: vec![p(i64::MAX, 0)],
        sinks: vec![],
        wires: vec![p(i64::MIN, 0), p(i64::MAX - 1, 0)],
        cables: vec![],
    };
    assert_eq!(sorted(compute_charge(&inputs).active), vec![(i64::MAX - 1, 0), (i64::MAX, 0)]);
}

#[test]
fn inputs_split_mainframes_and_pair_plugs() {
    let mainframes = vec![
        MainframeAt { at: p(5, 5), active: true },
        MainframeAt { at: p(6, 6), active: false },
    ];
    let plugs = vec![
        PlugAt { outlet: Some(p(2, 0)), other_end: 1 },
        PlugAt { outlet: Some(p(4, 0)), other_end: 0 },
        PlugAt { outlet: Some(p(9, 9)), other_end: 3 },
        PlugAt { outlet: None, other_end: 2 },
    ];
    let inputs = build_inputs(&vec![p(0, 0)], &mainframes, &vec![p(1, 0)], &vec![p(2, 0), p(4, 0)], &plugs);
    assert_eq!(inputs.seeds, vec![p(0, 0), p(5, 5)]);
    assert_eq!(inputs.sinks, vec![p(6, 6)]);
    assert_eq!(inputs.wires, vec![p(1, 0), p(2, 0), p(4, 0)]);
    assert_eq!(inputs.cables, vec![Cable { a: p(2, 0), b: p(4, 0) }, Cable { a: p(4, 0), b: p(2, 0) }]);
}
