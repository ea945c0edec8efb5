use roomgrid::cables::Sockets;

fn two_plugs_three_outlets() -> Sockets {
    Sockets { plug_outlet: vec![Some(1), None], outlet_plug: vec![None, Some(0), None] }
}

#[test]
fn nothing_carried_nothing_open() {
    let mut s = two_plugs_three_outlets();
    let out = s.outlet_step(None, &vec![0]);
    assert!(out.open_outlets.is_empty());
    assert!(!out.dropped);
    assert_eq!(s.plug_outlet, vec![Some(1), None]);
    assert_eq!(s.outlet_plug, vec![None, Some(0), None]);
}

#[test]
fn picking_up_a_plug_frees_its_outlet() {
    let mut s = two_plugs_three_outlets();
    let out = s.outlet_step(Some(0), &vec![]);
    assert_eq!(out.open_outlets, vec![0, 1, 2]);
    assert!(!out.dropped);
    assert_eq!(s.plug_outlet, vec![None, None]);
    assert_eq!(s.outlet_plug, vec![None, None, None]);
}

#[test]
fn activating_a_free_outlet_plugs_in() {
    let mut s = two_plugs_three_outlets();
    let out = s.outlet_step(Some(1), &vec![1, 2]);
    // Outlet 1 is taken by plug 0, so plug 1 goes into outlet 2.
    assert_eq!(out.open_outlets, vec![0, 2]);
    assert!(out.dropped);
    assert_eq!(s.plug_outlet, vec![Some(1), Some(2)]);
    assert_eq!(s.outlet_plug, vec![None, Some(0), Some(1)]);
}

#[test]
fn unplug_and_plug_in_keep_both_sides() {
    let mut s = two_plugs_three_outlets();
    s.unplug(0);
    assert_eq!(s.outlet_plug, vec![None, None, None]);
    s.plug_in(1, 0);
    assert_eq!(s.plug_outlet, vec![None, Some(0)]);
    assert_eq!(s.outlet_plug, vec![Some(1), None, None]);
    assert_eq!(s.free_outlets(), vec![1, 2]);
}
