use roomgrid::mainframe::{Mainframe, RememberedMainframes};

#[test]
fn activation_needs_charge() {
    let mut m = Mainframe { active: false, has_charge: false, location: (3, 4) };
    m.activate(true);
    assert!(!m.active);
    m.has_charge = true;
    m.activate(false);
    assert!(!m.active);
    m.activate(true);
    assert!(m.active);
    m.activate(true);
    assert!(!m.active);
}

#[test]
fn activation_is_remembered_across_reloads() {
    let mut memory = RememberedMainframes::new();
    let mut m = Mainframe { active: true, has_charge: true, location: (3, 4) };
    memory.remember(2, &mut m);
    // The room is reloaded: a fresh mainframe at the same cell starts off.
    let mut reloaded = Mainframe { active: false, has_charge: false, location: (3, 4) };
    memory.remember(2, &mut reloaded);
    assert!(reloaded.active);
    // Another room's mainframe at the same cell is not affected.
    let mut other = Mainframe { active: false, has_charge: false, location: (3, 4) };
    memory.remember(5, &mut other);
    assert!(!other.active);
    assert_eq!(memory.remembered.len(), 1);
}
