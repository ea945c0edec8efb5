use roomgrid::hallway::{HallwayJunction, Shift, SUBCELLS};
use roomgrid::streaming::{LevelStreamer, NearTrigger, RoomAction, Tick};

fn junction(fingerprint: u32, cells: Vec<(usize, usize)>) -> HallwayJunction {
    let sum_x = cells.iter().map(|c| c.0 as u64).sum();
    let sum_y = cells.iter().map(|c| c.1 as u64).sum();
    HallwayJunction { fingerprint, cells, sum_x, sum_y }
}

fn two_rooms() -> LevelStreamer {
    let room0 = vec![junction(7, vec![(5, 2), (5, 3)])];
    let room1 = vec![junction(7, vec![(0, 2), (0, 3)])];
    LevelStreamer::new(vec![room0, room1], 0).unwrap()
}

fn tick(elapsed_ms: u32, near: Vec<NearTrigger>, nearest: Option<usize>) -> Tick {
    Tick { elapsed_ms, player_present: true, near_triggers: near, nearest_room: nearest, close_rooms: vec![] }
}

fn in_hall(room: usize) -> Vec<NearTrigger> {
    vec![NearTrigger { room, fingerprint: 7 }]
}

#[test]
fn start_room_must_exist() {
    assert!(LevelStreamer::new(vec![], 0).is_none());
}

#[test]
fn first_tick_loads_start_room_with_player() {
    let mut s = two_rooms();
    let acts = s.step(&tick(16, vec![], None));
    assert_eq!(acts, vec![RoomAction::Load { room: 0, shift: Shift { x: 0, z: 0 }, spawn_player: true }]);
    assert_eq!(s.active[0], Some(Shift { x: 0, z: 0 }));
}

#[test]
fn no_player_no_change() {
    let mut s = two_rooms();
    s.step(&tick(16, vec![], None));
    let mut t = tick(16, in_hall(0), Some(0));
    t.player_present = false;
    assert!(s.step(&t).is_empty());
    assert_eq!(s.active[1], None);
}

#[test]
fn hallway_loads_neighbour_aligned() {
    let mut s = two_rooms();
    s.step(&tick(16, vec![], None));
    let acts = s.step(&tick(16, in_hall(0), Some(0)));
    assert_eq!(acts, vec![RoomAction::Load { room: 1, shift: Shift { x: 5 * SUBCELLS, z: 0 }, spawn_player: false }]);
    assert_eq!(s.active[1], Some(Shift { x: 5 * SUBCELLS, z: 0 }));
    // Standing in the hallway again loads nothing more.
    assert!(s.step(&tick(16, in_hall(1), Some(1))).is_empty());
}

#[test]
fn leaving_parks_the_old_room_and_reentry_restores_it() {
    let mut s = two_rooms();
    s.step(&tick(16, vec![], None));
    s.step(&tick(16, in_hall(0), Some(0)));
    let acts = s.step(&tick(100, vec![], Some(1)));
    assert_eq!(acts, vec![RoomAction::Retire { room: 0 }]);
    assert_eq!(s.active[0], None);
    assert_eq!(s.parked[0].unwrap().time_left_ms, 3900);
    let acts = s.step(&tick(1000, in_hall(1), Some(1)));
    assert_eq!(acts, vec![RoomAction::Restore { room: 0 }]);
    assert_eq!(s.active[0], Some(Shift { x: 0, z: 0 }));
    assert_eq!(s.parked[0], None);
}

#[test]
fn close_rooms_are_kept() {
    let mut s = two_rooms();
    s.step(&tick(16, vec![], None));
    s.step(&tick(16, in_hall(0), Some(0)));
    let mut t = tick(16, vec![], Some(1));
    t.close_rooms = vec![0];
    assert!(s.step(&t).is_empty());
    assert!(s.active[0].is_some());
}

#[test]
fn expired_room_is_despawned_once() {
    let mut s = two_rooms();
    s.step(&tick(16, vec![], None));
    s.step(&tick(16, in_hall(0), Some(0)));
    s.step(&tick(0, vec![], Some(1)));
    // 4000 ms of grace: still parked at exactly zero.
    assert!(s.step(&tick(4000, vec![], Some(1))).is_empty());
    assert!(s.step(&tick(1, vec![], Some(1))).is_empty());
    let acts = s.step(&tick(16, vec![], Some(1)));
    assert_eq!(acts, vec![RoomAction::Despawn { room: 0 }]);
    assert_eq!(s.parked[0], None);
    assert_eq!(s.active[0], None);
    assert!(s.step(&tick(16, vec![], Some(1))).is_empty());
}

#[test]
fn unmatched_hallway_loads_nothing() {
    let room0 = vec![junction(7, vec![(5, 2), (5, 3)])];
    let room1 = vec![junction(7, vec![(0, 2), (0, 3), (0, 4)])];
    let mut s = LevelStreamer::new(vec![room0, room1], 0).unwrap();
    s.step(&tick(16, vec![], None));
    // A trigger of room 1, which is not live: there is nothing to place it by.
    assert_eq!(s.step(&tick(16, in_hall(1), Some(0))), vec![RoomAction::Unmatched { room: 1, from: 1 }]);
    assert_eq!(s.active[1], None);
}

#[test]
fn half_cell_offsets_still_connect() {
    let room0 = vec![junction(5, vec![(0, 0), (1, 0)])];
    let room1 = vec![junction(5, vec![(0, 0), (0, 1)])];
    let mut s = LevelStreamer::new(vec![room0, room1], 0).unwrap();
    s.step(&tick(16, vec![], None));
    let acts = s.step(&tick(16, vec![NearTrigger { room: 0, fingerprint: 5 }], Some(0)));
    let shift = Shift { x: SUBCELLS / 2, z: -SUBCELLS / 2 };
    assert_eq!(acts, vec![RoomAction::Load { room: 1, shift, spawn_player: false }]);
}

#[test]
fn fingerprint_elsewhere_is_not_a_neighbour() {
    let room0 = vec![junction(7, vec![(5, 2), (5, 3)])];
    let room1 = vec![junction(9, vec![(0, 2), (0, 3)])];
    let mut s = LevelStreamer::new(vec![room0, room1], 0).unwrap();
    s.step(&tick(16, vec![], None));
    assert!(s.step(&tick(16, in_hall(0), Some(0))).is_empty());
    assert_eq!(s.active[1], None);
}

fn three_rooms() -> LevelStreamer {
    let room0 = vec![junction(7, vec![(5, 2), (5, 3)])];
    let room1 = vec![junction(7, vec![(0, 2), (0, 3)]), junction(8, vec![(9, 0), (9, 1)])];
    let room2 = vec![junction(8, vec![(0, 0), (0, 1)])];
    LevelStreamer::new(vec![room0, room1, room2], 0).unwrap()
}

#[test]
fn nearest_parked_room_keeps_live_rooms() {
    let mut s = three_rooms();
    s.step(&tick(16, vec![], None));
    s.step(&tick(16, in_hall(0), Some(0)));
    // Room 0 is parked once the player is in room 1.
    assert_eq!(s.step(&tick(16, vec![], Some(1))), vec![RoomAction::Retire { room: 0 }]);
    s.step(&tick(16, vec![NearTrigger { room: 1, fingerprint: 8 }], Some(1)));
    assert_eq!(s.active[2], Some(Shift { x: 14 * SUBCELLS, z: 0 }));
    // The nearest entity is one of parked room 0, and no live room is close:
    // parking both would leave none live, so nothing is parked.
    let acts = s.step(&tick(16, vec![], Some(0)));
    assert!(acts.is_empty());
    assert!(s.active[1].is_some() && s.active[2].is_some());
    // Room 1 is close: room 2 is parked.
    let mut t = tick(16, vec![], Some(0));
    t.close_rooms = vec![1];
    assert_eq!(s.step(&t), vec![RoomAction::Retire { room: 2 }]);
    assert!(s.active[1].is_some());
}

#[test]
fn timers_run_without_a_player() {
    let mut s = two_rooms();
    s.step(&tick(16, vec![], None));
    s.step(&tick(16, in_hall(0), Some(0)));
    s.step(&tick(0, vec![], Some(1)));
    let mut t = tick(5000, vec![], None);
    t.player_present = false;
    assert!(s.step(&t).is_empty());
    assert_eq!(s.parked[0].unwrap().time_left_ms, -1000);
    assert_eq!(s.step(&t), vec![RoomAction::Despawn { room: 0 }]);
}
