//! Level streaming: which rooms are live, as a state machine driven one tick
//! at a time. The caller reports what it observed around the player and
//! performs the actions that come back.
use vstd::prelude::*;
use crate::hallway::{HallwayJunction, Shift, aligned_shift, align_shift};

verus! {

/// Grace period, in milliseconds, before a vacated room is despawned.
pub const GRACE_MS: i64 = 4000;

/// A room that is waiting to be despawned.
#[derive(Clone, Copy, Debug, PartialEq, Eq, Structural)]
pub struct Parked {
    /// Time left before the room goes; it goes on the first tick that finds
    /// this below zero.
    pub time_left_ms: i64,
    /// Where the room stood, kept so that it can come back in place.
    pub shift: Shift,
}

/// What the caller must do to the world.
#[derive(Clone, Copy, Debug, PartialEq, Eq, Structural)]
pub enum RoomAction {
    /// Spawn the room at the shift; only the first room spawns the player.
    Load { room: usize, shift: Shift, spawn_player: bool },
    /// The room is live again: its entities clear fog once more.
    Restore { room: usize },
    /// The room is retiring: its entities stop clearing fog.
    Retire { room: usize },
    /// Despawn every entity of the room.
    Despawn { room: usize },
    /// The room could not be placed next to room `from`: the junction is
    /// missing from one of them, `from` is not live, or no whole-cell shift
    /// lines the two junctions up. Nothing is loaded; worth a diagnostic.
    Unmatched { room: usize, from: usize },
}

/// A hallway trigger within reach of the player.
#[derive(Clone, Copy, Debug, PartialEq, Eq, Structural)]
pub struct NearTrigger {
    /// The room whose trigger it is.
    pub room: usize,
    /// The fingerprint of its junction.
    pub fingerprint: u32,
}

/// What the caller observed this tick.
#[derive(Clone, Debug)]
pub struct Tick {
    /// Time since the previous tick.
    pub elapsed_ms: u32,
    /// Whether there is a player to follow.
    pub player_present: bool,
    /// Hallway triggers within one unit of the player.
    pub near_triggers: Vec<NearTrigger>,
    /// The room of the entity nearest to the player, if any entity exists.
    /// Rooms are parked only while this room is live, so that it stays live.
    pub nearest_room: Option<usize>,
    /// Rooms with an entity within two and a half units of the player.
    pub close_rooms: Vec<usize>,
}

/// The live rooms with their shifts, and the parked rooms, by room number.
pub type Rooms = (Seq<Option<Shift>>, Seq<Option<Parked>>);

/// The first junction of a room with the given fingerprint.
pub open spec fn first_junction(js: Seq<HallwayJunction>, fp: u32) -> Option<int> {
    if exists|i: int| 0 <= i < js.len() && #[trigger] js[i].fingerprint == fp {
        Some(
            choose|i: int|
                0 <= i < js.len() && #[trigger] js[i].fingerprint == fp && forall|j: int|
                    0 <= j < i ==> #[trigger] js[j].fingerprint != fp,
        )
    } else {
        None
    }
}

/// The rooms, among the first `k`, that have a junction with fingerprint `fp`.
pub open spec fn rooms_with(js: Seq<Vec<HallwayJunction>>, fp: u32, k: nat) -> Seq<usize>
    decreases k,
{
    if k == 0 {
        Seq::empty()
    } else {
        let prev = rooms_with(js, fp, (k - 1) as nat);
        if first_junction(js[k - 1]@, fp) is Some {
            prev.push((k - 1) as usize)
        } else {
            prev
        }
    }
}

/// Where room `r` goes when the player walks into it from room `from`
/// through the junction with fingerprint `fp`.
pub open spec fn load_shift(js: Seq<Vec<HallwayJunction>>, active: Seq<Option<Shift>>, from: usize, fp: u32, r: usize) -> Option<Shift> {
    match (active[from as int], first_junction(js[from as int]@, fp), first_junction(js[r as int]@, fp)) {
        (Some(os), Some(i), Some(j)) => aligned_shift(os, js[from as int]@[i], js[r as int]@[j]),
        _ => None,
    }
}

/// Room `r` is reachable from the trigger of room `from`: a parked room comes
/// back in place, and a room that is not live is loaded next to `from`.
pub open spec fn visit(js: Seq<Vec<HallwayJunction>>, v: Rooms, from: usize, fp: u32, r: usize) -> (Rooms, Seq<RoomAction>) {
    let (a1, p1, acts) = match v.1[r as int] {
        Some(e) => (v.0.update(r as int, Some(e.shift)), v.1.update(r as int, None), seq![RoomAction::Restore { room: r }]),
        None => (v.0, v.1, Seq::empty()),
    };
    if a1[r as int] is Some {
        ((a1, p1), acts)
    } else {
        match load_shift(js, a1, from, fp, r) {
            Some(s) => ((a1.update(r as int, Some(s)), p1), acts.push(RoomAction::Load { room: r, shift: s, spawn_player: false })),
            None => ((a1, p1), acts.push(RoomAction::Unmatched { room: r, from })),
        }
    }
}

/// Visits the first `k` of `rooms`, in order.
pub open spec fn visit_all(js: Seq<Vec<HallwayJunction>>, v: Rooms, from: usize, fp: u32, rooms: Seq<usize>, k: nat) -> (Rooms, Seq<RoomAction>)
    decreases k,
{
    if k == 0 || k > rooms.len() {
        (v, Seq::empty())
    } else {
        let (v1, a1) = visit_all(js, v, from, fp, rooms, (k - 1) as nat);
        let (v2, a2) = visit(js, v1, from, fp, rooms[k - 1]);
        (v2, a1 + a2)
    }
}

/// Handles the first `k` triggers near the player, in order.
pub open spec fn enter_halls(js: Seq<Vec<HallwayJunction>>, v: Rooms, triggers: Seq<NearTrigger>, k: nat) -> (Rooms, Seq<RoomAction>)
    decreases k,
{
    if k == 0 || k > triggers.len() {
        (v, Seq::empty())
    } else {
        let (v1, a1) = enter_halls(js, v, triggers, (k - 1) as nat);
        let t = triggers[k - 1];
        if t.room < js.len() {
            let rooms = rooms_with(js, t.fingerprint, js.len() as nat);
            let (v2, a2) = visit_all(js, v1, t.room, t.fingerprint, rooms, rooms.len());
            (v2, a1 + a2)
        } else {
            (v1, a1)
        }
    }
}

/// A live room is kept when it holds the entity nearest to the player or an
/// entity close to the player.
pub open spec fn kept(r: int, nearest: usize, close: Seq<usize>) -> bool {
    r == nearest || close.contains(r as usize)
}

/// Parks, among the first `k` rooms, every live room that is not kept.
pub open spec fn retire(v: Rooms, nearest: usize, close: Seq<usize>, k: nat) -> (Rooms, Seq<RoomAction>)
    decreases k,
{
    if k == 0 || k > v.0.len() {
        (v, Seq::empty())
    } else {
        let (v1, a1) = retire(v, nearest, close, (k - 1) as nat);
        let r = k - 1;
        match v.0[r] {
            Some(s) => if kept(r, nearest, close) {
                (v1, a1)
            } else {
                (
                    (v1.0.update(r, None), v1.1.update(r, Some(Parked { time_left_ms: GRACE_MS, shift: s }))),
                    a1.push(RoomAction::Retire { room: r as usize }),
                )
            },
            None => (v1, a1),
        }
    }
}

/// Runs the timers of the first `k` parked rooms: a room whose time is below
/// zero is despawned, the others count down.
pub open spec fn run_timers(p: Seq<Option<Parked>>, elapsed: u32, k: nat) -> (Seq<Option<Parked>>, Seq<RoomAction>)
    decreases k,
{
    if k == 0 || k > p.len() {
        (p, Seq::empty())
    } else {
        let (p1, a1) = run_timers(p, elapsed, (k - 1) as nat);
        let r = k - 1;
        match p[r] {
            Some(e) => if e.time_left_ms < 0 {
                (p1.update(r, None), a1.push(RoomAction::Despawn { room: r as usize }))
            } else {
                (p1.update(r, Some(Parked { time_left_ms: (e.time_left_ms - elapsed) as i64, shift: e.shift })), a1)
            },
            None => (p1, a1),
        }
    }
}

/// One tick of the streaming rules, over live and parked rooms.
pub open spec fn tick_rooms(js: Seq<Vec<HallwayJunction>>, v: Rooms, t: Tick) -> (Rooms, Seq<RoomAction>) {
    if !t.player_present {
        let (p3, a3) = run_timers(v.1, t.elapsed_ms, v.1.len() as nat);
        ((v.0, p3), a3)
    } else {
        let (v1, a1) = enter_halls(js, v, t.near_triggers@, t.near_triggers.len() as nat);
        let (v2, a2) = if retires(v1.0, t) {
            retire(v1, t.nearest_room.unwrap(), t.close_rooms@, v1.0.len() as nat)
        } else {
            (v1, Seq::empty())
        };
        let (p3, a3) = run_timers(v2.1, t.elapsed_ms, v2.1.len() as nat);
        ((v2.0, p3), a1 + a2 + a3)
    }
}

/// Rooms the player has left are parked on this tick: the player is in no
/// hallway, two or more rooms are live, and some live room is kept, so that
/// one room at least stays live.
pub open spec fn retires(active: Seq<Option<Shift>>, t: Tick) -> bool {
    &&& t.near_triggers.len() == 0
    &&& live_count(active) >= 2
    &&& t.nearest_room is Some
    &&& keeps_some(active, t.nearest_room.unwrap(), t.close_rooms@)
}

/// Some live room is kept.
pub open spec fn keeps_some(active: Seq<Option<Shift>>, nearest: usize, close: Seq<usize>) -> bool {
    exists|r: int| 0 <= r < active.len() && #[trigger] active[r] is Some && kept(r, nearest, close)
}

/// Number of live rooms.
pub open spec fn live_count(a: Seq<Option<Shift>>) -> nat
    decreases a.len(),
{
    if a.len() == 0 {
        0
    } else {
        live_count(a.drop_last()) + if a.last() is Some {
            1nat
        } else {
            0nat
        }
    }
}

/// Decides which rooms are live, one tick at a time.
#[derive(Clone, Debug)]
pub struct LevelStreamer {
    /// The hallway junctions of every room, by room number.
    pub junctions: Vec<Vec<HallwayJunction>>,
    /// The room the player starts in.
    pub start_room: usize,
    /// The shift of each live room.
    pub active: Vec<Option<Shift>>,
    /// Each parked room.
    pub parked: Vec<Option<Parked>>,
    /// Whether the starting room was loaded.
    pub started: bool,
}

impl LevelStreamer {
    pub open spec fn view_rooms(&self) -> Rooms {
        (self.active@, self.parked@)
    }

    /// Sizes agree, no room is both live and parked, and every timer is in range.
    pub open spec fn wf(&self) -> bool {
        &&& self.active.len() == self.junctions.len()
        &&& self.parked.len() == self.junctions.len()
        &&& self.start_room < self.junctions.len()
        &&& rooms_wf(self.view_rooms())
        &&& !self.started ==> forall|i: int| 0 <= i < self.active.len() ==> #[trigger] self.active@[i] is None && self.parked@[i] is None
    }

    /// The streamer for rooms with the given junctions; nothing is live yet.
    pub fn new(junctions: Vec<Vec<HallwayJunction>>, start_room: usize) -> (r: Option<LevelStreamer>)
        ensures
            r is Some <==> start_room < junctions.len(),
            r matches Some(s) ==> {
                &&& s.wf()
                &&& s.junctions@ == junctions@
                &&& s.start_room == start_room
                &&& !s.started
                &&& forall|i: int| 0 <= i < s.active.len() ==> s.active@[i] is None && s.parked@[i] is None
            },
    {
        if start_room >= junctions.len() {
            return None;
        }
        let mut active: Vec<Option<Shift>> = Vec::new();
        let mut parked: Vec<Option<Parked>> = Vec::new();
        let mut i: usize = 0;
        while i < junctions.len()
            invariant
                i <= junctions.len(),
                active.len() == i,
                parked.len() == i,
                forall|j: int| 0 <= j < i ==> active@[j] is None && parked@[j] is None,
            decreases junctions.len() - i,
        {
            active.push(None);
            parked.push(None);
            i = i + 1;
        }
        Some(LevelStreamer { junctions, start_room, active, parked, started: false })
    }
}

/// No room is both live and parked, and parked timers are in range.
pub open spec fn rooms_wf(v: Rooms) -> bool {
    &&& v.0.len() == v.1.len()
    &&& forall|r: int| 0 <= r < v.0.len() ==> !(v.0[r] is Some && #[trigger] v.1[r] is Some)
    &&& forall|r: int|
        0 <= r < v.1.len() && #[trigger] v.1[r] is Some ==> v.1[r].unwrap().time_left_ms >= -0xFFFF_FFFF
            && v.1[r].unwrap().time_left_ms <= GRACE_MS
}

/// The first junction of a room with the given fingerprint.
pub fn find_first_junction(js: &Vec<HallwayJunction>, fp: u32) -> (r: Option<usize>)
    ensures
        r matches Some(i) ==> first_junction(js@, fp) == Some(i as int) && i < js.len(),
        r is None ==> first_junction(js@, fp) is None,
{
    let mut i: usize = 0;
    while i < js.len()
        invariant
            i <= js.len(),
            forall|j: int| 0 <= j < i ==> #[trigger] js@[j].fingerprint != fp,
        decreases js.len() - i,
    {
        if js[i].fingerprint == fp {
            proof {
                let c = choose|c: int|
                    0 <= c < js.len() && #[trigger] js@[c].fingerprint == fp && forall|j: int|
                        0 <= j < c ==> #[trigger] js@[j].fingerprint != fp;
                if c < i {
                } else if c > i {
                    assert(js@[i as int].fingerprint != fp);
                }
            }
            return Some(i);
        }
        i = i + 1;
    }
    None
}

/// Visiting a room keeps the rooms well formed.
proof fn lemma_visit_wf(js: Seq<Vec<HallwayJunction>>, v: Rooms, from: usize, fp: u32, r: usize)
    requires
        rooms_wf(v),
        v.0.len() == js.len(),
        from < js.len(),
        r < js.len(),
    ensures
        rooms_wf(visit(js, v, from, fp, r).0),
        visit(js, v, from, fp, r).0.0.len() == js.len(),
{
}

proof fn lemma_visit_all_wf(js: Seq<Vec<HallwayJunction>>, v: Rooms, from: usize, fp: u32, rooms: Seq<usize>, k: nat)
    requires
        rooms_wf(v),
        v.0.len() == js.len(),
        from < js.len(),
        forall|i: int| 0 <= i < rooms.len() ==> #[trigger] rooms[i] < js.len(),
    ensures
        rooms_wf(visit_all(js, v, from, fp, rooms, k).0),
        visit_all(js, v, from, fp, rooms, k).0.0.len() == js.len(),
    decreases k,
{
    if k > 0 && k <= rooms.len() {
        lemma_visit_all_wf(js, v, from, fp, rooms, (k - 1) as nat);
        let v1 = visit_all(js, v, from, fp, rooms, (k - 1) as nat).0;
        lemma_visit_wf(js, v1, from, fp, rooms[k - 1]);
    }
}

proof fn lemma_rooms_with_bound(js: Seq<Vec<HallwayJunction>>, fp: u32, k: nat)
    requires
        k <= usize::MAX,
    ensures
        forall|i: int| 0 <= i < rooms_with(js, fp, k).len() ==> #[trigger] rooms_with(js, fp, k)[i] < k,
    decreases k,
{
    if k > 0 {
        lemma_rooms_with_bound(js, fp, (k - 1) as nat);
        let prev = rooms_with(js, fp, (k - 1) as nat);
        assert forall|i: int| 0 <= i < rooms_with(js, fp, k).len() implies #[trigger] rooms_with(js, fp, k)[i] < k by {
            if i < prev.len() {
                assert(rooms_with(js, fp, k)[i] == prev[i]);
            }
        }
    }
}

proof fn lemma_enter_halls_wf(js: Seq<Vec<HallwayJunction>>, v: Rooms, triggers: Seq<NearTrigger>, k: nat)
    requires
        js.len() <= usize::MAX,
        rooms_wf(v),
        v.0.len() == js.len(),
    ensures
        rooms_wf(enter_halls(js, v, triggers, k).0),
        enter_halls(js, v, triggers, k).0.0.len() == js.len(),
    decreases k,
{
    if k > 0 && k <= triggers.len() {
        lemma_enter_halls_wf(js, v, triggers, (k - 1) as nat);
        let v1 = enter_halls(js, v, triggers, (k - 1) as nat).0;
        let t = triggers[k - 1];
        if t.room < js.len() {
            let rooms = rooms_with(js, t.fingerprint, js.len() as nat);
            lemma_rooms_with_bound(js, t.fingerprint, js.len() as nat);
            lemma_visit_all_wf(js, v1, t.room, t.fingerprint, rooms, rooms.len());
        }
    }
}

proof fn lemma_retire_wf(v: Rooms, nearest: usize, close: Seq<usize>, k: nat)
    requires
        rooms_wf(v),
    ensures
        rooms_wf(retire(v, nearest, close, k).0),
        retire(v, nearest, close, k).0.0.len() == v.0.len(),
        forall|r: int| k <= r < v.0.len() ==> #[trigger] retire(v, nearest, close, k).0.0[r] == v.0[r]
            && retire(v, nearest, close, k).0.1[r] == v.1[r],
    decreases k,
{
    if k > 0 && k <= v.0.len() {
        lemma_retire_wf(v, nearest, close, (k - 1) as nat);
    }
}

proof fn lemma_timers_wf(p: Seq<Option<Parked>>, elapsed: u32, k: nat)
    requires
        forall|r: int|
            0 <= r < p.len() && #[trigger] p[r] is Some ==> p[r].unwrap().time_left_ms >= -0xFFFF_FFFF
                && p[r].unwrap().time_left_ms <= GRACE_MS,
    ensures
        run_timers(p, elapsed, k).0.len() == p.len(),
        forall|r: int|
            0 <= r < p.len() && #[trigger] run_timers(p, elapsed, k).0[r] is Some ==> p[r] is Some && run_timers(p, elapsed, k).0[r].unwrap().time_left_ms >= -0xFFFF_FFFF
                && run_timers(p, elapsed, k).0[r].unwrap().time_left_ms <= GRACE_MS,
        forall|r: int| k <= r < p.len() ==> #[trigger] run_timers(p, elapsed, k).0[r] == p[r],
    decreases k,
{
    if k > 0 && k <= p.len() {
        lemma_timers_wf(p, elapsed, (k - 1) as nat);
    }
}

impl LevelStreamer {
    /// The rooms that have a junction with fingerprint `fp`, in room order.
    pub fn rooms_having(&self, fp: u32) -> (r: Vec<usize>)
        ensures
            r@ == rooms_with(self.junctions@, fp, self.junctions.len() as nat),
    {
        let mut r: Vec<usize> = Vec::new();
        let mut k: usize = 0;
        while k < self.junctions.len()
            invariant
                k <= self.junctions.len(),
                r@ == rooms_with(self.junctions@, fp, k as nat),
            decreases self.junctions.len() - k,
        {
            if find_first_junction(&self.junctions[k], fp).is_some() {
                r.push(k);
            }
            k = k + 1;
        }
        r
    }

    /// Room `r` becomes reachable from the trigger of room `from`.
    fn visit_room(&mut self, from: usize, fp: u32, r: usize, acts: &mut Vec<RoomAction>)
        requires
            old(self).wf(),
            old(self).started,
            from < old(self).junctions.len(),
            r < old(self).junctions.len(),
        ensures
            final(self).wf(),
            final(self).junctions == old(self).junctions,
            final(self).start_room == old(self).start_room,
            final(self).started == old(self).started,
            final(self).view_rooms() == visit(old(self).junctions@, old(self).view_rooms(), from, fp, r).0,
            final(acts)@ == old(acts)@ + visit(old(self).junctions@, old(self).view_rooms(), from, fp, r).1,
    {
        proof {
            lemma_visit_wf(self.junctions@, self.view_rooms(), from, fp, r);
        }
        let ghost v0 = self.view_rooms();
        let ghost a0 = acts@;
        if let Some(e) = self.parked[r] {
            self.active.set(r, Some(e.shift));
            self.parked.set(r, None);
            acts.push(RoomAction::Restore { room: r });
        }
        proof {
            assert(acts@ =~= a0 + match v0.1[r as int] {
                Some(e) => seq![RoomAction::Restore { room: r }],
                None => Seq::<RoomAction>::empty(),
            });
        }
        if self.active[r].is_none() {
            let ghost before = acts@;
            let mut placed = false;
            if let Some(os) = self.active[from] {
                let i = find_first_junction(&self.junctions[from], fp);
                let j = find_first_junction(&self.junctions[r], fp);
                if let (Some(i), Some(j)) = (i, j) {
                    if let Some(s) = align_shift(os, &self.junctions[from][i], &self.junctions[r][j]) {
                        self.active.set(r, Some(s));
                        acts.push(RoomAction::Load { room: r, shift: s, spawn_player: false });
                        placed = true;
                    }
                }
            }
            if !placed {
                acts.push(RoomAction::Unmatched { room: r, from });
            }
            assert(acts@ =~= a0 + (before.subrange(a0.len() as int, before.len() as int)).push(acts@.last()));
        }
    }

    /// Visits the given rooms in order from the trigger of room `from`.
    fn visit_rooms(&mut self, from: usize, fp: u32, rooms: &Vec<usize>, acts: &mut Vec<RoomAction>)
        requires
            old(self).wf(),
            old(self).started,
            from < old(self).junctions.len(),
            forall|i: int| 0 <= i < rooms.len() ==> #[trigger] rooms@[i] < old(self).junctions.len(),
        ensures
            final(self).wf(),
            final(self).junctions == old(self).junctions,
            final(self).start_room == old(self).start_room,
            final(self).started == old(self).started,
            final(self).view_rooms() == visit_all(old(self).junctions@, old(self).view_rooms(), from, fp, rooms@, rooms.len() as nat).0,
            final(acts)@ == old(acts)@ + visit_all(old(self).junctions@, old(self).view_rooms(), from, fp, rooms@, rooms.len() as nat).1,
    {
        let ghost js = self.junctions@;
        let ghost v1 = self.view_rooms();
        let ghost at = acts@;
        let mut k: usize = 0;
        while k < rooms.len()
            invariant
                k <= rooms.len(),
                self.wf(),
                self.junctions@ == js,
                self.junctions == old(self).junctions,
                self.start_room == old(self).start_room,
                self.started == old(self).started,
                self.started,
                from < js.len(),
                v1 == old(self).view_rooms(),
                at == old(acts)@,
                forall|i: int| 0 <= i < rooms.len() ==> #[trigger] rooms@[i] < js.len(),
                self.view_rooms() == visit_all(js, v1, from, fp, rooms@, k as nat).0,
                acts@ == at + visit_all(js, v1, from, fp, rooms@, k as nat).1,
            decreases rooms.len() - k,
        {
            self.visit_room(from, fp, rooms[k], acts);
            proof {
                let va = visit_all(js, v1, from, fp, rooms@, k as nat);
                let vb = visit(js, va.0, from, fp, rooms@[k as int]);
                assert(acts@ =~= at + (va.1 + vb.1));
            }
            k = k + 1;
        }
    }

    /// Handles the hallway triggers near the player.
    fn enter_halls_exec(&mut self, triggers: &Vec<NearTrigger>, acts: &mut Vec<RoomAction>)
        requires
            old(self).wf(),
            old(self).started,
        ensures
            final(self).wf(),
            final(self).junctions == old(self).junctions,
            final(self).start_room == old(self).start_room,
            final(self).started == old(self).started,
            final(self).view_rooms() == enter_halls(old(self).junctions@, old(self).view_rooms(), triggers@, triggers.len() as nat).0,
            final(acts)@ == old(acts)@ + enter_halls(old(self).junctions@, old(self).view_rooms(), triggers@, triggers.len() as nat).1,
    {
        let ghost js = self.junctions@;
        let ghost v0 = self.view_rooms();
        let ghost a0 = acts@;
        let mut ti: usize = 0;
        while ti < triggers.len()
            invariant
                ti <= triggers.len(),
                self.wf(),
                self.junctions@ == js,
                self.junctions == old(self).junctions,
                self.start_room == old(self).start_room,
                self.started == old(self).started,
                v0 == old(self).view_rooms(),
                a0 == old(acts)@,
                self.started,
                self.view_rooms() == enter_halls(js, v0, triggers@, ti as nat).0,
                acts@ == a0 + enter_halls(js, v0, triggers@, ti as nat).1,
            decreases triggers.len() - ti,
        {
            let t = triggers[ti];
            let ghost at = acts@;
            let ghost v1 = self.view_rooms();
            if t.room < self.junctions.len() {
                let rooms = self.rooms_having(t.fingerprint);
                proof {
                    lemma_rooms_with_bound(js, t.fingerprint, js.len() as nat);
                }
                self.visit_rooms(t.room, t.fingerprint, &rooms, acts);
                proof {
                    let e = enter_halls(js, v0, triggers@, ti as nat);
                    let va = visit_all(js, v1, t.room, t.fingerprint, rooms@, rooms.len() as nat);
                    assert(enter_halls(js, v0, triggers@, (ti + 1) as nat) == (va.0, e.1 + va.1));
                    assert(acts@ =~= a0 + (e.1 + va.1));
                }
            } else {
                proof {
                    let e = enter_halls(js, v0, triggers@, ti as nat);
                    assert(enter_halls(js, v0, triggers@, (ti + 1) as nat) == e);
                }
            }
            ti = ti + 1;
        }
    }

    /// Parks every live room that is not kept.
    fn retire_exec(&mut self, nearest: usize, close: &Vec<usize>, acts: &mut Vec<RoomAction>)
        requires
            old(self).wf(),
            old(self).started,
        ensures
            final(self).wf(),
            final(self).junctions == old(self).junctions,
            final(self).start_room == old(self).start_room,
            final(self).started == old(self).started,
            final(self).view_rooms() == retire(old(self).view_rooms(), nearest, close@, old(self).active.len() as nat).0,
            final(acts)@ == old(acts)@ + retire(old(self).view_rooms(), nearest, close@, old(self).active.len() as nat).1,
    {
        let ghost v0 = self.view_rooms();
        let ghost a0 = acts@;
        let mut r: usize = 0;
        while r < self.active.len()
            invariant
                r <= self.active.len(),
                self.active.len() == v0.0.len(),
                rooms_wf(v0),
                self.junctions == old(self).junctions,
                self.start_room == old(self).start_room,
                self.started == old(self).started,
                self.active.len() == self.junctions.len(),
                self.parked.len() == self.junctions.len(),
                self.start_room < self.junctions.len(),
                v0 == old(self).view_rooms(),
                a0 == old(acts)@,
                self.view_rooms() == retire(v0, nearest, close@, r as nat).0,
                acts@ == a0 + retire(v0, nearest, close@, r as nat).1,
            decreases self.active.len() - r,
        {
            proof {
                lemma_retire_wf(v0, nearest, close@, r as nat);
            }
            if let Some(s) = self.active[r] {
                let keep = r == nearest || list_holds(close, r);
                if !keep {
                    self.active.set(r, None);
                    self.parked.set(r, Some(Parked { time_left_ms: GRACE_MS, shift: s }));
                    acts.push(RoomAction::Retire { room: r });
                    proof {
                        assert(acts@ =~= a0 + retire(v0, nearest, close@, r as nat).1.push(RoomAction::Retire { room: r }));
                    }
                }
            }
            r = r + 1;
        }
        proof {
            lemma_retire_wf(v0, nearest, close@, r as nat);
        }
    }

    /// Counts down the parked rooms and despawns those whose time is up.
    fn run_timers_exec(&mut self, elapsed: u32, acts: &mut Vec<RoomAction>)
        requires
            old(self).wf(),
            old(self).started,
        ensures
            final(self).wf(),
            final(self).junctions == old(self).junctions,
            final(self).start_room == old(self).start_room,
            final(self).started == old(self).started,
            final(self).active@ == old(self).active@,
            final(self).parked@ == run_timers(old(self).parked@, elapsed, old(self).parked.len() as nat).0,
            final(acts)@ == old(acts)@ + run_timers(old(self).parked@, elapsed, old(self).parked.len() as nat).1,
    {
        let ghost p0 = self.parked@;
        let ghost a0 = acts@;
        let mut r: usize = 0;
        while r < self.parked.len()
            invariant
                r <= self.parked.len(),
                self.parked.len() == p0.len(),
                rooms_wf(old(self).view_rooms()),
                self.junctions == old(self).junctions,
                self.start_room == old(self).start_room,
                self.started == old(self).started,
                self.active@ == old(self).active@,
                self.active.len() == self.junctions.len(),
                self.parked.len() == self.junctions.len(),
                p0 == old(self).parked@,
                a0 == old(acts)@,
                self.parked@ == run_timers(p0, elapsed, r as nat).0,
                acts@ == a0 + run_timers(p0, elapsed, r as nat).1,
            decreases self.parked.len() - r,
        {
            proof {
                lemma_timers_wf(p0, elapsed, r as nat);
            }
            if let Some(e) = self.parked[r] {
                if e.time_left_ms < 0 {
                    self.parked.set(r, None);
                    acts.push(RoomAction::Despawn { room: r });
                    proof {
                        assert(acts@ =~= a0 + run_timers(p0, elapsed, r as nat).1.push(RoomAction::Despawn { room: r }));
                    }
                } else {
                    self.parked.set(r, Some(Parked { time_left_ms: e.time_left_ms - elapsed as i64, shift: e.shift }));
                }
            }
            r = r + 1;
        }
        proof {
            lemma_timers_wf(p0, elapsed, r as nat);
        }
    }

    /// Whether some live room is kept.
    fn keeps_a_room(&self, nearest: usize, close: &Vec<usize>) -> (r: bool)
        ensures
            r == keeps_some(self.active@, nearest, close@),
    {
        let mut i: usize = 0;
        while i < self.active.len()
            invariant
                i <= self.active.len(),
                forall|q: int| 0 <= q < i ==> !(#[trigger] self.active@[q] is Some && kept(q, nearest, close@)),
            decreases self.active.len() - i,
        {
            if self.active[i].is_some() && (i == nearest || list_holds(close, i)) {
                return true;
            }
            i = i + 1;
        }
        false
    }

    /// Number of live rooms.
    fn live_rooms(&self) -> (n: usize)
        ensures
            n == live_count(self.active@),
    {
        let mut n: usize = 0;
        let mut i: usize = 0;
        while i < self.active.len()
            invariant
                i <= self.active.len(),
                n == live_count(self.active@.take(i as int)),
                n <= i,
            decreases self.active.len() - i,
        {
            assert(self.active@.take(i + 1).drop_last() == self.active@.take(i as int));
            if self.active[i].is_some() {
                n = n + 1;
            }
            i = i + 1;
        }
        assert(self.active@.take(i as int) == self.active@);
        n
    }

    /// One tick. The first tick loads the starting room, with the player, at
    /// shift zero. With a player, the rooms behind nearby hallway triggers are
    /// restored or loaded, and when the player is in no hallway, two or more
    /// rooms are live and the room nearest to the player is live, the other
    /// rooms the player has left are parked. On every tick parked rooms count
    /// down and the ones whose time is up are despawned. A room stays live
    /// once one is.
    pub fn step(&mut self, t: &Tick) -> (acts: Vec<RoomAction>)
        requires
            old(self).wf(),
        ensures
            final(self).wf(),
            final(self).junctions == old(self).junctions,
            final(self).start_room == old(self).start_room,
            final(self).started,
            !old(self).started ==> {
                &&& acts@ == seq![RoomAction::Load { room: old(self).start_room, shift: Shift { x: 0, z: 0 }, spawn_player: true }]
                &&& final(self).active@ == old(self).active@.update(old(self).start_room as int, Some(Shift { x: 0, z: 0 }))
                &&& final(self).parked@ == old(self).parked@
            },
            old(self).started ==> (final(self).view_rooms(), acts@) == tick_rooms(old(self).junctions@, old(self).view_rooms(), *t),
            old(self).started && live_count(old(self).active@) >= 1 ==> live_count(final(self).active@) >= 1,
    {
        let mut acts: Vec<RoomAction> = Vec::new();
        if !self.started {
            let start = self.start_room;
            let zero = Shift { x: 0, z: 0 };
            self.active.set(start, Some(zero));
            self.started = true;
            acts.push(RoomAction::Load { room: start, shift: zero, spawn_player: true });
            return acts;
        }
        if !t.player_present {
            self.run_timers_exec(t.elapsed_ms, &mut acts);
            return acts;
        }
        proof {
            lemma_enter_halls_wf(self.junctions@, self.view_rooms(), t.near_triggers@, t.near_triggers.len() as nat);
            lemma_enter_halls_keeps_live(self.junctions@, self.view_rooms(), t.near_triggers@, t.near_triggers.len() as nat);
        }
        self.enter_halls_exec(&t.near_triggers, &mut acts);
        let ghost v1 = self.view_rooms();
        let many = self.live_rooms() >= 2;
        if t.near_triggers.len() == 0 && many {
            if let Some(nearest) = t.nearest_room {
                if self.keeps_a_room(nearest, &t.close_rooms) {
                    proof {
                        let q = choose|r: int| 0 <= r < v1.0.len() && #[trigger] v1.0[r] is Some && kept(r, nearest, t.close_rooms@);
                        lemma_retire_keeps(v1, nearest, t.close_rooms@, v1.0.len() as nat, q);
                        lemma_live_count_pos(v1.0);
                    }
                    self.retire_exec(nearest, &t.close_rooms, &mut acts);
                }
            }
        }
        self.run_timers_exec(t.elapsed_ms, &mut acts);
        proof {
            let r = tick_rooms(self.junctions@, old(self).view_rooms(), *t);
            assert(acts@ =~= r.1);
            lemma_live_count_pos(old(self).active@);
            lemma_live_count_pos(v1.0);
            lemma_live_count_pos(self.active@);
            if live_count(old(self).active@) >= 1 {
                let q = choose|q: int| 0 <= q < old(self).active@.len() && old(self).active@[q] is Some;
                assert(v1.0[q] is Some);
            }
        }
        acts
    }
}

/// Whether `v` holds `x`.
fn list_holds(v: &Vec<usize>, x: usize) -> (r: bool)
    ensures
        r == v@.contains(x),
{
    let mut i: usize = 0;
    while i < v.len()
        invariant
            i <= v.len(),
            forall|j: int| 0 <= j < i ==> v@[j] != x,
        decreases v.len() - i,
    {
        if v[i] == x {
            return true;
        }
        i = i + 1;
    }
    false
}

/// The room an action is about.
pub open spec fn room_of(a: RoomAction) -> usize {
    match a {
        RoomAction::Load { room, .. } => room,
        RoomAction::Restore { room } => room,
        RoomAction::Retire { room } => room,
        RoomAction::Despawn { room } => room,
        RoomAction::Unmatched { room, .. } => room,
    }
}

/// No action loads or despawns room `r`.
pub open spec fn keeps_entities(acts: Seq<RoomAction>, r: usize) -> bool {
    forall|j: int|
        0 <= j < acts.len() && room_of(#[trigger] acts[j]) == r ==> acts[j] is Restore || acts[j] is Retire
            || acts[j] is Unmatched
}

/// No action is about room `r`.
pub open spec fn silent_on(acts: Seq<RoomAction>, r: usize) -> bool {
    forall|j: int| 0 <= j < acts.len() ==> room_of(#[trigger] acts[j]) != r
}

/// How room `r` fares while rooms are visited: still as before, or back in
/// place from its parked state.
pub open spec fn fares(v0: Rooms, v: Rooms, acts: Seq<RoomAction>, r: usize, e: Parked, done: bool) -> bool {
    if done {
        &&& v.0[r as int] == Some(e.shift)
        &&& v.1[r as int] is None
        &&& keeps_entities(acts, r)
        &&& (v0.1[r as int] == Some(e) ==> acts.contains(RoomAction::Restore { room: r }))
    } else {
        &&& v.0[r as int] == v0.0[r as int]
        &&& v.1[r as int] == v0.1[r as int]
        &&& silent_on(acts, r)
    }
}

proof fn lemma_visit_tracks(js: Seq<Vec<HallwayJunction>>, v0: Rooms, v: Rooms, acts: Seq<RoomAction>, from: usize, fp: u32, q: usize, r: usize, e: Parked, done: bool)
    requires
        rooms_wf(v),
        v.0.len() == js.len(),
        from < js.len(),
        q < js.len(),
        r < js.len(),
        v0.0.len() == js.len(),
        v0.1.len() == js.len(),
        (v0.1[r as int] == Some(e) && v0.0[r as int] is None) || (v0.0[r as int] == Some(e.shift) && v0.1[r as int] is None),
        fares(v0, v, acts, r, e, done),
    ensures
        fares(v0, visit(js, v, from, fp, q).0, acts + visit(js, v, from, fp, q).1, r, e, done || q == r),
{
    let (v2, a2) = visit(js, v, from, fp, q);
    let all = acts + a2;
    if q != r {
        assert forall|j: int| 0 <= j < a2.len() implies room_of(#[trigger] a2[j]) == q by {}
        assert forall|j: int| 0 <= j < all.len() && room_of(#[trigger] all[j]) == r implies all[j] is Restore || all[j] is Retire || all[j] is Unmatched by {
            if j >= acts.len() {
                assert(all[j] == a2[j - acts.len()]);
            }
        }
        if !done {
            assert forall|j: int| 0 <= j < all.len() implies room_of(#[trigger] all[j]) != r by {
                if j >= acts.len() {
                    assert(all[j] == a2[j - acts.len()]);
                }
            }
        } else if v0.1[r as int] == Some(e) {
            let j = choose|j: int| 0 <= j < acts.len() && acts[j] == RoomAction::Restore { room: r };
            assert(all[j] == acts[j]);
        }
    } else {
        if v.1[r as int] is Some {
            assert(a2 == seq![RoomAction::Restore { room: r }]);
            assert(all[acts.len() as int] == RoomAction::Restore { room: r });
        } else {
            assert(a2.len() == 0);
            assert(all == acts);
        }
        assert forall|j: int| 0 <= j < all.len() && room_of(#[trigger] all[j]) == r implies all[j] is Restore || all[j] is Retire || all[j] is Unmatched by {
            if j >= acts.len() {
                assert(all[j] == a2[j - acts.len()]);
            }
        }
        if done && v0.1[r as int] == Some(e) {
            let j = choose|j: int| 0 <= j < acts.len() && acts[j] == RoomAction::Restore { room: r };
            assert(all[j] == acts[j]);
        }
    }
}

proof fn lemma_visit_all_tracks(js: Seq<Vec<HallwayJunction>>, v0: Rooms, v: Rooms, acts: Seq<RoomAction>, done: bool, from: usize, fp: u32, rooms: Seq<usize>, k: nat, r: usize, e: Parked)
    requires
        rooms_wf(v),
        v.0.len() == js.len(),
        from < js.len(),
        r < js.len(),
        k <= rooms.len(),
        forall|i: int| 0 <= i < rooms.len() ==> #[trigger] rooms[i] < js.len(),
        v0.0.len() == js.len(),
        v0.1.len() == js.len(),
        (v0.1[r as int] == Some(e) && v0.0[r as int] is None) || (v0.0[r as int] == Some(e.shift) && v0.1[r as int] is None),
        fares(v0, v, acts, r, e, done),
    ensures
        fares(v0, visit_all(js, v, from, fp, rooms, k).0, acts + visit_all(js, v, from, fp, rooms, k).1, r, e,
            done || rooms.take(k as int).contains(r)),
    decreases k,
{
    if k == 0 {
        assert(acts + visit_all(js, v, from, fp, rooms, k).1 =~= acts);
        assert(rooms.take(0) =~= Seq::<usize>::empty());
    } else {
        lemma_visit_all_tracks(js, v0, v, acts, done, from, fp, rooms, (k - 1) as nat, r, e);
        lemma_visit_all_wf(js, v, from, fp, rooms, (k - 1) as nat);
        let (v1, a1) = visit_all(js, v, from, fp, rooms, (k - 1) as nat);
        let d1 = done || rooms.take(k - 1).contains(r);
        lemma_visit_tracks(js, v0, v1, acts + a1, from, fp, rooms[k - 1], r, e, d1);
        let a2 = visit(js, v1, from, fp, rooms[k - 1]).1;
        assert(acts + (a1 + a2) =~= (acts + a1) + a2);
        let tk = rooms.take(k as int);
        let tk1 = rooms.take(k - 1);
        assert(tk == tk1.push(rooms[k - 1]));
        if tk.contains(r) && !tk1.contains(r) {
            let j = choose|j: int| 0 <= j < tk.len() && tk[j] == r;
            if j < k - 1 {
                assert(tk1[j] == r);
            }
        }
        if tk1.contains(r) {
            let j = choose|j: int| 0 <= j < tk1.len() && tk1[j] == r;
            assert(tk[j] == r);
        }
        if rooms[k - 1] == r {
            assert(tk[k - 1] == r);
        }
        assert((d1 || rooms[k - 1] == r) == (done || tk.contains(r)));
        let (v2, _) = visit(js, v1, from, fp, rooms[k - 1]);
        assert(visit_all(js, v, from, fp, rooms, k) == (v2, a1 + a2));
    }
}

/// Room `r` is behind one of the first `k` triggers.
pub open spec fn behind_trigger(js: Seq<Vec<HallwayJunction>>, triggers: Seq<NearTrigger>, k: int, r: usize) -> bool {
    exists|i: int|
        0 <= i < k && i < triggers.len() && (#[trigger] triggers[i]).room < js.len() && rooms_with(js, triggers[i].fingerprint, js.len() as nat).contains(r)
}

proof fn lemma_enter_halls_tracks(js: Seq<Vec<HallwayJunction>>, v0: Rooms, triggers: Seq<NearTrigger>, k: nat, r: usize, e: Parked)
    requires
        rooms_wf(v0),
        v0.0.len() == js.len(),
        js.len() <= usize::MAX,
        r < js.len(),
        k <= triggers.len(),
        (v0.1[r as int] == Some(e) && v0.0[r as int] is None) || (v0.0[r as int] == Some(e.shift) && v0.1[r as int] is None),
    ensures
        fares(v0, enter_halls(js, v0, triggers, k).0, enter_halls(js, v0, triggers, k).1, r, e,
            behind_trigger(js, triggers, k as int, r)),
    decreases k,
{
    if k == 0 {
        assert(enter_halls(js, v0, triggers, k).1 =~= Seq::<RoomAction>::empty());
    } else {
        lemma_enter_halls_tracks(js, v0, triggers, (k - 1) as nat, r, e);
        lemma_enter_halls_wf(js, v0, triggers, (k - 1) as nat);
        let (v1, a1) = enter_halls(js, v0, triggers, (k - 1) as nat);
        let d1 = behind_trigger(js, triggers, k - 1, r);
        let t = triggers[k - 1];
        if t.room < js.len() {
            let rooms = rooms_with(js, t.fingerprint, js.len() as nat);
            lemma_rooms_with_bound(js, t.fingerprint, js.len() as nat);
            lemma_visit_all_tracks(js, v0, v1, a1, d1, t.room, t.fingerprint, rooms, rooms.len(), r, e);
            assert(rooms.take(rooms.len() as int) == rooms);
            if rooms.contains(r) {
                assert(behind_trigger(js, triggers, k as int, r)) by {
                    assert(triggers[k - 1].room < js.len());
                }
            }
        }
        if behind_trigger(js, triggers, k as int, r) && !d1 {
            let i = choose|i: int|
                0 <= i < k && i < triggers.len() && (#[trigger] triggers[i]).room < js.len() && rooms_with(js, triggers[i].fingerprint, js.len() as nat).contains(r);
            assert(i == k - 1);
        }
        if d1 {
            let i = choose|i: int|
                0 <= i < k - 1 && i < triggers.len() && (#[trigger] triggers[i]).room < js.len() && rooms_with(js, triggers[i].fingerprint, js.len() as nat).contains(r);
            assert(behind_trigger(js, triggers, k as int, r));
        }
    }
}

proof fn lemma_timers_beyond(p: Seq<Option<Parked>>, elapsed: u32, k: nat, r: int)
    requires
        k <= r < p.len(),
        p.len() <= usize::MAX,
    ensures
        run_timers(p, elapsed, k).0.len() == p.len(),
        run_timers(p, elapsed, k).0[r] == p[r],
        silent_on(run_timers(p, elapsed, k).1, r as usize),
    decreases k,
{
    if k > 0 {
        lemma_timers_beyond(p, elapsed, (k - 1) as nat, r);
        let a1 = run_timers(p, elapsed, (k - 1) as nat).1;
        let a = run_timers(p, elapsed, k).1;
        assert forall|j: int| 0 <= j < a.len() implies room_of(#[trigger] a[j]) != r as usize by {
            if j < a1.len() {
                assert(a[j] == a1[j]);
            } else {
                assert(room_of(a[j]) == (k - 1) as usize);
            }
        }
    }
}

proof fn lemma_timers_at(p: Seq<Option<Parked>>, elapsed: u32, k: nat, r: usize)
    requires
        r < k <= p.len(),
        p.len() <= usize::MAX,
    ensures
        run_timers(p, elapsed, k).0.len() == p.len(),
        p[r as int] is None ==> run_timers(p, elapsed, k).0[r as int] is None && silent_on(run_timers(p, elapsed, k).1, r),
        p[r as int] matches Some(e) && e.time_left_ms < 0 ==> run_timers(p, elapsed, k).0[r as int] is None
            && run_timers(p, elapsed, k).1.contains(RoomAction::Despawn { room: r }),
    decreases k,
{
    let (p1, a1) = run_timers(p, elapsed, (k - 1) as nat);
    let a = run_timers(p, elapsed, k).1;
    if r < k - 1 {
        lemma_timers_at(p, elapsed, (k - 1) as nat, r);
        if p[r as int] matches Some(e) && e.time_left_ms < 0 {
            let j = choose|j: int| 0 <= j < a1.len() && a1[j] == RoomAction::Despawn { room: r };
            assert(a[j] == a1[j]);
        }
        if p[r as int] is None {
            assert forall|j: int| 0 <= j < a.len() implies room_of(#[trigger] a[j]) != r by {
                if j < a1.len() {
                    assert(a[j] == a1[j]);
                } else {
                    assert(room_of(a[j]) == (k - 1) as usize);
                }
            }
        }
    } else {
        lemma_timers_beyond(p, elapsed, (k - 1) as nat, r as int);
        if p[r as int] matches Some(e) && e.time_left_ms < 0 {
            assert(a[a.len() - 1] == RoomAction::Despawn { room: r });
        }
        if p[r as int] is None {
            assert(a == a1);
        }
    }
}

proof fn lemma_retire_leaves_idle(v: Rooms, nearest: usize, close: Seq<usize>, k: nat, r: usize)
    requires
        v.0.len() == v.1.len(),
        v.0.len() <= usize::MAX,
        r < v.0.len(),
        v.0[r as int] is None,
    ensures
        retire(v, nearest, close, k).0.0.len() == v.0.len(),
        retire(v, nearest, close, k).0.1.len() == v.1.len(),
        retire(v, nearest, close, k).0.0[r as int] == v.0[r as int],
        retire(v, nearest, close, k).0.1[r as int] == v.1[r as int],
        silent_on(retire(v, nearest, close, k).1, r),
    decreases k,
{
    if k > 0 && k <= v.0.len() {
        lemma_retire_leaves_idle(v, nearest, close, (k - 1) as nat, r);
        let a1 = retire(v, nearest, close, (k - 1) as nat).1;
        let a = retire(v, nearest, close, k).1;
        assert forall|j: int| 0 <= j < a.len() implies room_of(#[trigger] a[j]) != r by {
            if j < a1.len() {
                assert(a[j] == a1[j]);
            } else {
                assert(room_of(a[j]) == (k - 1) as usize);
            }
        }
    }
}

/// A parked room that the player walks back into before its time is up comes
/// back live at the shift it had, and none of its entities is despawned or
/// spawned again on that tick.
pub proof fn lemma_reentry_restores_in_place(js: Seq<Vec<HallwayJunction>>, v: Rooms, t: Tick, r: usize, e: Parked)
    requires
        rooms_wf(v),
        v.0.len() == js.len(),
        js.len() <= usize::MAX,
        r < js.len(),
        v.1[r as int] == Some(e),
        t.player_present,
        behind_trigger(js, t.near_triggers@, t.near_triggers.len() as int, r),
    ensures
        tick_rooms(js, v, t).0.0[r as int] == Some(e.shift),
        tick_rooms(js, v, t).0.1[r as int] is None,
        tick_rooms(js, v, t).1.contains(RoomAction::Restore { room: r }),
        keeps_entities(tick_rooms(js, v, t).1, r),
{
    let tr = t.near_triggers@;
    lemma_enter_halls_tracks(js, v, tr, tr.len(), r, e);
    lemma_enter_halls_wf(js, v, tr, tr.len());
    let (v1, a1) = enter_halls(js, v, tr, tr.len());
    assert(tr.len() > 0);
    lemma_timers_wf(v1.1, t.elapsed_ms, v1.1.len());
    lemma_timers_at(v1.1, t.elapsed_ms, v1.1.len(), r);
    let (p3, a3) = run_timers(v1.1, t.elapsed_ms, v1.1.len());
    let all = a1 + Seq::<RoomAction>::empty() + a3;
    assert forall|j: int| 0 <= j < all.len() && room_of(#[trigger] all[j]) == r implies all[j] is Restore || all[j] is Retire || all[j] is Unmatched by {
        if j < a1.len() {
            assert(all[j] == a1[j]);
        } else {
            assert(all[j] == a3[j - a1.len()]);
        }
    }
    let j = choose|j: int| 0 <= j < a1.len() && a1[j] == RoomAction::Restore { room: r };
    assert(all[j] == a1[j]);
}

/// A parked room whose time is up, and that no trigger near the player leads
/// to, is despawned on this tick, with or without a player: it is neither
/// live nor parked afterwards.
pub proof fn lemma_expired_room_despawned(js: Seq<Vec<HallwayJunction>>, v: Rooms, t: Tick, r: usize, e: Parked)
    requires
        rooms_wf(v),
        v.0.len() == js.len(),
        js.len() <= usize::MAX,
        r < js.len(),
        v.1[r as int] == Some(e),
        e.time_left_ms < 0,
        !behind_trigger(js, t.near_triggers@, t.near_triggers.len() as int, r),
    ensures
        tick_rooms(js, v, t).0.0[r as int] is None,
        tick_rooms(js, v, t).0.1[r as int] is None,
        tick_rooms(js, v, t).1.contains(RoomAction::Despawn { room: r }),
{
    if !t.player_present {
        lemma_timers_at(v.1, t.elapsed_ms, v.1.len(), r);
        return;
    }
    let tr = t.near_triggers@;
    lemma_enter_halls_tracks(js, v, tr, tr.len(), r, e);
    lemma_enter_halls_wf(js, v, tr, tr.len());
    let (v1, a1) = enter_halls(js, v, tr, tr.len());
    let go = retires(v1.0, t);
    let (v2, a2) = if go {
        retire(v1, t.nearest_room.unwrap(), t.close_rooms@, v1.0.len() as nat)
    } else {
        (v1, Seq::empty())
    };
    if go {
        lemma_retire_leaves_idle(v1, t.nearest_room.unwrap(), t.close_rooms@, v1.0.len() as nat, r);
        lemma_retire_wf(v1, t.nearest_room.unwrap(), t.close_rooms@, v1.0.len() as nat);
    }
    lemma_timers_at(v2.1, t.elapsed_ms, v2.1.len(), r);
    let (p3, a3) = run_timers(v2.1, t.elapsed_ms, v2.1.len());
    let all = a1 + a2 + a3;
    let j = choose|j: int| 0 <= j < a3.len() && a3[j] == RoomAction::Despawn { room: r };
    assert(all[a1.len() + a2.len() + j] == a3[j]);
}

/// Only restorations, loads and failed matches come out of visiting rooms.
pub open spec fn only_arrivals(acts: Seq<RoomAction>) -> bool {
    forall|j: int| 0 <= j < acts.len() ==> (#[trigger] acts[j] is Restore || acts[j] is Load || acts[j] is Unmatched)
}

proof fn lemma_visit_all_arrivals(js: Seq<Vec<HallwayJunction>>, v: Rooms, from: usize, fp: u32, rooms: Seq<usize>, k: nat, r: usize)
    requires
        r < v.1.len(),
        forall|i: int| 0 <= i < rooms.len() ==> #[trigger] rooms[i] < v.1.len(),
    ensures
        only_arrivals(visit_all(js, v, from, fp, rooms, k).1),
        visit_all(js, v, from, fp, rooms, k).0.1.len() == v.1.len(),
        (v.1[r as int] is None || (k <= rooms.len() && rooms.take(k as int).contains(r)))
            ==> visit_all(js, v, from, fp, rooms, k).0.1[r as int] is None,
    decreases k,
{
    if k > 0 && k <= rooms.len() {
        lemma_visit_all_arrivals(js, v, from, fp, rooms, (k - 1) as nat, r);
        let (v1, a1) = visit_all(js, v, from, fp, rooms, (k - 1) as nat);
        let (v2, a2) = visit(js, v1, from, fp, rooms[k - 1]);
        let all = a1 + a2;
        assert forall|j: int| 0 <= j < all.len() implies (#[trigger] all[j] is Restore || all[j] is Load || all[j] is Unmatched) by {
            if j < a1.len() {
                assert(all[j] == a1[j]);
            } else {
                assert(all[j] == a2[j - a1.len()]);
            }
        }
        let tk = rooms.take(k as int);
        let tk1 = rooms.take(k - 1);
        assert(tk == tk1.push(rooms[k - 1]));
        if tk.contains(r) && rooms[k - 1] != r {
            let j = choose|j: int| 0 <= j < tk.len() && tk[j] == r;
            assert(tk1[j] == r);
        }
        assert(v1.1.len() == v.1.len());
        assert(rooms[k - 1] < v.1.len());
        if rooms[k - 1] == r {
            assert(v2.1[r as int] is None);
        } else {
            assert(v2.1[r as int] == v1.1[r as int]);
        }
    } else if k > rooms.len() {
        assert(visit_all(js, v, from, fp, rooms, k).1 =~= Seq::<RoomAction>::empty());
    } else {
        assert(visit_all(js, v, from, fp, rooms, k).1 =~= Seq::<RoomAction>::empty());
        assert(rooms.take(0) =~= Seq::<usize>::empty());
    }
}

proof fn lemma_enter_halls_arrivals(js: Seq<Vec<HallwayJunction>>, v: Rooms, triggers: Seq<NearTrigger>, k: nat, r: usize)
    requires
        r < v.1.len(),
        v.1.len() == js.len(),
        js.len() <= usize::MAX,
        k <= triggers.len(),
    ensures
        only_arrivals(enter_halls(js, v, triggers, k).1),
        enter_halls(js, v, triggers, k).0.1.len() == v.1.len(),
        (v.1[r as int] is None || behind_trigger(js, triggers, k as int, r)) ==> enter_halls(js, v, triggers, k).0.1[r as int] is None,
    decreases k,
{
    if k == 0 {
        assert(enter_halls(js, v, triggers, k).1 =~= Seq::<RoomAction>::empty());
    } else {
        lemma_enter_halls_arrivals(js, v, triggers, (k - 1) as nat, r);
        let (v1, a1) = enter_halls(js, v, triggers, (k - 1) as nat);
        let t = triggers[k - 1];
        if t.room < js.len() {
            let rooms = rooms_with(js, t.fingerprint, js.len() as nat);
            lemma_rooms_with_bound(js, t.fingerprint, js.len() as nat);
            lemma_visit_all_arrivals(js, v1, t.room, t.fingerprint, rooms, rooms.len(), r);
            let a2 = visit_all(js, v1, t.room, t.fingerprint, rooms, rooms.len()).1;
            let all = a1 + a2;
            assert forall|j: int| 0 <= j < all.len() implies (#[trigger] all[j] is Restore || all[j] is Load || all[j] is Unmatched) by {
                if j < a1.len() {
                    assert(all[j] == a1[j]);
                } else {
                    assert(all[j] == a2[j - a1.len()]);
                }
            }
            assert(rooms.take(rooms.len() as int) == rooms);
        }
        if behind_trigger(js, triggers, k as int, r) && !behind_trigger(js, triggers, k - 1, r) {
            let i = choose|i: int|
                0 <= i < k && i < triggers.len() && (#[trigger] triggers[i]).room < js.len() && rooms_with(js, triggers[i].fingerprint, js.len() as nat).contains(r);
            assert(i == k - 1);
        }
        if behind_trigger(js, triggers, k - 1, r) {
            let i = choose|i: int|
                0 <= i < k - 1 && i < triggers.len() && (#[trigger] triggers[i]).room < js.len() && rooms_with(js, triggers[i].fingerprint, js.len() as nat).contains(r);
            assert(behind_trigger(js, triggers, k as int, r));
        }
    }
}

/// While one of a room's hallway triggers is within reach of the player, the
/// room's entities are not despawned: re-entry distance holds a room alive.
pub proof fn lemma_no_despawn_near_trigger(js: Seq<Vec<HallwayJunction>>, v: Rooms, t: Tick, r: usize)
    requires
        rooms_wf(v),
        v.0.len() == js.len(),
        js.len() <= usize::MAX,
        r < js.len(),
        t.player_present,
        behind_trigger(js, t.near_triggers@, t.near_triggers.len() as int, r),
    ensures
        !tick_rooms(js, v, t).1.contains(RoomAction::Despawn { room: r }),
        tick_rooms(js, v, t).0.1[r as int] is None,
{
    let tr = t.near_triggers@;
    lemma_enter_halls_arrivals(js, v, tr, tr.len(), r);
    lemma_enter_halls_wf(js, v, tr, tr.len());
    let (v1, a1) = enter_halls(js, v, tr, tr.len());
    assert(tr.len() > 0);
    lemma_timers_at(v1.1, t.elapsed_ms, v1.1.len(), r);
    let (p3, a3) = run_timers(v1.1, t.elapsed_ms, v1.1.len());
    let all = a1 + Seq::<RoomAction>::empty() + a3;
    if all.contains(RoomAction::Despawn { room: r }) {
        let j = choose|j: int| 0 <= j < all.len() && all[j] == RoomAction::Despawn { room: r };
        if j < a1.len() {
            assert(all[j] == a1[j]);
        } else {
            assert(all[j] == a3[j - a1.len()]);
        }
    }
}

/// Some room is live exactly when the count of live rooms is positive.
proof fn lemma_live_count_pos(a: Seq<Option<Shift>>)
    ensures
        live_count(a) >= 1 <==> exists|q: int| 0 <= q < a.len() && a[q] is Some,
    decreases a.len(),
{
    if a.len() > 0 {
        lemma_live_count_pos(a.drop_last());
        if exists|q: int| 0 <= q < a.drop_last().len() && a.drop_last()[q] is Some {
            let q = choose|q: int| 0 <= q < a.drop_last().len() && a.drop_last()[q] is Some;
            assert(a[q] is Some);
        }
        if exists|q: int| 0 <= q < a.len() && a[q] is Some {
            let q = choose|q: int| 0 <= q < a.len() && a[q] is Some;
            if q < a.len() - 1 {
                assert(a.drop_last()[q] is Some);
            }
        }
    }
}

proof fn lemma_visit_all_keeps_live(js: Seq<Vec<HallwayJunction>>, v: Rooms, from: usize, fp: u32, rooms: Seq<usize>, k: nat)
    requires
        v.0.len() == v.1.len(),
        forall|i: int| 0 <= i < rooms.len() ==> #[trigger] rooms[i] < v.0.len(),
    ensures
        visit_all(js, v, from, fp, rooms, k).0.1.len() == v.1.len(),
        visit_all(js, v, from, fp, rooms, k).0.0.len() == v.0.len(),
        forall|q: int| 0 <= q < v.0.len() && #[trigger] v.0[q] is Some ==> visit_all(js, v, from, fp, rooms, k).0.0[q] is Some,
    decreases k,
{
    if k > 0 && k <= rooms.len() {
        lemma_visit_all_keeps_live(js, v, from, fp, rooms, (k - 1) as nat);
    }
}

proof fn lemma_enter_halls_keeps_live(js: Seq<Vec<HallwayJunction>>, v: Rooms, triggers: Seq<NearTrigger>, k: nat)
    requires
        v.0.len() == v.1.len(),
        v.0.len() == js.len(),
        js.len() <= usize::MAX,
    ensures
        enter_halls(js, v, triggers, k).0.1.len() == v.1.len(),
        enter_halls(js, v, triggers, k).0.0.len() == v.0.len(),
        forall|q: int| 0 <= q < v.0.len() && #[trigger] v.0[q] is Some ==> enter_halls(js, v, triggers, k).0.0[q] is Some,
    decreases k,
{
    if k > 0 && k <= triggers.len() {
        lemma_enter_halls_keeps_live(js, v, triggers, (k - 1) as nat);
        let (v1, _) = enter_halls(js, v, triggers, (k - 1) as nat);
        let t = triggers[k - 1];
        if t.room < js.len() {
            let rooms = rooms_with(js, t.fingerprint, js.len() as nat);
            lemma_rooms_with_bound(js, t.fingerprint, js.len() as nat);
            lemma_visit_all_keeps_live(js, v1, t.room, t.fingerprint, rooms, rooms.len());
        }
    }
}

proof fn lemma_retire_keeps(v: Rooms, nearest: usize, close: Seq<usize>, k: nat, q: int)
    requires
        v.0.len() == v.1.len(),
        kept(q, nearest, close),
        0 <= q < v.0.len(),
    ensures
        retire(v, nearest, close, k).0.0[q] == v.0[q],
    decreases k,
{
    if k > 0 && k <= v.0.len() {
        lemma_retire_keeps(v, nearest, close, (k - 1) as nat, q);
        lemma_retire_wf_len(v, nearest, close, (k - 1) as nat);
    }
}

proof fn lemma_retire_wf_len(v: Rooms, nearest: usize, close: Seq<usize>, k: nat)
    requires
        v.0.len() == v.1.len(),
    ensures
        retire(v, nearest, close, k).0.0.len() == v.0.len(),
        retire(v, nearest, close, k).0.1.len() == v.1.len(),
    decreases k,
{
    if k > 0 && k <= v.0.len() {
        lemma_retire_wf_len(v, nearest, close, (k - 1) as nat);
    }
}

} // verus!
