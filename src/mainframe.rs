//! Mainframes: switched on by the player while charged, and remembered as on
//! across reloads of their room.
use vstd::prelude::*;

verus! {

/// A mainframe's state.
#[derive(Clone, Copy, Debug)]
pub struct Mainframe {
    /// Switched on by the player; an active mainframe is itself a power seed.
    pub active: bool,
    /// Recomputed every tick from the power grid.
    pub has_charge: bool,
    /// The cell it was spawned on, in its room's own grid.
    pub location: (usize, usize),
}

impl Mainframe {
    /// The player interacts with the mainframe: it toggles, but only while
    /// it has charge.
    pub fn activate(&mut self, activated: bool)
        ensures
            final(self).active == (if activated && old(self).has_charge {
                !old(self).active
            } else {
                old(self).active
            }),
            final(self).has_charge == old(self).has_charge,
            final(self).location == old(self).location,
    {
        if activated && self.has_charge {
            self.active = !self.active;
        }
    }
}

/// The mainframes, by room and cell, that have ever been switched on.
#[derive(Clone, Debug)]
pub struct RememberedMainframes {
    pub remembered: Vec<(usize, (usize, usize))>,
}

impl RememberedMainframes {
    pub open spec fn view(&self) -> Set<(usize, (usize, usize))> {
        self.remembered@.to_set()
    }

    pub fn new() -> (r: RememberedMainframes)
        ensures
            r.view() == Set::<(usize, (usize, usize))>::empty(),
    {
        let r = RememberedMainframes { remembered: Vec::new() };
        assert(r.view() =~= Set::empty());
        r
    }

    fn contains(&self, key: (usize, (usize, usize))) -> (r: bool)
        ensures
            r == self.view().contains(key),
    {
        let mut i: usize = 0;
        while i < self.remembered.len()
            invariant
                i <= self.remembered.len(),
                forall|j: int| 0 <= j < i ==> self.remembered@[j] != key,
            decreases self.remembered.len() - i,
        {
            let k = self.remembered[i];
            if k.0 == key.0 && k.1.0 == key.1.0 && k.1.1 == key.1.1 {
                return true;
            }
            i = i + 1;
        }
        false
    }

    /// Keeps activation sticky across reloads: an active mainframe of room
    /// `room` is remembered, and a remembered one that a reload brought back
    /// inactive is switched on again.
    pub fn remember(&mut self, room: usize, m: &mut Mainframe)
        ensures
            final(self).view() == (if old(m).active {
                old(self).view().insert((room, old(m).location))
            } else {
                old(self).view()
            }),
            final(m).active == (old(m).active || old(self).view().contains((room, old(m).location))),
            final(m).has_charge == old(m).has_charge,
            final(m).location == old(m).location,
    {
        let key = (room, m.location);
        assert(*self == *old(self));
        let known = self.contains(key);
        if m.active {
            if !known {
                let ghost before = self.remembered@;
                self.remembered.push(key);
                proof {
                    before.lemma_push_to_set_commute(key);
                }
            } else {
                assert(self.view().contains(key));
                assert(self.view() =~= self.view().insert(key));
            }
        } else if known {
            m.active = true;
        }
    }
}

} // verus!
