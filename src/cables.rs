//! Cables that the player carries between outlets: which plug sits in which
//! outlet, kept consistent in both directions.
use vstd::prelude::*;

verus! {

/// Plugs and outlets by number, each side naming the other.
#[derive(Clone, Debug)]
pub struct Sockets {
    /// The outlet each plug sits in.
    pub plug_outlet: Vec<Option<usize>>,
    /// The plug each outlet holds.
    pub outlet_plug: Vec<Option<usize>>,
}

/// What an outlet tick decided.
#[derive(Clone, Debug)]
pub struct OutletOutcome {
    /// Outlets the player can plug into this tick.
    pub open_outlets: Vec<usize>,
    /// The carried plug went into an outlet, so the player lets go of it.
    pub dropped: bool,
}

/// The outlets' plugs once plug `p` is taken out of its outlet.
pub open spec fn freed_outlets(plug_outlet: Seq<Option<usize>>, outlet_plug: Seq<Option<usize>>, p: usize) -> Seq<Option<usize>> {
    match plug_outlet[p as int] {
        Some(o) => outlet_plug.update(o as int, None),
        None => outlet_plug,
    }
}

/// Outlet `o` exists and holds no plug.
pub open spec fn takes(outlet_plug: Seq<Option<usize>>, o: usize) -> bool {
    o < outlet_plug.len() && outlet_plug[o as int] is None
}

impl Sockets {
    /// A plug sits in an outlet exactly when that outlet holds that plug.
    pub open spec fn wf(&self) -> bool {
        &&& forall|p: int|
            0 <= p < self.plug_outlet.len() ==> match #[trigger] self.plug_outlet@[p] {
                Some(o) => o < self.outlet_plug.len() && self.outlet_plug@[o as int] == Some(p as usize),
                None => true,
            }
        &&& forall|o: int|
            0 <= o < self.outlet_plug.len() ==> match #[trigger] self.outlet_plug@[o] {
                Some(p) => p < self.plug_outlet.len() && self.plug_outlet@[p as int] == Some(o as usize),
                None => true,
            }
    }

    /// Takes plug `p` out of its outlet, if it is in one.
    pub fn unplug(&mut self, p: usize)
        requires
            old(self).wf(),
            p < old(self).plug_outlet.len(),
        ensures
            final(self).wf(),
            final(self).plug_outlet@ == old(self).plug_outlet@.update(p as int, None),
            final(self).outlet_plug@ == match old(self).plug_outlet@[p as int] {
                Some(o) => old(self).outlet_plug@.update(o as int, None),
                None => old(self).outlet_plug@,
            },
    {
        if let Some(o) = self.plug_outlet[p] {
            self.outlet_plug.set(o, None);
            self.plug_outlet.set(p, None);
            assert forall|q: int| 0 <= q < self.plug_outlet.len() implies match #[trigger] self.plug_outlet@[q] {
                Some(o2) => o2 < self.outlet_plug.len() && self.outlet_plug@[o2 as int] == Some(q as usize),
                None => true,
            } by {
                if q != p {
                    if let Some(o2) = old(self).plug_outlet@[q] {
                        assert(old(self).outlet_plug@[o2 as int] == Some(q as usize));
                    }
                }
            }
            assert forall|o2: int| 0 <= o2 < self.outlet_plug.len() implies match #[trigger] self.outlet_plug@[o2] {
                Some(q) => q < self.plug_outlet.len() && self.plug_outlet@[q as int] == Some(o2 as usize),
                None => true,
            } by {
                if o2 != o {
                    if let Some(q) = old(self).outlet_plug@[o2] {
                        assert(old(self).plug_outlet@[q as int] == Some(o2 as usize));
                    }
                }
            }
        }
    }

    /// Puts plug `p` into outlet `o`; both must be free.
    pub fn plug_in(&mut self, p: usize, o: usize)
        requires
            old(self).wf(),
            p < old(self).plug_outlet.len(),
            o < old(self).outlet_plug.len(),
            old(self).plug_outlet@[p as int] is None,
            old(self).outlet_plug@[o as int] is None,
        ensures
            final(self).wf(),
            final(self).plug_outlet@ == old(self).plug_outlet@.update(p as int, Some(o)),
            final(self).outlet_plug@ == old(self).outlet_plug@.update(o as int, Some(p)),
    {
        self.plug_outlet.set(p, Some(o));
        self.outlet_plug.set(o, Some(p));
        assert forall|q: int| 0 <= q < self.plug_outlet.len() implies match #[trigger] self.plug_outlet@[q] {
            Some(o2) => o2 < self.outlet_plug.len() && self.outlet_plug@[o2 as int] == Some(q as usize),
            None => true,
        } by {
            if q != p {
                if let Some(o2) = old(self).plug_outlet@[q] {
                    assert(old(self).outlet_plug@[o2 as int] == Some(q as usize));
                }
            }
        }
        assert forall|o2: int| 0 <= o2 < self.outlet_plug.len() implies match #[trigger] self.outlet_plug@[o2] {
            Some(q) => q < self.plug_outlet.len() && self.plug_outlet@[q as int] == Some(o2 as usize),
            None => true,
        } by {
            if o2 != o {
                if let Some(q) = old(self).outlet_plug@[o2] {
                    assert(old(self).plug_outlet@[q as int] == Some(o2 as usize));
                }
            }
        }
    }

    /// The outlets that hold no plug, in order.
    pub fn free_outlets(&self) -> (r: Vec<usize>)
        ensures
            forall|o: usize| #[trigger] r@.contains(o) <==> (o < self.outlet_plug.len() && self.outlet_plug@[o as int] is None),
            r@.no_duplicates(),
    {
        let mut r: Vec<usize> = Vec::new();
        let mut o: usize = 0;
        while o < self.outlet_plug.len()
            invariant
                o <= self.outlet_plug.len(),
                forall|k: int| 0 <= k < r.len() ==> #[trigger] r@[k] < o,
                forall|q: usize| #[trigger] r@.contains(q) <==> (q < o && self.outlet_plug@[q as int] is None),
                r@.no_duplicates(),
            decreases self.outlet_plug.len() - o,
        {
            if self.outlet_plug[o].is_none() {
                let ghost before = r@;
                r.push(o);
                assert forall|q: usize| #[trigger] r@.contains(q) <==> (q < o + 1 && self.outlet_plug@[q as int] is None) by {
                    if q < o && self.outlet_plug@[q as int] is None {
                        assert(before.contains(q));
                        let k = choose|k: int| 0 <= k < before.len() && before[k] == q;
                        assert(r@[k] == q);
                    }
                    if r@.contains(q) && q != o {
                        let k = choose|k: int| 0 <= k < r.len() && r@[k] == q;
                        assert(before[k] == q);
                        assert(before.contains(q));
                    }
                    if q == o {
                        assert(r@[r.len() - 1] == o);
                    }
                }
            } else {
                assert forall|q: usize| #[trigger] r@.contains(q) <==> (q < o + 1 && self.outlet_plug@[q as int] is None) by {
                    if r@.contains(q) {
                        let k = choose|k: int| 0 <= k < r.len() && r@[k] == q;
                    }
                }
            }
            o = o + 1;
        }
        r
    }

    /// One tick of cable handling. Picking a plug up takes it out of its
    /// outlet; while the player carries it every free outlet is open, and the
    /// first free outlet the player activates takes the plug, which the
    /// player then drops. With nothing carried no outlet is open.
    pub fn outlet_step(&mut self, carried: Option<usize>, activated: &Vec<usize>) -> (r: OutletOutcome)
        requires
            old(self).wf(),
            carried matches Some(p) ==> p < old(self).plug_outlet.len(),
        ensures
            final(self).wf(),
            final(self).plug_outlet.len() == old(self).plug_outlet.len(),
            final(self).outlet_plug.len() == old(self).outlet_plug.len(),
            carried is None ==> final(self).plug_outlet@ == old(self).plug_outlet@ && final(self).outlet_plug@
                == old(self).outlet_plug@ && r.open_outlets@.len() == 0 && !r.dropped,
            carried matches Some(p) ==> forall|o: usize|
                #[trigger] r.open_outlets@.contains(o) <==> takes(freed_outlets(old(self).plug_outlet@, old(self).outlet_plug@, p), o),
            carried matches Some(p) ==> (r.dropped <==> exists|i: int|
                0 <= i < activated.len() && #[trigger] takes(freed_outlets(old(self).plug_outlet@, old(self).outlet_plug@, p), activated@[i])),
            carried matches Some(p) ==> r.dropped ==> exists|i: int|
                0 <= i < activated.len() && #[trigger] takes(freed_outlets(old(self).plug_outlet@, old(self).outlet_plug@, p), activated@[i])
                && (forall|j: int| 0 <= j < i ==> !#[trigger] takes(freed_outlets(old(self).plug_outlet@, old(self).outlet_plug@, p), activated@[j]))
                && final(self).plug_outlet@ == old(self).plug_outlet@.update(p as int, Some(activated@[i]))
                && final(self).outlet_plug@ == freed_outlets(old(self).plug_outlet@, old(self).outlet_plug@, p).update(activated@[i] as int, Some(p)),
            carried matches Some(p) ==> !r.dropped ==> final(self).plug_outlet@ == old(self).plug_outlet@.update(p as int, None)
                && final(self).outlet_plug@ == freed_outlets(old(self).plug_outlet@, old(self).outlet_plug@, p),
    {
        match carried {
            None => OutletOutcome { open_outlets: Vec::new(), dropped: false },
            Some(p) => {
                self.unplug(p);
                let open_outlets = self.free_outlets();
                let ghost freed = self.outlet_plug@;
                let mut i: usize = 0;
                let mut chosen: Option<usize> = None;
                while i < activated.len() && chosen.is_none()
                    invariant
                        self.outlet_plug@ == freed,
                        i <= activated.len(),
                        forall|j: int| 0 <= j < i ==> !#[trigger] takes(freed, activated@[j]),
                        chosen matches Some(k) ==> k < activated.len() && takes(freed, activated@[k as int])
                            && (forall|j: int| 0 <= j < k ==> !#[trigger] takes(freed, activated@[j])),
                    decreases activated.len() - i + (if chosen is None { 1int } else { 0int }),
                {
                    let o = activated[i];
                    if o < self.outlet_plug.len() && self.outlet_plug[o].is_none() {
                        chosen = Some(i);
                    } else {
                        i = i + 1;
                    }
                }
                if let Some(k) = chosen {
                    let o = activated[k];
                    self.plug_in(p, o);
                    proof {
                        assert(self.plug_outlet@ =~= old(self).plug_outlet@.update(p as int, Some(activated@[k as int])));
                        assert(self.outlet_plug@ =~= freed.update(activated@[k as int] as int, Some(p)));
                    }
                    return OutletOutcome { open_outlets, dropped: true };
                }
                OutletOutcome { open_outlets, dropped: false }
            },
        }
    }
}

} // verus!
