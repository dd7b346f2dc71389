//! Ring buffer of snapshots for rollback.
//!
//! Keeps the last frames of the simulation state. When a late input
//! arrives, the snapshot of its tick is restored and the simulation re-runs
//! up to the current tick.
use vstd::prelude::*;

verus! {

/// How far back in time a rollback can go (~267 ms at 60 Hz).
pub const MAX_ROLLBACK_FRAMES: usize = 16;

/// One frame's snapshot: the serialised simulation state.
#[derive(Clone, Debug)]
pub struct FrameSnapshot {
    pub tick: u64,
    /// Serialised simulation state.
    pub state: Vec<u8>,
    /// State of the deterministic random generator at this tick.
    pub rng_state: u64,
    /// Hash used to detect divergence.
    pub checksum: u64,
}

/// Ring buffer indexed by `tick % MAX_ROLLBACK_FRAMES`.
pub struct SnapshotBuffer {
    slots: Vec<Option<FrameSnapshot>>,
    oldest_tick: u64,
    newest_tick: u64,
}

/// Slots, oldest tick and newest tick after saving `snap`: a snapshot 16 or
/// more ticks behind the newest is older than the window and is dropped;
/// any other takes its tick's slot, whose previous tick has left the window.
pub open spec fn pushed(
    slots: Seq<Option<FrameSnapshot>>,
    oldest: u64,
    newest: u64,
    snap: FrameSnapshot,
) -> (Seq<Option<FrameSnapshot>>, u64, u64) {
    if snap.tick + 16 <= newest {
        (slots, oldest, newest)
    } else {
        let n = if snap.tick > newest { snap.tick } else { newest };
        let o = if n >= 16 { (n - 16 + 1) as u64 } else { oldest };
        (slots.update((snap.tick % 16) as int, Some(snap)), o, n)
    }
}

/// The shape a buffer keeps: 16 slots, a window of the 16 ticks up to the
/// newest, and each snapshot in its tick's slot, no newer than the newest.
pub open spec fn window_ok(slots: Seq<Option<FrameSnapshot>>, oldest: u64, newest: u64) -> bool {
    &&& slots.len() == 16
    &&& oldest <= newest
    &&& newest >= 16 ==> oldest == newest - 15
    &&& newest < 16 ==> oldest == 0
    &&& forall|i: int|
        0 <= i < 16 && (#[trigger] slots[i]) is Some ==> slots[i]->0.tick <= newest
            && slots[i]->0.tick % 16 == i
}

/// Saving keeps the shape of the buffer.
pub proof fn lemma_pushed_window_ok(
    slots: Seq<Option<FrameSnapshot>>,
    oldest: u64,
    newest: u64,
    snap: FrameSnapshot,
)
    requires
        window_ok(slots, oldest, newest),
    ensures
        ({
            let p = pushed(slots, oldest, newest, snap);
            window_ok(p.0, p.1, p.2)
        }),
{
    let p = pushed(slots, oldest, newest, snap);
    if snap.tick + 16 > newest {
        assert forall|i: int| 0 <= i < 16 && (#[trigger] p.0[i]) is Some implies p.0[i]->0.tick
            <= p.2 && p.0[i]->0.tick % 16 == i by {
            if i != (snap.tick % 16) as int {
                assert(p.0[i] == slots[i]);
            }
        }
    }
}

/// The snapshot saved for `tick`, if it is in the window and not overwritten.
pub open spec fn lookup(slots: Seq<Option<FrameSnapshot>>, oldest: u64, newest: u64, tick: u64) -> Option<
    FrameSnapshot,
> {
    if tick < oldest || tick > newest {
        None
    } else {
        match slots[(tick % 16) as int] {
            Some(s) => if s.tick == tick {
                Some(s)
            } else {
                None
            },
            None => None,
        }
    }
}

/// Number of filled slots.
pub open spec fn filled(slots: Seq<Option<FrameSnapshot>>) -> nat
    decreases slots.len(),
{
    if slots.len() == 0 {
        0
    } else {
        filled(slots.drop_last()) + if slots.last() is Some {
            1nat
        } else {
            0nat
        }
    }
}

fn empty_slots() -> (r: Vec<Option<FrameSnapshot>>)
    ensures
        r@ == Seq::new(16, |i: int| None::<FrameSnapshot>),
{
    let mut slots: Vec<Option<FrameSnapshot>> = Vec::new();
    let mut i: usize = 0;
    while i < MAX_ROLLBACK_FRAMES
        invariant
            i <= 16,
            slots@ == Seq::new(i as nat, |k: int| None::<FrameSnapshot>),
        decreases 16 - i,
    {
        slots.push(None);
        i = i + 1;
    }
    slots
}

impl SnapshotBuffer {
    #[verifier::type_invariant]
    closed spec fn inv(&self) -> bool {
        window_ok(self.slots@, self.oldest_tick, self.newest_tick)
    }

    pub closed spec fn view(&self) -> Seq<Option<FrameSnapshot>> {
        self.slots@
    }

    pub closed spec fn oldest_spec(&self) -> u64 {
        self.oldest_tick
    }

    pub closed spec fn newest_spec(&self) -> u64 {
        self.newest_tick
    }

    pub fn new() -> (r: SnapshotBuffer)
        ensures
            r@ == Seq::new(16, |i: int| None::<FrameSnapshot>),
            r.oldest_spec() == 0,
            r.newest_spec() == 0,
    {
        SnapshotBuffer { slots: empty_slots(), oldest_tick: 0, newest_tick: 0 }
    }

    /// Saves the snapshot of a tick, overwriting the slot of the tick 16
    /// frames earlier (the oldest, which leaves the window). A snapshot
    /// already older than the window is dropped. A snapshot within the window
    /// can be read back; of the others, only ticks leaving the window stop
    /// being readable, and nothing can be read that could not be before.
    pub fn push(&mut self, snapshot: FrameSnapshot)
        ensures
            (final(self)@, final(self).oldest_spec(), final(self).newest_spec()) == pushed(
                old(self)@,
                old(self).oldest_spec(),
                old(self).newest_spec(),
                snapshot,
            ),
            snapshot.tick + 16 > old(self).newest_spec() ==> lookup(
                final(self)@,
                final(self).oldest_spec(),
                final(self).newest_spec(),
                snapshot.tick,
            ) == Some(snapshot),
            forall|t: u64|
                t != snapshot.tick && final(self).oldest_spec() <= t && (#[trigger] lookup(
                    old(self)@,
                    old(self).oldest_spec(),
                    old(self).newest_spec(),
                    t,
                )) is Some ==> lookup(final(self)@, final(self).oldest_spec(), final(self).newest_spec(), t)
                    == lookup(old(self)@, old(self).oldest_spec(), old(self).newest_spec(), t),
            forall|t: u64|
                t != snapshot.tick && (#[trigger] lookup(
                    final(self)@,
                    final(self).oldest_spec(),
                    final(self).newest_spec(),
                    t,
                )) is Some ==> lookup(final(self)@, final(self).oldest_spec(), final(self).newest_spec(), t)
                    == lookup(old(self)@, old(self).oldest_spec(), old(self).newest_spec(), t),
            filled(final(self)@) <= MAX_ROLLBACK_FRAMES,
    {
        proof {
            use_type_invariant(&*self);
            let (s0, o0, n0) = (self.slots@, self.oldest_tick, self.newest_tick);
            lemma_pushed_window_ok(s0, o0, n0, snapshot);
            let p = pushed(s0, o0, n0, snapshot);
            lemma_filled_le(p.0);
            assert forall|t: u64|
                t != snapshot.tick && p.1 <= t && (#[trigger] lookup(s0, o0, n0, t)) is Some implies lookup(
                p.0,
                p.1,
                p.2,
                t,
            ) == lookup(s0, o0, n0, t) by {
                if snapshot.tick + 16 > n0 && t % 16 == snapshot.tick % 16 {
                    // both in the new window of 16 consecutive ticks
                    assert(t <= p.2 && snapshot.tick <= p.2);
                    assert(false);
                }
            }
            assert forall|t: u64|
                t != snapshot.tick && (#[trigger] lookup(p.0, p.1, p.2, t)) is Some implies lookup(
                p.0,
                p.1,
                p.2,
                t,
            ) == lookup(s0, o0, n0, t) by {
                lemma_push_only_adds(s0, o0, n0, snapshot, t);
            }
        }
        let tick = snapshot.tick;
        if tick < self.newest_tick && self.newest_tick - tick >= 16 {
            return;
        }
        let idx = (tick % 16) as usize;
        let ghost before = (self.slots@, self.oldest_tick, self.newest_tick);
        let ghost snap = snapshot;
        let mut slots = empty_slots();
        std::mem::swap(&mut slots, &mut self.slots);
        slots.set(idx, Some(snapshot));
        let n = if tick > self.newest_tick {
            tick
        } else {
            self.newest_tick
        };
        let o = if n >= 16 {
            n - 16 + 1
        } else {
            self.oldest_tick
        };
        proof {
            lemma_pushed_window_ok(before.0, before.1, before.2, snap);
            assert(slots@ == pushed(before.0, before.1, before.2, snap).0);
        }
        *self = SnapshotBuffer { slots, oldest_tick: o, newest_tick: n };
    }

    /// The snapshot of a tick, for a rollback.
    pub fn get(&self, tick: u64) -> (r: Option<&FrameSnapshot>)
        ensures
            match r {
                Some(s) => lookup(self@, self.oldest_spec(), self.newest_spec(), tick) == Some(*s),
                None => lookup(self@, self.oldest_spec(), self.newest_spec(), tick) is None,
            },
    {
        proof {
            use_type_invariant(self);
        }
        if tick < self.oldest_tick || tick > self.newest_tick {
            return None;
        }
        let idx = (tick % 16) as usize;
        match &self.slots[idx] {
            Some(s) => if s.tick == tick {
                Some(s)
            } else {
                None
            },
            None => None,
        }
    }

    /// Oldest tick available.
    pub fn oldest(&self) -> (r: u64)
        ensures
            r == self.oldest_spec(),
    {
        self.oldest_tick
    }

    /// Newest tick saved.
    pub fn newest(&self) -> (r: u64)
        ensures
            r == self.newest_spec(),
    {
        self.newest_tick
    }

    /// Number of filled slots.
    pub fn len(&self) -> (r: usize)
        ensures
            r == filled(self@),
    {
        proof {
            use_type_invariant(self);
        }
        let mut n: usize = 0;
        let mut i: usize = 0;
        while i < self.slots.len()
            invariant
                i <= self.slots@.len(),
                self.slots@.len() == 16,
                n == filled(self.slots@.subrange(0, i as int)),
                n <= i,
            decreases self.slots@.len() - i,
        {
            proof {
                assert(self.slots@.subrange(0, i + 1).drop_last() =~= self.slots@.subrange(
                    0,
                    i as int,
                ));
            }
            if self.slots[i].is_some() {
                n = n + 1;
            }
            i = i + 1;
        }
        proof {
            assert(self.slots@.subrange(0, 16) =~= self.slots@);
        }
        n
    }

    pub fn is_empty(&self) -> (r: bool)
        ensures
            r == (filled(self@) == 0),
    {
        self.len() == 0
    }
}

/// No more snapshots are held than there are slots.
proof fn lemma_filled_le(slots: Seq<Option<FrameSnapshot>>)
    ensures
        filled(slots) <= slots.len(),
    decreases slots.len(),
{
    if slots.len() > 0 {
        lemma_filled_le(slots.drop_last());
    }
}

/// A snapshot just saved is found again by its tick, unless it fell out of
/// the window at once (a tick 16 or more frames behind the newest).
pub proof fn law_get_after_push(
    slots: Seq<Option<FrameSnapshot>>,
    oldest: u64,
    newest: u64,
    snap: FrameSnapshot,
)
    requires
        slots.len() == 16,
        snap.tick + 16 > newest,
        oldest <= snap.tick,
    ensures
        ({
            let p = pushed(slots, oldest, newest, snap);
            lookup(p.0, p.1, p.2, snap.tick) == Some(snap)
        }),
{
}

/// Saving a snapshot leaves the snapshots of the other ticks in the window
/// that map to other slots where they were.
pub proof fn law_push_keeps_others(
    slots: Seq<Option<FrameSnapshot>>,
    oldest: u64,
    newest: u64,
    snap: FrameSnapshot,
    t: u64,
)
    requires
        slots.len() == 16,
        t % 16 != snap.tick % 16,
        lookup(slots, oldest, newest, t) is Some,
        ({
            let p = pushed(slots, oldest, newest, snap);
            p.1 <= t
        }),
    ensures
        ({
            let p = pushed(slots, oldest, newest, snap);
            lookup(p.0, p.1, p.2, t) == lookup(slots, oldest, newest, t)
        }),
{
}

/// A snapshot older than the window changes nothing: every snapshot that
/// could be read before can still be read.
pub proof fn law_old_push_ignored(
    slots: Seq<Option<FrameSnapshot>>,
    oldest: u64,
    newest: u64,
    snap: FrameSnapshot,
)
    requires
        snap.tick + 16 <= newest,
    ensures
        pushed(slots, oldest, newest, snap) == (slots, oldest, newest),
{
}

/// After a save, a tick other than the saved one can be read only if it
/// could be read before, and then gives the same snapshot.
pub proof fn lemma_push_only_adds(
    slots: Seq<Option<FrameSnapshot>>,
    oldest: u64,
    newest: u64,
    snap: FrameSnapshot,
    t: u64,
)
    requires
        window_ok(slots, oldest, newest),
        t != snap.tick,
    ensures
        ({
            let p = pushed(slots, oldest, newest, snap);
            lookup(p.0, p.1, p.2, t) is Some ==> lookup(p.0, p.1, p.2, t) == lookup(
                slots,
                oldest,
                newest,
                t,
            )
        }),
{
}

} // verus!
