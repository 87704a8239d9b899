//! The per-room concurrency guard, as the engine sees it: a
//! lazily-populated table from room to an exclusive-hold flag. A room
//! mutation may only run while its room is held; holds on distinct
//! rooms are independent, so unrelated rooms proceed in parallel.
//!
//! Queueing on a contended room is the caller's affair (the runtime
//! parks the task); this table decides only who may proceed.

use vstd::prelude::*;

use crate::util::{pairs_map, pairs_sorted, state_get, state_remove, state_set};

verus! {

/// The set of rooms currently held for mutation.
pub struct RoomGuard {
    held: Vec<(u64, u64)>,
}

impl RoomGuard {
    /// The rooms currently held.
    pub closed spec fn view(&self) -> Set<u64> {
        pairs_map(self.held@).dom()
    }

    pub closed spec fn wf(&self) -> bool {
        pairs_sorted(self.held@)
    }

    pub fn new() -> (g: Self)
        ensures
            g.wf(),
            g@ =~= Set::<u64>::empty(),
    {
        let g = RoomGuard { held: Vec::new() };
        proof {
            assert(g.held@.len() == 0);
        }
        g
    }

    /// Whether the room is currently held.
    pub fn is_held(&self, room: u64) -> (r: bool)
        requires
            self.wf(),
        ensures
            r == self@.contains(room),
    {
        state_get(&self.held, room).is_some()
    }

    /// Takes the room's exclusive hold. Fails exactly when the room is
    /// already held: two mutations of one room never overlap.
    pub fn try_acquire(&mut self, room: u64) -> (ok: bool)
        requires
            old(self).wf(),
        ensures
            final(self).wf(),
            ok == !old(self)@.contains(room),
            ok ==> final(self)@ =~= old(self)@.insert(room),
            !ok ==> final(self)@ == old(self)@,
    {
        if state_get(&self.held, room).is_some() {
            return false;
        }
        let next = state_set(&self.held, room, 1);
        self.held = next;
        proof {
            assert(pairs_map(self.held@).dom() =~= pairs_map(old(self).held@).dom().insert(room));
        }
        true
    }

    /// Releases the room's hold.
    pub fn release(&mut self, room: u64)
        requires
            old(self).wf(),
        ensures
            final(self).wf(),
            final(self)@ =~= old(self)@.remove(room),
    {
        let next = state_remove(&self.held, room);
        self.held = next;
        proof {
            assert(pairs_map(self.held@).dom() =~= pairs_map(old(self).held@).dom().remove(room));
        }
    }
}

/// The bounded permit gating CPU-heavy state resolution: a
/// configurable number of resolutions may run at once, capping peak
/// memory on large rooms. This is a resource bound, not a
/// correctness requirement — resolution itself is safe to run
/// concurrently across rooms.
pub struct ResolvePermit {
    active: u64,
    cap: u64,
}

impl ResolvePermit {
    /// How many holders there are right now.
    pub closed spec fn active_count(&self) -> u64 {
        self.active
    }

    /// How many holders there may be at once.
    pub closed spec fn spec_cap(&self) -> u64 {
        self.cap
    }

    pub fn new(cap: u64) -> (p: Self)
        ensures
            p.active_count() == 0,
            p.spec_cap() == cap,
    {
        ResolvePermit { active: 0, cap }
    }

    /// Takes one permit. Fails exactly when the configured bound is
    /// reached; the caller then queues.
    pub fn try_acquire(&mut self) -> (ok: bool)
        ensures
            final(self).spec_cap() == old(self).spec_cap(),
            ok == (old(self).active_count() < old(self).spec_cap()),
            ok ==> final(self).active_count() == old(self).active_count() + 1,
            !ok ==> final(self).active_count() == old(self).active_count(),
    {
        if self.active < self.cap {
            self.active = self.active + 1;
            true
        } else {
            false
        }
    }

    /// Returns one permit.
    pub fn release(&mut self)
        requires
            old(self).active_count() > 0,
        ensures
            final(self).spec_cap() == old(self).spec_cap(),
            final(self).active_count() == old(self).active_count() - 1,
    {
        self.active = self.active - 1;
    }
}

/// Concurrency isolation: holding or releasing one room never changes
/// whether any other room can be acquired, so mutations on different
/// rooms never serialize against each other; and by `try_acquire`'s
/// contract a second acquisition of a held room fails, so two
/// mutations on the same room never interleave.
pub proof fn lemma_guard_isolation(held: Set<u64>, room1: u64, room2: u64)
    requires
        room1 != room2,
    ensures
        held.insert(room1).contains(room2) == held.contains(room2),
        held.remove(room1).contains(room2) == held.contains(room2),
{
}

} // verus!
