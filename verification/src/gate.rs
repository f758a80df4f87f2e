use vstd::prelude::*;

verus! {

/// A single-use admission token: holding one is the proof that one unit of
/// capacity has been granted. Releasing it back to a gate consumes it, so a
/// permit can be released at most once.
pub struct Permit {
    granted: (),
}

/// Shared counting admission control: a fixed number of permits, handed out
/// one per admitted task and returned when the matching [`Permit`] is
/// released.
pub struct Gate {
    capacity: usize,
    available: usize,
}

impl Gate {
    /// Total number of permits, fixed at creation.
    pub closed spec fn capacity(self) -> int {
        self.capacity as int
    }

    /// Permits currently available for admission.
    pub closed spec fn available(self) -> int {
        self.available as int
    }

    /// Permits currently handed out: units of work admitted and not yet
    /// finished.
    pub open spec fn in_flight(self) -> int {
        self.capacity() - self.available()
    }

    /// A well-formed gate has at least one permit in total, and never more
    /// available than that fixed total.
    pub open spec fn wf(self) -> bool {
        &&& 1 <= self.capacity()
        &&& 0 <= self.available() <= self.capacity()
    }

    /// A fresh gate: all of its permits are available. A gate with no permits
    /// at all could never admit anything, so that is ruled out here.
    pub fn new(capacity: usize) -> (g: Gate)
        requires
            1 <= capacity,
        ensures
            g.wf(),
            g.capacity() == capacity,
            g.available() == capacity,
    {
        Gate { capacity, available: capacity }
    }

    /// The admission decision: hand out a permit when one is available;
    /// otherwise report that the caller must wait, changing nothing.
    pub fn try_acquire(&mut self) -> (r: Option<Permit>)
        requires
            old(self).wf(),
        ensures
            final(self).wf(),
            final(self).capacity() == old(self).capacity(),
            r is Some <==> old(self).available() >= 1,
            r is Some ==> final(self).available() == old(self).available() - 1,
            r is None ==> final(self).available() == old(self).available(),
    {
        if self.available >= 1 {
            self.available = self.available - 1;
            Some(Permit { granted: () })
        } else {
            None
        }
    }

    /// Return one unit of capacity. The permit is consumed, so no permit is
    /// ever returned twice.
    pub fn release(&mut self, permit: Permit)
        requires
            old(self).wf(),
            old(self).available() < old(self).capacity(),
        ensures
            final(self).wf(),
            final(self).capacity() == old(self).capacity(),
            final(self).available() == old(self).available() + 1,
    {
        let Permit { granted: () } = permit;
        self.available = self.available + 1;
    }

    /// How many permits could be handed out right now.
    pub fn permits_available(&self) -> (r: usize)
        ensures
            r == self.available(),
    {
        self.available
    }

    /// The fixed total number of permits.
    pub fn permit_capacity(&self) -> (r: usize)
        ensures
            r == self.capacity(),
    {
        self.capacity
    }
}

} // verus!
