//! Stable identifier assignment for resident regions: `allocate` returns a
//! fresh, never-reused identifier, and `retire` releases one exactly once.

use vstd::prelude::*;

verus! {

/// Allocates identifiers from a counter and tracks (in ghost state) which
/// ones have been retired, so contracts can say that an identifier is never
/// retired twice and never handed out again.
pub struct IdAllocator {
    next: u64,
    retired: Ghost<Set<u64>>,
}

impl IdAllocator {
    /// The next identifier to hand out; everything below it has been
    /// allocated at some point.
    pub closed spec fn next_id(self) -> u64 {
        self.next
    }

    /// The identifiers that have been retired.
    pub closed spec fn retired(self) -> Set<u64> {
        self.retired@
    }

    /// Whether `id` has been allocated already.
    pub open spec fn allocated(self, id: u64) -> bool {
        id < self.next_id()
    }

    /// Only allocated identifiers are ever retired.
    pub open spec fn wf(self) -> bool {
        forall|id: u64| #[trigger] self.retired().contains(id) ==> id < self.next_id()
    }

    pub fn new() -> (a: Self)
        ensures
            a.wf(),
            a.next_id() == 0,
            a.retired() == Set::<u64>::empty(),
    {
        IdAllocator { next: 0, retired: Ghost(Set::empty()) }
    }

    /// Returns a fresh identifier: never returned before, and never retired.
    pub fn allocate(&mut self) -> (id: u64)
        requires
            old(self).wf(),
            old(self).next_id() < u64::MAX,
        ensures
            final(self).wf(),
            id == old(self).next_id(),
            final(self).next_id() == id + 1,
            final(self).retired() == old(self).retired(),
            !final(self).retired().contains(id),
    {
        let id = self.next;
        self.next = self.next + 1;
        proof {
            assert forall|i: u64| #[trigger] self.retired@.contains(i) implies i
                < self.next by {
                assert(old(self).retired().contains(i));
            }
        }
        id
    }

    /// Retires an identifier. The caller must show it was allocated and has
    /// not been retired yet, so an identifier is retired at most once.
    pub fn retire(&mut self, id: u64)
        requires
            old(self).wf(),
            old(self).allocated(id),
            !old(self).retired().contains(id),
        ensures
            final(self).wf(),
            final(self).next_id() == old(self).next_id(),
            final(self).retired() == old(self).retired().insert(id),
    {
        proof {
            self.retired@ = self.retired@.insert(id);
        }
    }
}

} // verus!
