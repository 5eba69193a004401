//! The routing snapshot of a pool, and the cell that it is published through.

use crate::backend::{views, Backend, BackendView};
use crate::schedule::{build_schedule, is_schedule};
use arc_swap::ArcSwap;
use std::sync::Arc;
use vstd::prelude::*;

verus! {

/// An immutable routing snapshot. A change of the pool makes a new one.
#[derive(Debug)]
pub struct Ring {
    /// The members of the pool, by their place in the pool's slots.
    pub backends: Vec<usize>,
    /// The pick order: indices into `backends`, each in proportion to its weight.
    pub schedule: Vec<usize>,
}

/// The weights of `members`, which are places in `slots`.
pub open spec fn weights_of(slots: Seq<BackendView>, members: Seq<usize>) -> Seq<u32> {
    Seq::new(members.len(), |i: int| slots[members[i] as int].weight)
}

impl Ring {
    /// The snapshot for the pool whose members are `backends`.
    pub fn build(slots: &Vec<Backend>, backends: Vec<usize>) -> (ring: Ring)
        requires
            forall|i: int| 0 <= i < backends@.len() ==> #[trigger] backends@[i] < slots@.len(),
        ensures
            ring.backends == backends,
            is_schedule(weights_of(views(slots@), backends@), ring.schedule@),
    {
        let mut weights: Vec<u32> = Vec::new();
        let mut i: usize = 0;
        while i < backends.len()
            invariant
                i <= backends@.len(),
                forall|j: int| 0 <= j < backends@.len() ==> #[trigger] backends@[j] < slots@.len(),
                weights@ == weights_of(views(slots@), backends@.take(i as int)),
            decreases backends@.len() - i,
        {
            weights.push(slots[backends[i]].weight());
            i = i + 1;
            assert(weights@ == weights_of(views(slots@), backends@.take(i as int)));
        }
        assert(backends@.take(i as int) == backends@);
        let schedule: Vec<usize> = build_schedule(&weights);
        Ring { backends, schedule }
    }
}

/// The cell through which a pool publishes its current ring: an `arc_swap::ArcSwap`, whose
/// strategy parameter is a type that its crate does not export.
#[verifier::external_body]
pub struct RingCell {
    cell: ArcSwap<Ring>,
}

/// The members of the ring that the cell holds.
pub uninterp spec fn held_backends(cell: RingCell) -> Seq<usize>;

/// The schedule of the ring that the cell holds.
pub uninterp spec fn held_schedule(cell: RingCell) -> Seq<usize>;

impl RingCell {
    /// Calls `ArcSwap::from_pointee`: the new cell holds the ring that it is given.
    #[verifier::external_body]
    pub(crate) fn new(ring: Ring) -> (cell: RingCell)
        ensures
            held_backends(cell) == ring.backends@,
            held_schedule(cell) == ring.schedule@,
    {
        RingCell { cell: ArcSwap::from_pointee(ring) }
    }

    /// Calls `ArcSwap::load_full`, which returns the ring that the cell holds. The cell is only
    /// ever written through `store` below, which asks for exclusive access, so no other thread
    /// can replace the ring while a shared reference to the cell exists.
    #[verifier::external_body]
    pub(crate) fn load(&self) -> (ring: Arc<Ring>)
        ensures
            ring.backends@ == held_backends(*self),
            ring.schedule@ == held_schedule(*self),
    {
        self.cell.load_full()
    }

    /// Calls `ArcSwap::store`, after which the cell holds the ring that it is given.
    #[verifier::external_body]
    pub(crate) fn store(&mut self, ring: Arc<Ring>)
        ensures
            held_backends(*final(self)) == ring.backends@,
            held_schedule(*final(self)) == ring.schedule@,
    {
        self.cell.store(ring)
    }
}

} // verus!
