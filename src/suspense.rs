use vstd::prelude::*;

use crate::model::{add_slot, enqueue, live, scope_open, subscribe, Change, Microtask};
use crate::resource::ResourceId;
use crate::runtime::{CountReader, IdsReader, Runtime, Scope, ScopeDisposed};

verus! {

/// Tracks the resources that are read under one suspense boundary: how many
/// are pending, and which. Two contexts are equal exactly when they are the
/// same context, that is when they share their count cell; what the cells
/// hold plays no part.
#[derive(Clone, Copy, Debug, PartialEq, Eq, Structural, Hash)]
pub struct SuspenseContext {
    pub(crate) slot: usize,
}

impl SuspenseContext {
    /// The slot of this context's cells in the runtime.
    pub open(crate) spec fn slot(&self) -> usize {
        self.slot
    }

    /// Creates an empty suspense context under `cx`: a count cell holding
    /// zero and an empty id-set cell. Fails when `cx` has been torn down.
    pub fn new(rt: &mut Runtime, cx: Scope) -> (r: Result<SuspenseContext, ScopeDisposed>)
        requires
            old(rt).wf(),
        ensures
            final(rt).wf(),
            scope_open(old(rt)@, cx.id) <==> r is Ok,
            r matches Ok(c) ==> c.slot() == old(rt)@.owners.len() && final(rt)@ == add_slot(
                old(rt)@,
                cx.id,
            ),
            r matches Err(e) ==> e == ScopeDisposed && final(rt)@ == old(rt)@,
    {
        match rt.create_cells(cx) {
            Ok(slot) => Ok(SuspenseContext { slot }),
            Err(e) => Err(e),
        }
    }

    /// The number of resources that are currently pending.
    pub fn pending_count(&self) -> (r: CountReader)
        ensures
            r.slot() == self.slot(),
    {
        CountReader { slot: self.slot }
    }

    /// The ids of the resources that are currently pending.
    pub fn pending_ids(&self) -> (r: IdsReader)
        ensures
            r.slot() == self.slot(),
    {
        IdsReader { slot: self.slot }
    }

    /// Notifies the context that resource `id` is now pending. The count
    /// goes up by one and `id` joins the id set, both in one mutation that
    /// waits for the next drain.
    pub fn increment(&self, rt: &mut Runtime, id: ResourceId)
        requires
            old(rt).wf(),
        ensures
            final(rt).wf(),
            final(rt)@ == enqueue(
                old(rt)@,
                Microtask { slot: self.slot(), change: Change::Increment(id) },
            ),
    {
        rt.enqueue(Microtask { slot: self.slot, change: Change::Increment(id) });
    }

    /// Notifies the context that resource `id` has resolved. The count goes
    /// down by one unless it is already zero, and `id` leaves the id set,
    /// both in one mutation that waits for the next drain.
    pub fn decrement(&self, rt: &mut Runtime, id: ResourceId)
        requires
            old(rt).wf(),
        ensures
            final(rt).wf(),
            final(rt)@ == enqueue(
                old(rt)@,
                Microtask { slot: self.slot(), change: Change::Decrement(id) },
            ),
    {
        rt.enqueue(Microtask { slot: self.slot, change: Change::Decrement(id) });
    }

    /// Tests whether all of the pending resources have resolved: the count
    /// is zero. A count that cannot be read, because the owning scope is torn
    /// down, counts as not ready. This is a one-shot snapshot: it subscribes
    /// nothing.
    pub fn ready(&self, rt: &Runtime) -> (r: bool)
        requires
            rt.wf(),
        ensures
            r == (live(rt@, self.slot()) && rt@.counts[self.slot() as int] == 0),
    {
        match self.pending_count().try_get(rt) {
            Some(n) => n == 0,
            None => false,
        }
    }

    /// As `ready`, for a dependent computation running under tracking: the
    /// observer is subscribed to the count cell, so the next drain that
    /// writes it lists the observer among those to re-run.
    pub fn ready_tracked(&self, rt: &mut Runtime, observer: usize) -> (r: bool)
        requires
            old(rt).wf(),
        ensures
            final(rt).wf(),
            final(rt)@ == subscribe(old(rt)@, self.slot(), observer),
            r == (live(old(rt)@, self.slot()) && old(rt)@.counts[self.slot() as int] == 0),
    {
        match self.pending_count().track(rt, observer) {
            Some(n) => n == 0,
            None => false,
        }
    }
}

} // verus!
