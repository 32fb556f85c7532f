use vstd::prelude::*;

use crate::resource::ResourceId;

verus! {

/// What one notification asks of a tracker.
#[derive(Clone, Copy, Debug, PartialEq, Eq, Structural)]
pub enum Change {
    /// The resource has become pending.
    Increment(ResourceId),
    /// The resource has resolved.
    Decrement(ResourceId),
}

/// A deferred mutation: apply `change` to the count cell and the id-set cell
/// of slot `slot`, both at once.
#[derive(Clone, Copy, Debug, PartialEq, Eq, Structural)]
pub struct Microtask {
    pub slot: usize,
    pub change: Change,
}

/// The runtime in mathematical terms.
///
/// Scopes are numbered by position in `disposed`. Cells come in pairs, one
/// pair per slot: slot `k` has owner scope `owners[k]`, count `counts[k]`
/// and id set `ids[k]`. `queue` holds the mutations that wait for the next
/// drain, in call order. `applied[k]` is the list of changes already
/// written to slot `k`, oldest first. `subscribers[k]` holds the observers
/// that have read slot `k` under tracking and are to re-run when it is
/// written.
pub struct RuntimeModel {
    pub disposed: Seq<bool>,
    pub owners: Seq<usize>,
    pub counts: Seq<usize>,
    pub ids: Seq<Set<ResourceId>>,
    pub queue: Seq<Microtask>,
    pub applied: Seq<Seq<Change>>,
    pub subscribers: Seq<Set<usize>>,
}

/// The count after one change: one more (saturating at the largest `usize`)
/// for an increment, one less but never below zero for a decrement.
pub open spec fn count_step(c: usize, ch: Change) -> usize {
    match ch {
        Change::Increment(_) => if c < usize::MAX { (c + 1) as usize } else { c },
        Change::Decrement(_) => if c > 0 { (c - 1) as usize } else { 0 },
    }
}

/// The id set after one change: the id is added or taken out.
pub open spec fn ids_step(s: Set<ResourceId>, ch: Change) -> Set<ResourceId> {
    match ch {
        Change::Increment(id) => s.insert(id),
        Change::Decrement(id) => s.remove(id),
    }
}

/// The count of a fresh tracker after the given changes.
pub open spec fn count_after(chs: Seq<Change>) -> usize
    decreases chs.len(),
{
    if chs.len() == 0 {
        0
    } else {
        count_step(count_after(chs.drop_last()), chs.last())
    }
}

/// The id set of a fresh tracker after the given changes.
pub open spec fn ids_after(chs: Seq<Change>) -> Set<ResourceId>
    decreases chs.len(),
{
    if chs.len() == 0 {
        Set::empty()
    } else {
        ids_step(ids_after(chs.drop_last()), chs.last())
    }
}

/// The scope exists and has not been torn down.
pub open spec fn scope_open(m: RuntimeModel, scope: usize) -> bool {
    scope < m.disposed.len() && !m.disposed[scope as int]
}

/// The slot exists and its owning scope is still open, so its cells can be
/// read and written.
pub open spec fn live(m: RuntimeModel, slot: usize) -> bool {
    slot < m.owners.len() && scope_open(m, m.owners[slot as int])
}

/// The well-formed states: the per-slot sequences line up, every owner is
/// a known scope, and the count and the id set of each slot are those that
/// its applied changes give, the same changes for both.
pub open spec fn inv(m: RuntimeModel) -> bool {
    &&& m.counts.len() == m.owners.len()
    &&& m.ids.len() == m.owners.len()
    &&& m.applied.len() == m.owners.len()
    &&& m.subscribers.len() == m.owners.len()
    &&& forall|k: int| 0 <= k < m.owners.len() ==> m.owners[k] < m.disposed.len()
    &&& forall|k: int|
        0 <= k < m.owners.len() ==> {
            &&& #[trigger] m.counts[k] == count_after(m.applied[k])
            &&& m.ids[k] == ids_after(m.applied[k])
        }
}

/// A new scope, open.
pub open spec fn add_scope(m: RuntimeModel) -> RuntimeModel {
    RuntimeModel { disposed: m.disposed.push(false), ..m }
}

/// The scope torn down; an unknown scope changes nothing.
pub open spec fn close_scope(m: RuntimeModel, scope: usize) -> RuntimeModel {
    if scope < m.disposed.len() {
        RuntimeModel { disposed: m.disposed.update(scope as int, true), ..m }
    } else {
        m
    }
}

/// A new slot owned by `scope`: count zero, no ids, nothing applied, no
/// subscribers.
pub open spec fn add_slot(m: RuntimeModel, scope: usize) -> RuntimeModel {
    RuntimeModel {
        owners: m.owners.push(scope),
        counts: m.counts.push(0),
        ids: m.ids.push(Set::empty()),
        applied: m.applied.push(Seq::empty()),
        subscribers: m.subscribers.push(Set::empty()),
        ..m
    }
}

/// A tracked read of a live slot subscribes the observer to it; any other
/// read changes nothing.
pub open spec fn subscribe(m: RuntimeModel, slot: usize, observer: usize) -> RuntimeModel {
    if live(m, slot) {
        RuntimeModel {
            subscribers: m.subscribers.update(slot as int, m.subscribers[slot as int].insert(observer)),
            ..m
        }
    } else {
        m
    }
}

/// The observers that a drain of `m` must re-run: those subscribed to a
/// live slot that some queued mutation writes.
pub open spec fn notified(m: RuntimeModel) -> Set<usize> {
    Set::new(
        |o: usize|
            exists|i: int|
                0 <= i < m.queue.len() && live(m, #[trigger] m.queue[i].slot) && m.subscribers[m.queue[i].slot as int].contains(o),
    )
}

/// A mutation queued for the next drain.
pub open spec fn enqueue(m: RuntimeModel, t: Microtask) -> RuntimeModel {
    RuntimeModel { queue: m.queue.push(t), ..m }
}

/// One deferred mutation carried out: on a live slot, the count, the id set
/// and the record of applied changes move together; on any other slot
/// nothing happens.
pub open spec fn run_task(m: RuntimeModel, t: Microtask) -> RuntimeModel {
    if live(m, t.slot) {
        let k = t.slot as int;
        RuntimeModel {
            counts: m.counts.update(k, count_step(m.counts[k], t.change)),
            ids: m.ids.update(k, ids_step(m.ids[k], t.change)),
            applied: m.applied.update(k, m.applied[k].push(t.change)),
            ..m
        }
    } else {
        m
    }
}

/// The mutations carried out one after another, in order.
pub open spec fn run_tasks(m: RuntimeModel, ts: Seq<Microtask>) -> RuntimeModel
    decreases ts.len(),
{
    if ts.len() == 0 {
        m
    } else {
        run_task(run_tasks(m, ts.drop_last()), ts.last())
    }
}

/// A drain: the queue emptied and every queued mutation carried out in call
/// order.
pub open spec fn drain(m: RuntimeModel) -> RuntimeModel {
    run_tasks(RuntimeModel { queue: Seq::empty(), ..m }, m.queue)
}

/// Carrying out one mutation keeps the state well formed.
pub proof fn lemma_run_task_inv(m: RuntimeModel, t: Microtask)
    requires
        inv(m),
    ensures
        inv(run_task(m, t)),
        run_task(m, t).owners == m.owners,
        run_task(m, t).disposed == m.disposed,
        run_task(m, t).queue == m.queue,
        run_task(m, t).subscribers == m.subscribers,
{
    if live(m, t.slot) {
        let k = t.slot as int;
        let chs = m.applied[k].push(t.change);
        assert(chs.drop_last() =~= m.applied[k]);
        let r = run_task(m, t);
        assert forall|j: int| 0 <= j < r.owners.len() implies {
            &&& #[trigger] r.counts[j] == count_after(r.applied[j])
            &&& r.ids[j] == ids_after(r.applied[j])
        } by {
            if j != k {
                assert(m.counts[j] == count_after(m.applied[j]));
            }
        }
    }
}

/// Carrying out a list of mutations keeps the state well formed.
pub proof fn lemma_run_tasks_inv(m: RuntimeModel, ts: Seq<Microtask>)
    requires
        inv(m),
    ensures
        inv(run_tasks(m, ts)),
        run_tasks(m, ts).owners == m.owners,
        run_tasks(m, ts).disposed == m.disposed,
        run_tasks(m, ts).queue == m.queue,
        run_tasks(m, ts).subscribers == m.subscribers,
    decreases ts.len(),
{
    if ts.len() > 0 {
        lemma_run_tasks_inv(m, ts.drop_last());
        lemma_run_task_inv(run_tasks(m, ts.drop_last()), ts.last());
    }
}

} // verus!
