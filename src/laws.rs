//! Laws of the tracker, stated over the runtime model and proved.
use vstd::prelude::*;

use crate::model::{
    add_scope, add_slot, close_scope, count_after, drain, enqueue, ids_after, inv,
    lemma_run_tasks_inv, live, run_task, run_tasks, subscribe, Change, Microtask, RuntimeModel,
};
use crate::resource::ResourceId;
use crate::suspense::SuspenseContext;

verus! {

/// Increments minus decrements, without clamping.
pub open spec fn net(chs: Seq<Change>) -> int
    decreases chs.len(),
{
    if chs.len() == 0 {
        0
    } else {
        net(chs.drop_last()) + match chs.last() {
            Change::Increment(_) => 1int,
            Change::Decrement(_) => -1int,
        }
    }
}

/// The count after a list of changes is the largest net increment count
/// over the trailing runs of the list (the empty run included), and never
/// more than the list is long. So the count is zero exactly when no
/// trailing run holds more increments than decrements. (The count tracks
/// events, and need not equal the size of the id set, which tracks ids.)
pub proof fn lemma_count_is_largest_trailing_net(chs: Seq<Change>)
    requires
        chs.len() <= usize::MAX,
    ensures
        count_after(chs) <= chs.len(),
        forall|k: int| 0 <= k <= chs.len() ==> count_after(chs) >= net(#[trigger] chs.subrange(k, chs.len() as int)),
        exists|k: int| 0 <= k <= chs.len() && count_after(chs) == net(#[trigger] chs.subrange(k, chs.len() as int)),
        count_after(chs) == 0 <==> forall|k: int| 0 <= k <= chs.len() ==> net(#[trigger] chs.subrange(k, chs.len() as int)) <= 0,
    decreases chs.len(),
{
    let n = chs.len() as int;
    assert(chs.subrange(n, n) =~= Seq::<Change>::empty());
    if n > 0 {
        let p = chs.drop_last();
        lemma_count_is_largest_trailing_net(p);
        let cp = count_after(p);
        let k0 = choose|k: int| 0 <= k <= p.len() && cp == net(#[trigger] p.subrange(k, p.len() as int));
        assert forall|k: int| 0 <= k < n implies net(#[trigger] chs.subrange(k, n)) == net(p.subrange(k, n - 1)) + match chs.last() {
            Change::Increment(_) => 1int,
            Change::Decrement(_) => -1int,
        } by {
            assert(chs.subrange(k, n).drop_last() =~= p.subrange(k, n - 1));
        }
        let c = count_after(chs);
        assert forall|k: int| 0 <= k <= n implies c >= net(#[trigger] chs.subrange(k, n)) by {
            if k < n {
                assert(cp >= net(p.subrange(k, n - 1)));
            }
        }
        match chs.last() {
            Change::Increment(_) => {
                assert(c == net(chs.subrange(k0, n)));
            },
            Change::Decrement(_) => {
                if cp > 0 {
                    assert(c == net(chs.subrange(k0, n)));
                } else {
                    assert(c == net(chs.subrange(n, n)));
                }
            },
        }
        if c != 0 {
            let k1 = choose|k: int| 0 <= k <= n && c == net(#[trigger] chs.subrange(k, n));
            assert(net(chs.subrange(k1, n)) > 0);
        }
    }
}

proof fn lemma_net_split(chs: Seq<Change>, k: int)
    requires
        0 <= k <= chs.len(),
    ensures
        net(chs) == net(chs.subrange(0, k)) + net(chs.subrange(k, chs.len() as int)),
    decreases chs.len(),
{
    let n = chs.len() as int;
    assert(chs.subrange(0, n) =~= chs);
    assert(chs.subrange(n, n) =~= Seq::<Change>::empty());
    if k < n {
        let p = chs.drop_last();
        lemma_net_split(p, k);
        assert(chs.subrange(k, n).drop_last() =~= p.subrange(k, n - 1));
        assert(chs.subrange(0, k) =~= p.subrange(0, k));
    }
}

/// When the calls are balanced, so that no leading run of them holds more
/// decrements than increments, the count is the plain net count:
/// increments minus decrements.
pub proof fn lemma_balanced_count_is_net(chs: Seq<Change>)
    requires
        chs.len() <= usize::MAX,
        forall|k: int| 0 <= k <= chs.len() ==> net(#[trigger] chs.subrange(0, k)) >= 0,
    ensures
        count_after(chs) == net(chs),
{
    let n = chs.len() as int;
    lemma_count_is_largest_trailing_net(chs);
    assert(chs.subrange(0, n) =~= chs);
    assert(count_after(chs) >= net(chs.subrange(0, n)));
    let k0 = choose|k: int| 0 <= k <= n && count_after(chs) == net(#[trigger] chs.subrange(k, n));
    lemma_net_split(chs, k0);
    assert(net(chs.subrange(0, k0)) >= 0);
}

/// A drain from an empty queue with one mutation queued carries out just
/// that mutation.
proof fn lemma_drain_single(m: RuntimeModel, t: Microtask)
    requires
        m.queue.len() == 0,
    ensures
        drain(enqueue(m, t)) == run_task(m, t),
{
    let q = enqueue(m, t);
    let base = RuntimeModel { queue: Seq::empty(), ..q };
    assert(base.queue =~= m.queue);
    assert(base == m);
    assert(q.queue.drop_last() =~= Seq::<Microtask>::empty());
    assert(run_tasks(base, q.queue.drop_last()) == base);
    assert(q.queue.last() == t);
}

/// Decrementing an id that is not in the set, then draining, leaves the set
/// as it was and takes the count down by one, never below zero.
pub proof fn lemma_decrement_absent(m: RuntimeModel, slot: usize, id: ResourceId)
    requires
        inv(m),
        m.queue.len() == 0,
        live(m, slot),
        !m.ids[slot as int].contains(id),
    ensures
        ({
            let r = drain(enqueue(m, Microtask { slot, change: Change::Decrement(id) }));
            &&& r.ids[slot as int] == m.ids[slot as int]
            &&& r.counts[slot as int] == if m.counts[slot as int] > 0 {
                m.counts[slot as int] - 1
            } else {
                0
            }
        }),
{
    lemma_drain_single(m, Microtask { slot, change: Change::Decrement(id) });
    assert(m.ids[slot as int].remove(id) =~= m.ids[slot as int]);
}

/// Incrementing an id that is already in the set, then draining, leaves the
/// set's members as they were and still adds one to the count.
pub proof fn lemma_increment_present(m: RuntimeModel, slot: usize, id: ResourceId)
    requires
        inv(m),
        m.queue.len() == 0,
        live(m, slot),
        m.ids[slot as int].contains(id),
        m.counts[slot as int] < usize::MAX,
    ensures
        ({
            let r = drain(enqueue(m, Microtask { slot, change: Change::Increment(id) }));
            &&& r.ids[slot as int] == m.ids[slot as int]
            &&& r.counts[slot as int] == m.counts[slot as int] + 1
        }),
{
    lemma_drain_single(m, Microtask { slot, change: Change::Increment(id) });
    assert(m.ids[slot as int].insert(id) =~= m.ids[slot as int]);
}

/// The changes that the queued mutations ask of one slot, in queue order.
pub open spec fn changes_for(ts: Seq<Microtask>, slot: usize) -> Seq<Change>
    decreases ts.len(),
{
    if ts.len() == 0 {
        Seq::empty()
    } else if ts.last().slot == slot {
        changes_for(ts.drop_last(), slot).push(ts.last().change)
    } else {
        changes_for(ts.drop_last(), slot)
    }
}

proof fn lemma_run_tasks_applied(m: RuntimeModel, ts: Seq<Microtask>, slot: usize)
    requires
        inv(m),
        slot < m.owners.len(),
    ensures
        run_tasks(m, ts).applied[slot as int] == m.applied[slot as int] + if live(m, slot) {
            changes_for(ts, slot)
        } else {
            Seq::empty()
        },
    decreases ts.len(),
{
    if ts.len() == 0 {
        assert(m.applied[slot as int] + Seq::<Change>::empty() =~= m.applied[slot as int]);
        assert(m.applied[slot as int] + changes_for(ts, slot) =~= m.applied[slot as int]);
    } else {
        let p = ts.drop_last();
        lemma_run_tasks_applied(m, p, slot);
        lemma_run_tasks_inv(m, p);
        let mp = run_tasks(m, p);
        assert(live(mp, slot) == live(m, slot));
        if ts.last().slot == slot && live(m, slot) {
            assert(m.applied[slot as int] + changes_for(p, slot).push(ts.last().change) =~= (
            m.applied[slot as int] + changes_for(p, slot)).push(ts.last().change));
        }
    }
}

/// A drain never shows half a call. Every call that reaches a live context
/// is applied to its count and to its id set in the same step: after the
/// drain, the count and the id set of each context are those that one and
/// the same list of calls gives, namely the calls applied before followed
/// by the calls that were queued for it, in queue order. Between drains
/// neither cell changes, as `increment` and `decrement` only queue, and the
/// observers that a drain lists for re-running are handed out only once it
/// has written everything.
pub proof fn lemma_batch_atomic(m: RuntimeModel)
    requires
        inv(m),
    ensures
        inv(drain(m)),
        drain(m).owners == m.owners,
        drain(m).disposed == m.disposed,
        drain(m).queue.len() == 0,
        forall|k: usize|
            k < m.owners.len() ==> #[trigger] drain(m).applied[k as int] == m.applied[k as int] + if live(m, k) {
                changes_for(m.queue, k)
            } else {
                Seq::empty()
            },
        forall|k: usize|
            k < m.owners.len() ==> #[trigger] drain(m).counts[k as int] == count_after(drain(m).applied[k as int])
                && drain(m).ids[k as int] == ids_after(drain(m).applied[k as int]),
{
    let base = RuntimeModel { queue: Seq::empty(), ..m };
    lemma_run_tasks_inv(base, m.queue);
    assert(inv(base));
    assert forall|k: usize| k < m.owners.len() implies #[trigger] drain(m).applied[k as int] == m.applied[k as int] + if live(m, k) {
        changes_for(m.queue, k)
    } else {
        Seq::empty()
    } by {
        lemma_run_tasks_applied(base, m.queue, k);
        assert(live(base, k) == live(m, k));
    }
    assert forall|k: usize| k < m.owners.len() implies #[trigger] drain(m).counts[k as int] == count_after(drain(m).applied[k as int])
        && drain(m).ids[k as int] == ids_after(drain(m).applied[k as int]) by {
        let kk = k as int;
        assert(drain(m).counts[kk] == count_after(drain(m).applied[kk]));
    }
}

/// The slots of existing contexts stay as they are: `owners` only grows,
/// whatever the runtime does.
pub open spec fn keeps_slots(m: RuntimeModel, m2: RuntimeModel) -> bool {
    m.owners.len() <= m2.owners.len() && m2.owners.subrange(0, m.owners.len() as int) == m.owners
}

/// No operation of the runtime moves or drops a slot.
pub proof fn lemma_operations_keep_slots(m: RuntimeModel, scope: usize, t: Microtask)
    requires
        inv(m),
    ensures
        keeps_slots(m, add_scope(m)),
        keeps_slots(m, close_scope(m, scope)),
        keeps_slots(m, add_slot(m, scope)),
        keeps_slots(m, enqueue(m, t)),
        keeps_slots(m, subscribe(m, t.slot, scope)),
        keeps_slots(m, drain(m)),
{
    assert(m.owners.subrange(0, m.owners.len() as int) =~= m.owners);
    assert(add_slot(m, scope).owners.subrange(0, m.owners.len() as int) =~= m.owners);
    lemma_batch_atomic(m);
}

/// Identity, not value: a context made by `new` after another one was made
/// (with any operations between) is never equal to it, while a context
/// compares equal to itself whatever its cells come to hold, since equality
/// looks only at which cells it owns.
pub proof fn lemma_contexts_distinct(
    m0: RuntimeModel,
    scope: usize,
    m2: RuntimeModel,
    first: SuspenseContext,
    second: SuspenseContext,
)
    requires
        first.slot() == m0.owners.len(),
        keeps_slots(add_slot(m0, scope), m2),
        second.slot() == m2.owners.len(),
    ensures
        first != second,
        first == first,
{
}

/// Once a context's scope is torn down its cells cannot be read, so
/// `ready` answers false, and this stays so through later drains.
pub proof fn lemma_disposed_never_ready(m: RuntimeModel, ctx: SuspenseContext)
    requires
        inv(m),
        ctx.slot() < m.owners.len(),
    ensures
        ({
            let d = close_scope(m, m.owners[ctx.slot() as int]);
            &&& !live(d, ctx.slot())
            &&& !live(drain(d), ctx.slot())
        }),
{
    let s = m.owners[ctx.slot() as int];
    assert(s < m.disposed.len());
    let d = close_scope(m, s);
    assert(inv(d));
    lemma_batch_atomic(d);
}

} // verus!
