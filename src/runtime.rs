use vstd::prelude::*;

use crate::model::{
    add_scope, add_slot, close_scope, drain, enqueue, inv, lemma_run_task_inv, live, notified,
    run_task, run_tasks, scope_open, subscribe, Change, Microtask, RuntimeModel,
};
use crate::resource::{insert_id, members, remove_id, strictly_ascending, ResourceId};

verus! {

/// An ownership scope. Cells allocated under it can be read only while it
/// is open.
#[derive(Clone, Copy, Debug, PartialEq, Eq, Structural, Hash)]
pub struct Scope {
    pub id: usize,
}

/// Cells cannot be allocated under a scope that has been torn down (or that
/// this runtime never created).
#[derive(Clone, Copy, Debug, PartialEq, Eq, Structural)]
pub struct ScopeDisposed;

/// The reactive runtime that suspense contexts live in: scopes, the count
/// and id-set cells allocated under them, and the queue of deferred
/// mutations. Nothing is written to a cell until the queue is drained.
pub struct Runtime {
    disposed: Vec<bool>,
    owners: Vec<usize>,
    counts: Vec<usize>,
    id_sets: Vec<Vec<ResourceId>>,
    queue: Vec<Microtask>,
    applied: Ghost<Seq<Seq<Change>>>,
    subscribers: Vec<Vec<usize>>,
}

/// The set of observers that a list holds.
pub open spec fn observer_set(s: Seq<usize>) -> Set<usize> {
    Set::new(|o: usize| s.contains(o))
}

/// What a list holds after a push.
proof fn lemma_push_contains(s: Seq<usize>, o: usize)
    ensures
        forall|x: usize| #[trigger] s.push(o).contains(x) <==> (s.contains(x) || x == o),
{
    assert forall|x: usize| #[trigger] s.push(o).contains(x) <==> (s.contains(x) || x == o) by {
        if s.push(o).contains(x) {
            let k = choose|k: int| 0 <= k < s.push(o).len() && s.push(o)[k] == x;
            if k < s.len() {
                assert(s[k] == x);
            }
        }
        if s.contains(x) {
            let k = choose|k: int| 0 <= k < s.len() && s[k] == x;
            assert(s.push(o)[k] == x);
        }
        if x == o {
            assert(s.push(o)[s.len() as int] == x);
        }
    }
}

/// Whether `x` is in the list.
fn listed(v: &Vec<usize>, x: usize) -> (b: bool)
    ensures
        b == v@.contains(x),
{
    let mut i: usize = 0;
    while i < v.len()
        invariant
            i <= v@.len(),
            forall|j: int| 0 <= j < i ==> v@[j] != x,
        decreases v@.len() - i,
    {
        if v[i] == x {
            return true;
        }
        i = i + 1;
    }
    false
}

/// Adds to `out` each observer of `from` that it does not hold yet.
fn add_observers(out: &mut Vec<usize>, from: &Vec<usize>)
    requires
        old(out)@.no_duplicates(),
    ensures
        final(out)@.no_duplicates(),
        forall|o: usize| final(out)@.contains(o) <==> (old(out)@.contains(o) || from@.contains(o)),
{
    let mut i: usize = 0;
    while i < from.len()
        invariant
            i <= from@.len(),
            out@.no_duplicates(),
            forall|o: usize| out@.contains(o) <==> (old(out)@.contains(o) || from@.subrange(0, i as int).contains(o)),
        decreases from@.len() - i,
    {
        let o = from[i];
        let ghost before = out@;
        if !listed(out, o) {
            out.push(o);
            proof {
                lemma_push_contains(before, o);
            }
        }
        proof {
            assert forall|x: usize| from@.subrange(0, i + 1).contains(x) <==> (from@.subrange(0, i as int).contains(x) || x == o) by {
                if from@.subrange(0, i + 1).contains(x) {
                    let k = choose|k: int| 0 <= k < i + 1 && #[trigger] from@.subrange(0, i + 1)[k] == x;
                    if k < i {
                        assert(from@.subrange(0, i as int)[k] == x);
                    }
                }
                if from@.subrange(0, i as int).contains(x) {
                    let k = choose|k: int| 0 <= k < i && #[trigger] from@.subrange(0, i as int)[k] == x;
                    assert(from@.subrange(0, i + 1)[k] == x);
                }
                if x == o {
                    assert(from@.subrange(0, i + 1)[i as int] == x);
                }
            }
            assert forall|x: usize| out@.contains(x) <==> (old(out)@.contains(x) || from@.subrange(0, i + 1).contains(x)) by {
                assert(out@.contains(x) <==> (before.contains(x) || x == o));
            }
        }
        i = i + 1;
    }
    proof {
        assert(from@.subrange(0, i as int) =~= from@);
    }
}

impl View for Runtime {
    type V = RuntimeModel;

    closed spec fn view(&self) -> RuntimeModel {
        RuntimeModel {
            disposed: self.disposed@,
            owners: self.owners@,
            counts: self.counts@,
            ids: self.id_sets@.map_values(|v: Vec<ResourceId>| members(v@)),
            queue: self.queue@,
            applied: self.applied@,
            subscribers: self.subscribers@.map_values(|v: Vec<usize>| observer_set(v@)),
        }
    }
}

impl Runtime {
    /// Every id set is stored in ascending order.
    pub closed spec fn sets_sorted(&self) -> bool {
        forall|k: int| 0 <= k < self.id_sets@.len() ==> strictly_ascending(#[trigger] self.id_sets@[k]@)
    }

    pub open spec fn wf(&self) -> bool {
        inv(self@) && self.sets_sorted()
    }

    /// A runtime with no scopes, no cells and nothing queued.
    pub fn new() -> (rt: Runtime)
        ensures
            rt.wf(),
            rt@.disposed.len() == 0,
            rt@.owners.len() == 0,
            rt@.queue.len() == 0,
    {
        Runtime {
            disposed: Vec::new(),
            owners: Vec::new(),
            counts: Vec::new(),
            id_sets: Vec::new(),
            queue: Vec::new(),
            applied: Ghost(Seq::empty()),
            subscribers: Vec::new(),
        }
    }

    /// Opens a new scope.
    pub fn create_scope(&mut self) -> (s: Scope)
        requires
            old(self).wf(),
        ensures
            final(self).wf(),
            s.id == old(self)@.disposed.len(),
            final(self)@ == add_scope(old(self)@),
    {
        let s = Scope { id: self.disposed.len() };
        self.disposed.push(false);
        proof {
            assert(self@.ids =~= old(self)@.ids);
            assert(self@.subscribers =~= old(self)@.subscribers);
            assert(self@ =~= add_scope(old(self)@));
        }
        s
    }

    /// Tears a scope down: the cells allocated under it become unreadable
    /// and ignore later writes. An unknown scope changes nothing.
    pub fn dispose_scope(&mut self, s: Scope)
        requires
            old(self).wf(),
        ensures
            final(self).wf(),
            final(self)@ == close_scope(old(self)@, s.id),
    {
        if s.id < self.disposed.len() {
            self.disposed.set(s.id, true);
            proof {
                assert(self@.ids =~= old(self)@.ids);
                assert(self@.subscribers =~= old(self)@.subscribers);
            assert(self@.subscribers =~= old(self)@.subscribers);
                assert(self@ =~= close_scope(old(self)@, s.id));
            }
        }
    }

    /// Allocates a count cell (zero) and an id-set cell (empty) under the
    /// scope, and returns their slot; fails when the scope is not open.
    pub(crate) fn create_cells(&mut self, scope: Scope) -> (r: Result<usize, ScopeDisposed>)
        requires
            old(self).wf(),
        ensures
            final(self).wf(),
            scope_open(old(self)@, scope.id) ==> r is Ok && r->Ok_0 == old(self)@.owners.len()
                && final(self)@ == add_slot(old(self)@, scope.id),
            !scope_open(old(self)@, scope.id) ==> r == Err::<usize, ScopeDisposed>(ScopeDisposed)
                && final(self)@ == old(self)@,
    {
        if scope.id < self.disposed.len() && !self.disposed[scope.id] {
            let slot = self.owners.len();
            self.owners.push(scope.id);
            self.counts.push(0);
            self.id_sets.push(Vec::new());
            self.subscribers.push(Vec::new());
            proof {
                assert(observer_set(Seq::<usize>::empty()) =~= Set::empty());
                assert(self@.subscribers =~= old(self)@.subscribers.push(Set::empty()));
                self.applied@ = self.applied@.push(Seq::empty());
                assert(members(Seq::<ResourceId>::empty()) =~= Set::empty());
                assert(self@.ids =~= old(self)@.ids.push(Set::empty()));
                assert(self@ =~= add_slot(old(self)@, scope.id));
            }
            Ok(slot)
        } else {
            Err(ScopeDisposed)
        }
    }

    /// Queues a mutation for the next drain; no cell changes now.
    pub(crate) fn enqueue(&mut self, t: Microtask)
        requires
            old(self).wf(),
        ensures
            final(self).wf(),
            final(self)@ == enqueue(old(self)@, t),
    {
        self.queue.push(t);
        proof {
            assert(self@.ids =~= old(self)@.ids);
            assert(self@.subscribers =~= old(self)@.subscribers);
            assert(self@ =~= enqueue(old(self)@, t));
            assert(self.id_sets@ == old(self).id_sets@);
        }
    }

    /// Carries out one deferred mutation.
    fn run(&mut self, t: Microtask)
        requires
            old(self).wf(),
        ensures
            final(self).wf(),
            final(self)@ == run_task(old(self)@, t),
    {
        let k = t.slot;
        if k < self.owners.len() && self.owners[k] < self.disposed.len()
            && !self.disposed[self.owners[k]] {
            let c = self.counts[k];
            proof {
                assert(strictly_ascending(self.id_sets@[k as int]@));
            }
            match t.change {
                Change::Increment(id) => {
                    let n: usize = if c < usize::MAX { c + 1 } else { c };
                    self.counts.set(k, n);
                    insert_id(&mut self.id_sets[k], id);
                },
                Change::Decrement(id) => {
                    let n: usize = if c > 0 { c - 1 } else { 0 };
                    self.counts.set(k, n);
                    remove_id(&mut self.id_sets[k], id);
                },
            }
            proof {
                self.applied@ = self.applied@.update(k as int, self.applied@[k as int].push(t.change));
                lemma_run_task_inv(old(self)@, t);
                assert(self@.ids =~= run_task(old(self)@, t).ids);
                assert(self@.subscribers =~= old(self)@.subscribers);
                assert(self@ =~= run_task(old(self)@, t));
            }
        }
    }

    /// Drains the queue: every queued mutation is carried out, in the order
    /// in which it was queued. Then, with all of them written, returns the
    /// observers to re-run, each once: those subscribed to a cell that the
    /// drain wrote.
    pub fn drain_now(&mut self) -> (rerun: Vec<usize>)
        requires
            old(self).wf(),
        ensures
            final(self).wf(),
            final(self)@ == drain(old(self)@),
            rerun@.no_duplicates(),
            observer_set(rerun@) == notified(old(self)@),
    {
        let mut tasks: Vec<Microtask> = Vec::new();
        std::mem::swap(&mut tasks, &mut self.queue);
        let ghost start = self@;
        proof {
            assert(self@.ids =~= old(self)@.ids);
            assert(self@.subscribers =~= old(self)@.subscribers);
            assert(start =~= RuntimeModel { queue: Seq::empty(), ..old(self)@ });
            assert(tasks@.subrange(0, 0) =~= Seq::<Microtask>::empty());
        }
        let mut rerun: Vec<usize> = Vec::new();
        let mut i: usize = 0;
        while i < tasks.len()
            invariant
                self.wf(),
                i <= tasks@.len(),
                tasks@ == old(self)@.queue,
                start == (RuntimeModel { queue: Seq::empty(), ..old(self)@ }),
                self@ == run_tasks(start, tasks@.subrange(0, i as int)),
                self@.owners == old(self)@.owners,
                self@.disposed == old(self)@.disposed,
                self@.subscribers == old(self)@.subscribers,
                rerun@.no_duplicates(),
                forall|o: usize|
                    rerun@.contains(o) <==> exists|j: int|
                        0 <= j < i && live(old(self)@, #[trigger] tasks@[j].slot)
                            && old(self)@.subscribers[tasks@[j].slot as int].contains(o),
            decreases tasks@.len() - i,
        {
            let t = tasks[i];
            let ghost before = rerun@;
            if self.is_live(t.slot) {
                add_observers(&mut rerun, &self.subscribers[t.slot]);
            }
            proof {
                assert forall|o: usize|
                    rerun@.contains(o) <==> exists|j: int|
                        0 <= j < i + 1 && live(old(self)@, #[trigger] tasks@[j].slot)
                            && old(self)@.subscribers[tasks@[j].slot as int].contains(o) by {
                    if live(old(self)@, t.slot) && old(self)@.subscribers[t.slot as int].contains(o) {
                        assert(tasks@[i as int] == t);
                    }
                    if exists|j: int|
                        0 <= j < i + 1 && live(old(self)@, #[trigger] tasks@[j].slot)
                            && old(self)@.subscribers[tasks@[j].slot as int].contains(o) {
                        let j = choose|j: int|
                            0 <= j < i + 1 && live(old(self)@, #[trigger] tasks@[j].slot)
                                && old(self)@.subscribers[tasks@[j].slot as int].contains(o);
                        if j < i {
                            assert(before.contains(o));
                        }
                    }
                }
            }
            self.run(t);
            proof {
                lemma_run_task_inv(run_tasks(start, tasks@.subrange(0, i as int)), t);
                assert(tasks@.subrange(0, i + 1).drop_last() =~= tasks@.subrange(0, i as int));
            }
            i = i + 1;
        }
        proof {
            assert(tasks@.subrange(0, i as int) =~= tasks@);
            assert(observer_set(rerun@) =~= notified(old(self)@));
        }
        rerun
    }

    /// Subscribes the observer to the cells of a live slot.
    pub(crate) fn track(&mut self, slot: usize, observer: usize)
        requires
            old(self).wf(),
        ensures
            final(self).wf(),
            final(self)@ == subscribe(old(self)@, slot, observer),
    {
        if self.is_live(slot) {
            let ghost prior = self.subscribers@[slot as int]@;
            if !listed(&self.subscribers[slot], observer) {
                self.subscribers[slot].push(observer);
                proof {
                    lemma_push_contains(prior, observer);
                }
            }
            proof {
                let k = slot as int;
                assert(observer_set(self.subscribers@[k]@) =~= old(self)@.subscribers[k].insert(observer));
                assert(self@.subscribers =~= subscribe(old(self)@, slot, observer).subscribers);
                assert(self@.ids =~= old(self)@.ids);
                assert(self@ =~= subscribe(old(self)@, slot, observer));
            }
        }
    }
}

/// A read handle on a count cell.
#[derive(Clone, Copy, Debug, PartialEq, Eq, Structural, Hash)]
pub struct CountReader {
    pub(crate) slot: usize,
}

/// A read handle on an id-set cell.
#[derive(Clone, Copy, Debug, PartialEq, Eq, Structural, Hash)]
pub struct IdsReader {
    pub(crate) slot: usize,
}

impl CountReader {
    pub open(crate) spec fn slot(&self) -> usize {
        self.slot
    }

    /// The current count, or `None` when the cell cannot be read (its scope
    /// is torn down, or it belongs to another runtime).
    pub fn try_get(&self, rt: &Runtime) -> (r: Option<usize>)
        requires
            rt.wf(),
        ensures
            live(rt@, self.slot()) ==> r == Some(rt@.counts[self.slot() as int]),
            !live(rt@, self.slot()) ==> r is None,
    {
        rt.read_count(self.slot)
    }

    /// Reads as `try_get` does and, when the cell can be read, subscribes
    /// the observer to it: the next drain that writes the cell lists the
    /// observer among those to re-run.
    pub fn track(&self, rt: &mut Runtime, observer: usize) -> (r: Option<usize>)
        requires
            old(rt).wf(),
        ensures
            final(rt).wf(),
            final(rt)@ == subscribe(old(rt)@, self.slot(), observer),
            live(old(rt)@, self.slot()) ==> r == Some(old(rt)@.counts[self.slot() as int]),
            !live(old(rt)@, self.slot()) ==> r is None,
    {
        let r = rt.read_count(self.slot);
        rt.track(self.slot, observer);
        r
    }
}

impl IdsReader {
    pub open(crate) spec fn slot(&self) -> usize {
        self.slot
    }

    /// The current ids in ascending order, or `None` when the cell cannot be
    /// read.
    pub fn try_get(&self, rt: &Runtime) -> (r: Option<Vec<ResourceId>>)
        requires
            rt.wf(),
        ensures
            live(rt@, self.slot()) <==> r is Some,
            r matches Some(v) ==> strictly_ascending(v@) && members(v@) == rt@.ids[self.slot() as int],
    {
        rt.read_ids(self.slot)
    }

    /// Reads as `try_get` does and, when the cell can be read, subscribes
    /// the observer to it.
    pub fn track(&self, rt: &mut Runtime, observer: usize) -> (r: Option<Vec<ResourceId>>)
        requires
            old(rt).wf(),
        ensures
            final(rt).wf(),
            final(rt)@ == subscribe(old(rt)@, self.slot(), observer),
            live(old(rt)@, self.slot()) <==> r is Some,
            r matches Some(v) ==> strictly_ascending(v@) && members(v@) == old(rt)@.ids[self.slot() as int],
    {
        let r = rt.read_ids(self.slot);
        rt.track(self.slot, observer);
        r
    }
}

impl Runtime {
    fn is_live(&self, slot: usize) -> (b: bool)
        requires
            self.wf(),
        ensures
            b == live(self@, slot),
    {
        slot < self.owners.len() && self.owners[slot] < self.disposed.len()
            && !self.disposed[self.owners[slot]]
    }

    fn read_count(&self, slot: usize) -> (r: Option<usize>)
        requires
            self.wf(),
        ensures
            live(self@, slot) ==> r == Some(self@.counts[slot as int]),
            !live(self@, slot) ==> r is None,
    {
        if self.is_live(slot) {
            Some(self.counts[slot])
        } else {
            None
        }
    }

    fn read_ids(&self, slot: usize) -> (r: Option<Vec<ResourceId>>)
        requires
            self.wf(),
        ensures
            live(self@, slot) <==> r is Some,
            r matches Some(v) ==> strictly_ascending(v@) && members(v@) == self@.ids[slot as int],
    {
        if self.is_live(slot) {
            let v = self.id_sets[slot].clone();
            proof {
                assert(strictly_ascending(self.id_sets@[slot as int]@));
                assert(v@ =~= self.id_sets@[slot as int]@);
            }
            Some(v)
        } else {
            None
        }
    }
}

} // verus!
