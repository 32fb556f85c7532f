use std::collections::hash_map::DefaultHasher;
use std::hash::{Hash, Hasher};

use leptos_reactive::{ResourceId, Runtime, Scope, ScopeDisposed, SuspenseContext};

fn setup() -> (Runtime, Scope, SuspenseContext) {
    let mut rt = Runtime::new();
    let s = rt.create_scope();
    let cx = SuspenseContext::new(&mut rt, s).unwrap();
    (rt, s, cx)
}

fn count(rt: &Runtime, cx: &SuspenseContext) -> Option<usize> {
    cx.pending_count().try_get(rt)
}

fn ids(rt: &Runtime, cx: &SuspenseContext) -> Option<Vec<ResourceId>> {
    cx.pending_ids().try_get(rt)
}

fn hash_of(cx: &SuspenseContext) -> u64 {
    let mut h = DefaultHasher::new();
    cx.hash(&mut h);
    h.finish()
}

#[test]
fn new_context_is_empty_and_ready() {
    let (rt, _s, cx) = setup();
    assert_eq!(count(&rt, &cx), Some(0));
    assert_eq!(ids(&rt, &cx), Some(vec![]));
    assert!(cx.ready(&rt));
}

#[test]
fn readiness_follows_increment_and_decrement() {
    let (mut rt, _s, cx) = setup();
    assert!(cx.ready(&rt));
    cx.increment(&mut rt, ResourceId(7));
    rt.drain_now();
    assert!(!cx.ready(&rt));
    cx.decrement(&mut rt, ResourceId(7));
    rt.drain_now();
    assert!(cx.ready(&rt));
}

#[test]
fn changes_wait_for_the_drain() {
    let (mut rt, _s, cx) = setup();
    cx.increment(&mut rt, ResourceId(1));
    cx.increment(&mut rt, ResourceId(2));
    assert_eq!(count(&rt, &cx), Some(0));
    assert_eq!(ids(&rt, &cx), Some(vec![]));
    assert!(cx.ready(&rt));
    rt.drain_now();
    assert_eq!(count(&rt, &cx), Some(2));
    assert_eq!(ids(&rt, &cx), Some(vec![ResourceId(1), ResourceId(2)]));
}

#[test]
fn count_and_ids_move_together() {
    let (mut rt, _s, cx) = setup();
    cx.increment(&mut rt, ResourceId(3));
    rt.drain_now();
    cx.decrement(&mut rt, ResourceId(3));
    assert_eq!(count(&rt, &cx), Some(1));
    assert_eq!(ids(&rt, &cx), Some(vec![ResourceId(3)]));
    rt.drain_now();
    assert_eq!(count(&rt, &cx), Some(0));
    assert_eq!(ids(&rt, &cx), Some(vec![]));
}

#[test]
fn calls_in_one_turn_apply_in_order() {
    let (mut rt, _s, cx) = setup();
    let a = ResourceId(10);
    let b = ResourceId(20);
    cx.increment(&mut rt, a);
    cx.increment(&mut rt, b);
    cx.decrement(&mut rt, a);
    rt.drain_now();
    assert_eq!(count(&rt, &cx), Some(1));
    assert_eq!(ids(&rt, &cx), Some(vec![b]));
}

#[test]
fn duplicate_increment_counts_twice_but_lists_once() {
    let (mut rt, _s, cx) = setup();
    cx.increment(&mut rt, ResourceId(5));
    rt.drain_now();
    cx.increment(&mut rt, ResourceId(5));
    rt.drain_now();
    assert_eq!(count(&rt, &cx), Some(2));
    assert_eq!(ids(&rt, &cx), Some(vec![ResourceId(5)]));
    cx.decrement(&mut rt, ResourceId(5));
    rt.drain_now();
    assert_eq!(count(&rt, &cx), Some(1));
    assert_eq!(ids(&rt, &cx), Some(vec![]));
    assert!(!cx.ready(&rt));
}

#[test]
fn decrement_of_absent_id_keeps_the_set() {
    let (mut rt, _s, cx) = setup();
    cx.increment(&mut rt, ResourceId(1));
    cx.increment(&mut rt, ResourceId(4));
    rt.drain_now();
    cx.decrement(&mut rt, ResourceId(9));
    rt.drain_now();
    assert_eq!(count(&rt, &cx), Some(1));
    assert_eq!(ids(&rt, &cx), Some(vec![ResourceId(1), ResourceId(4)]));
}

#[test]
fn decrement_at_zero_is_a_silent_no_op() {
    let (mut rt, _s, cx) = setup();
    cx.decrement(&mut rt, ResourceId(2));
    cx.decrement(&mut rt, ResourceId(2));
    rt.drain_now();
    assert_eq!(count(&rt, &cx), Some(0));
    assert_eq!(ids(&rt, &cx), Some(vec![]));
    assert!(cx.ready(&rt));
}

#[test]
fn count_is_clamped_not_net() {
    // decrement, decrement, increment: net is -1, but the count never went
    // below zero, so one unit is pending.
    let (mut rt, _s, cx) = setup();
    cx.decrement(&mut rt, ResourceId(1));
    cx.decrement(&mut rt, ResourceId(2));
    cx.increment(&mut rt, ResourceId(3));
    rt.drain_now();
    assert_eq!(count(&rt, &cx), Some(1));
    assert_eq!(ids(&rt, &cx), Some(vec![ResourceId(3)]));
    assert!(!cx.ready(&rt));
}

#[test]
fn balanced_calls_leave_the_net_count() {
    let (mut rt, _s, cx) = setup();
    for i in 0..5u64 {
        cx.increment(&mut rt, ResourceId(i));
    }
    for i in 0..3u64 {
        cx.decrement(&mut rt, ResourceId(i));
    }
    rt.drain_now();
    assert_eq!(count(&rt, &cx), Some(2));
    assert_eq!(ids(&rt, &cx), Some(vec![ResourceId(3), ResourceId(4)]));
}

#[test]
fn ids_come_out_ascending() {
    let (mut rt, _s, cx) = setup();
    for i in [30u64, 10, 50, 20, 40, 10] {
        cx.increment(&mut rt, ResourceId(i));
    }
    rt.drain_now();
    assert_eq!(count(&rt, &cx), Some(6));
    assert_eq!(
        ids(&rt, &cx),
        Some(vec![
            ResourceId(10),
            ResourceId(20),
            ResourceId(30),
            ResourceId(40),
            ResourceId(50)
        ])
    );
}

#[test]
fn contexts_compare_by_identity() {
    let mut rt = Runtime::new();
    let s = rt.create_scope();
    let a = SuspenseContext::new(&mut rt, s).unwrap();
    let b = SuspenseContext::new(&mut rt, s).unwrap();
    assert_ne!(a, b);
    assert_eq!(a, a);
    let a_before = a;
    a.increment(&mut rt, ResourceId(1));
    rt.drain_now();
    assert_eq!(a, a_before);
    assert_eq!(hash_of(&a), hash_of(&a_before));
}

#[test]
fn contexts_are_independent() {
    let mut rt = Runtime::new();
    let s = rt.create_scope();
    let a = SuspenseContext::new(&mut rt, s).unwrap();
    let b = SuspenseContext::new(&mut rt, s).unwrap();
    a.increment(&mut rt, ResourceId(1));
    b.increment(&mut rt, ResourceId(2));
    b.increment(&mut rt, ResourceId(3));
    rt.drain_now();
    assert_eq!(count(&rt, &a), Some(1));
    assert_eq!(count(&rt, &b), Some(2));
    assert_eq!(ids(&rt, &a), Some(vec![ResourceId(1)]));
    assert_eq!(ids(&rt, &b), Some(vec![ResourceId(2), ResourceId(3)]));
}

#[test]
fn disposed_scope_is_never_ready() {
    let (mut rt, s, cx) = setup();
    assert!(cx.ready(&rt));
    rt.dispose_scope(s);
    assert!(!cx.ready(&rt));
    assert_eq!(count(&rt, &cx), None);
    assert_eq!(ids(&rt, &cx), None);
    cx.increment(&mut rt, ResourceId(1));
    cx.decrement(&mut rt, ResourceId(1));
    rt.drain_now();
    assert!(!cx.ready(&rt));
}

#[test]
fn disposal_leaves_other_scopes_alone() {
    let mut rt = Runtime::new();
    let s1 = rt.create_scope();
    let s2 = rt.create_scope();
    let a = SuspenseContext::new(&mut rt, s1).unwrap();
    let b = SuspenseContext::new(&mut rt, s2).unwrap();
    a.increment(&mut rt, ResourceId(1));
    b.increment(&mut rt, ResourceId(2));
    rt.dispose_scope(s1);
    rt.drain_now();
    assert_eq!(count(&rt, &a), None);
    assert_eq!(count(&rt, &b), Some(1));
    assert_eq!(ids(&rt, &b), Some(vec![ResourceId(2)]));
}

#[test]
fn new_under_disposed_scope_fails() {
    let mut rt = Runtime::new();
    let s = rt.create_scope();
    rt.dispose_scope(s);
    assert_eq!(SuspenseContext::new(&mut rt, s), Err(ScopeDisposed));
}

#[test]
fn new_under_unknown_scope_fails() {
    let mut other = Runtime::new();
    let _ = other.create_scope();
    let foreign = other.create_scope();
    let mut rt = Runtime::new();
    assert_eq!(SuspenseContext::new(&mut rt, foreign), Err(ScopeDisposed));
}

#[test]
fn context_of_another_runtime_reads_as_not_ready() {
    let (_rt, _s, cx) = setup();
    let empty = Runtime::new();
    assert!(!cx.ready(&empty));
    assert_eq!(count(&empty, &cx), None);
}

#[test]
fn tracked_ready_reruns_after_the_drain() {
    let (mut rt, _s, cx) = setup();
    assert!(cx.ready_tracked(&mut rt, 1));
    cx.increment(&mut rt, ResourceId(4));
    assert_eq!(rt.drain_now(), vec![1]);
    assert!(!cx.ready(&rt));
    assert_eq!(rt.drain_now(), Vec::<usize>::new());
}

#[test]
fn untracked_ready_subscribes_nothing() {
    let (mut rt, _s, cx) = setup();
    assert!(cx.ready(&rt));
    cx.increment(&mut rt, ResourceId(4));
    assert_eq!(rt.drain_now(), Vec::<usize>::new());
}

#[test]
fn reader_of_both_cells_reruns_once_per_drain() {
    let (mut rt, _s, cx) = setup();
    assert_eq!(cx.pending_count().track(&mut rt, 7), Some(0));
    assert_eq!(cx.pending_ids().track(&mut rt, 7), Some(vec![]));
    assert_eq!(cx.pending_count().track(&mut rt, 8), Some(0));
    cx.increment(&mut rt, ResourceId(1));
    cx.increment(&mut rt, ResourceId(2));
    cx.decrement(&mut rt, ResourceId(1));
    let mut rerun = rt.drain_now();
    rerun.sort();
    assert_eq!(rerun, vec![7, 8]);
    // what a re-run observer reads: every call reflected in both cells
    assert_eq!(count(&rt, &cx), Some(1));
    assert_eq!(ids(&rt, &cx), Some(vec![ResourceId(2)]));
}

#[test]
fn observers_of_other_contexts_are_not_rerun() {
    let mut rt = Runtime::new();
    let s = rt.create_scope();
    let a = SuspenseContext::new(&mut rt, s).unwrap();
    let b = SuspenseContext::new(&mut rt, s).unwrap();
    assert!(a.ready_tracked(&mut rt, 1));
    assert!(b.ready_tracked(&mut rt, 2));
    b.increment(&mut rt, ResourceId(9));
    assert_eq!(rt.drain_now(), vec![2]);
}

#[test]
fn disposed_context_is_not_tracked() {
    let (mut rt, s, cx) = setup();
    rt.dispose_scope(s);
    assert!(!cx.ready_tracked(&mut rt, 3));
    cx.increment(&mut rt, ResourceId(1));
    assert_eq!(rt.drain_now(), Vec::<usize>::new());
}
