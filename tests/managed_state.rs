use barrier_manager::barrier::{Barrier, BarrierKind, CreateMviewProgress, EpochPair, StreamError, SyncResult};
use barrier_manager::graph::{PartialGraphManagedBarrierState, SubscriptionUpstreamInfo, SyncRequest};
use barrier_manager::id_set::IdSet;

fn test_epoch(n: u64) -> u64 {
    n << 16
}

/// A checkpoint barrier closing `test_epoch(n)`, as the engine's tests build them.
fn test_barrier(n: u64) -> Barrier {
    Barrier::new(EpochPair::new(test_epoch(n), test_epoch(n) - test_epoch(1)), BarrierKind::Checkpoint)
}

fn ids(v: &[u32]) -> IdSet {
    IdSet::from_ids(&v.to_vec())
}

/// Plays a state store that syncs at once.
fn finish_syncs(state: &mut PartialGraphManagedBarrierState, requests: Vec<SyncRequest>) {
    for r in requests {
        assert!(state.complete_sync(r.prev_epoch, Ok(SyncResult { sync_size: 0 })));
    }
}

fn issue(state: &mut PartialGraphManagedBarrierState, barrier: &Barrier, actors: &[u32], tables: &[u32]) {
    assert!(state.can_issue(barrier, &ids(tables)));
    let syncs = state.transform_to_issued(barrier, ids(actors), ids(tables));
    finish_syncs(state, syncs);
}

fn collect(state: &mut PartialGraphManagedBarrierState, actor: u32, epoch: EpochPair) {
    assert!(state.can_collect(actor, epoch));
    let syncs = state.collect(actor, epoch);
    finish_syncs(state, syncs);
}

fn pop_next_completed_epoch(state: &mut PartialGraphManagedBarrierState) -> u64 {
    let barrier = state.poll_next_completed_barrier().expect("a completed barrier");
    let popped = state.pop_completed_epoch(barrier.epoch.prev).unwrap();
    assert!(matches!(popped, Some(Ok(_))));
    barrier.epoch.prev
}

#[test]
fn test_managed_state_add_actor() {
    let mut managed_barrier_state = PartialGraphManagedBarrierState::new();
    let barrier1 = test_barrier(1);
    let barrier2 = test_barrier(2);
    let barrier3 = test_barrier(3);
    issue(&mut managed_barrier_state, &barrier1, &[1, 2], &[]);
    issue(&mut managed_barrier_state, &barrier2, &[1, 2], &[]);
    issue(&mut managed_barrier_state, &barrier3, &[1, 2, 3], &[]);
    collect(&mut managed_barrier_state, 1, barrier1.epoch);
    collect(&mut managed_barrier_state, 2, barrier1.epoch);
    assert_eq!(pop_next_completed_epoch(&mut managed_barrier_state), test_epoch(0));
    assert_eq!(managed_barrier_state.first_prev_epoch().unwrap(), test_epoch(1));
    collect(&mut managed_barrier_state, 1, barrier2.epoch);
    collect(&mut managed_barrier_state, 1, barrier3.epoch);
    collect(&mut managed_barrier_state, 2, barrier2.epoch);
    assert_eq!(pop_next_completed_epoch(&mut managed_barrier_state), test_epoch(1));
    assert_eq!(managed_barrier_state.first_prev_epoch().unwrap(), test_epoch(2));
    collect(&mut managed_barrier_state, 2, barrier3.epoch);
    collect(&mut managed_barrier_state, 3, barrier3.epoch);
    assert_eq!(pop_next_completed_epoch(&mut managed_barrier_state), test_epoch(2));
    assert!(managed_barrier_state.is_empty());
}

#[test]
fn test_managed_state_stop_actor() {
    let mut managed_barrier_state = PartialGraphManagedBarrierState::new();
    let barrier1 = test_barrier(1);
    let barrier2 = test_barrier(2);
    let barrier3 = test_barrier(3);
    issue(&mut managed_barrier_state, &barrier1, &[1, 2, 3, 4], &[]);
    issue(&mut managed_barrier_state, &barrier2, &[1, 2, 3], &[]);
    issue(&mut managed_barrier_state, &barrier3, &[1, 2], &[]);

    collect(&mut managed_barrier_state, 1, barrier1.epoch);
    collect(&mut managed_barrier_state, 1, barrier2.epoch);
    collect(&mut managed_barrier_state, 1, barrier3.epoch);
    collect(&mut managed_barrier_state, 2, barrier1.epoch);
    collect(&mut managed_barrier_state, 2, barrier2.epoch);
    collect(&mut managed_barrier_state, 2, barrier3.epoch);
    assert_eq!(managed_barrier_state.first_prev_epoch().unwrap(), 0);
    collect(&mut managed_barrier_state, 3, barrier1.epoch);
    collect(&mut managed_barrier_state, 3, barrier2.epoch);
    assert_eq!(managed_barrier_state.first_prev_epoch().unwrap(), 0);
    collect(&mut managed_barrier_state, 4, barrier1.epoch);
    assert_eq!(pop_next_completed_epoch(&mut managed_barrier_state), test_epoch(0));
    assert_eq!(pop_next_completed_epoch(&mut managed_barrier_state), test_epoch(1));
    assert_eq!(pop_next_completed_epoch(&mut managed_barrier_state), test_epoch(2));
    assert!(managed_barrier_state.is_empty());
}

fn barrier(prev: u64, kind: BarrierKind) -> Barrier {
    Barrier::new(EpochPair::new(prev + 1, prev), kind)
}

#[test]
fn checkpoint_syncs_tables_of_previous_epochs() {
    let mut state = PartialGraphManagedBarrierState::new();
    let b0 = barrier(0, BarrierKind::Initial);
    let b1 = barrier(1, BarrierKind::Barrier);
    let b2 = barrier(2, BarrierKind::Checkpoint);
    assert!(state.transform_to_issued(&b0, ids(&[1]), ids(&[10])).is_empty());
    assert!(state.can_issue(&b1, &ids(&[10])));
    assert!(state.transform_to_issued(&b1, ids(&[1]), ids(&[10])).is_empty());
    assert!(state.can_issue(&b2, &ids(&[10, 20])));
    assert!(state.transform_to_issued(&b2, ids(&[1]), ids(&[10, 20])).is_empty());
    assert!(state.collect(1, b0.epoch).is_empty());
    assert!(state.collect(1, b1.epoch).is_empty());
    let syncs = state.collect(1, b2.epoch);
    assert_eq!(syncs.len(), 1);
    assert_eq!(syncs[0].prev_epoch, 2);
    assert_eq!(syncs[0].table_ids.to_vec(), vec![10]);
}

#[test]
fn checkpoint_after_gap_syncs_no_table() {
    let mut state = PartialGraphManagedBarrierState::new();
    let b0 = barrier(0, BarrierKind::Initial);
    let b5 = barrier(5, BarrierKind::Checkpoint);
    state.transform_to_issued(&b0, ids(&[]), ids(&[10]));
    assert!(state.can_issue(&b5, &ids(&[10])));
    let syncs = state.transform_to_issued(&b5, ids(&[]), ids(&[10]));
    assert_eq!(syncs.len(), 1);
    assert_eq!(syncs[0].prev_epoch, 5);
    assert!(syncs[0].table_ids.to_vec().is_empty());
}

#[test]
fn reissue_of_collected_epoch_is_rejected() {
    let mut state = PartialGraphManagedBarrierState::new();
    let b0 = barrier(0, BarrierKind::Initial);
    state.transform_to_issued(&b0, ids(&[1]), ids(&[]));
    state.collect(1, b0.epoch);
    assert!(!state.can_issue(&b0, &ids(&[])));
    assert!(!state.can_issue(&barrier(0, BarrierKind::Checkpoint), &ids(&[])));
    assert_eq!(state.first_prev_epoch(), Some(0));
}

#[test]
fn barrier_must_continue_previous_with_same_tables() {
    let mut state = PartialGraphManagedBarrierState::new();
    state.transform_to_issued(&barrier(0, BarrierKind::Initial), ids(&[]), ids(&[10]));
    assert!(!state.can_issue(&barrier(1, BarrierKind::Barrier), &ids(&[10, 20])));
    assert!(!state.can_issue(&barrier(2, BarrierKind::Barrier), &ids(&[10])));
    assert!(!state.can_issue(&barrier(1, BarrierKind::Initial), &ids(&[10])));
    assert!(state.can_issue(&barrier(1, BarrierKind::Barrier), &ids(&[10])));
}

#[test]
fn no_actor_to_collect_completes_at_once() {
    let mut state = PartialGraphManagedBarrierState::new();
    let b0 = barrier(0, BarrierKind::Initial);
    let syncs = state.transform_to_issued(&b0, ids(&[]), ids(&[]));
    assert!(syncs.is_empty());
    let done = state.poll_next_completed_barrier().expect("completed");
    assert_eq!(done.epoch.prev, 0);
    match state.pop_completed_epoch(0) {
        Ok(Some(Ok(result))) => {
            assert!(result.sync_result.is_none());
            assert!(result.create_mview_progress.is_empty());
        }
        _ => panic!("epoch 0 should have completed"),
    }
    assert!(state.is_empty());
}

#[test]
fn completions_wait_for_earlier_syncs() {
    let mut state = PartialGraphManagedBarrierState::new();
    let b0 = barrier(0, BarrierKind::Checkpoint);
    let b1 = barrier(1, BarrierKind::Checkpoint);
    let s0 = state.transform_to_issued(&b0, ids(&[]), ids(&[]));
    let s1 = state.transform_to_issued(&b1, ids(&[]), ids(&[]));
    assert_eq!(s0.len(), 1);
    assert_eq!(s1.len(), 1);
    assert!(state.complete_sync(1, Ok(SyncResult { sync_size: 7 })));
    assert!(state.poll_next_completed_barrier().is_none());
    assert!(state.poll_next_completed_barrier().is_none());
    assert_eq!(state.pop_completed_epoch(1).unwrap().is_none(), true);
    assert!(state.complete_sync(0, Ok(SyncResult { sync_size: 3 })));
    assert!(!state.complete_sync(0, Ok(SyncResult { sync_size: 3 })));
    assert_eq!(state.poll_next_completed_barrier().unwrap().epoch.prev, 0);
    assert_eq!(state.poll_next_completed_barrier().unwrap().epoch.prev, 1);
    assert!(state.poll_next_completed_barrier().is_none());
    match state.pop_completed_epoch(1) {
        Ok(Some(Ok(result))) => assert_eq!(result.sync_result, Some(SyncResult { sync_size: 7 })),
        _ => panic!("epoch 1 should have completed"),
    }
}

#[test]
fn failed_sync_is_the_completion_result() {
    let mut state = PartialGraphManagedBarrierState::new();
    state.transform_to_issued(&barrier(0, BarrierKind::Checkpoint), ids(&[]), ids(&[]));
    let err = StreamError::SyncFailed { prev_epoch: 0, message: "disk full".to_string() };
    assert!(state.complete_sync(0, Err(err)));
    assert_eq!(state.poll_next_completed_barrier().unwrap().epoch.prev, 0);
    match state.pop_completed_epoch(0) {
        Ok(Some(Err(StreamError::SyncFailed { prev_epoch, message }))) => {
            assert_eq!(prev_epoch, 0);
            assert_eq!(message, "disk full");
        }
        _ => panic!("the sync error should be the result"),
    }
}

#[test]
fn pop_of_unknown_epoch_fails() {
    let mut state = PartialGraphManagedBarrierState::new();
    assert_eq!(state.pop_completed_epoch(42).err(), Some(StreamError::EpochNotFound { prev_epoch: 42 }));
    state.transform_to_issued(&barrier(0, BarrierKind::Initial), ids(&[1]), ids(&[]));
    assert!(matches!(state.pop_completed_epoch(0), Ok(None)));
}

#[test]
fn subscriptions_are_counted_per_table() {
    let mut state = PartialGraphManagedBarrierState::new();
    let s = |subscriber_id, upstream_mv_table_id| SubscriptionUpstreamInfo { subscriber_id, upstream_mv_table_id };
    assert!(state.add_subscriptions(vec![s(1, 100), s(2, 100), s(3, 200)]));
    assert!(!state.add_subscriptions(vec![s(1, 100)]));
    assert!(!state.add_subscriptions(vec![s(4, 300), s(4, 300)]));
    let snapshot = state.subscriptions_snapshot();
    assert_eq!(snapshot, vec![(100, vec![1, 2]), (200, vec![3]), (300, vec![4])]);
    assert!(state.remove_subscriptions(vec![s(3, 200), s(1, 100)]));
    assert!(!state.remove_subscriptions(vec![s(9, 100)]));
    assert!(!state.remove_subscriptions(vec![s(1, 500)]));
    assert_eq!(state.subscriptions_snapshot(), vec![(100, vec![2]), (300, vec![4])]);
}

#[test]
fn id_set_keeps_sorted_distinct_ids() {
    let mut set = IdSet::from_ids(&vec![5, 1, 5, 3]);
    assert_eq!(set.to_vec(), vec![1, 3, 5]);
    assert_eq!(set.len(), 3);
    assert!(set.contains(3));
    assert!(!set.contains(4));
    assert!(set.insert(4));
    assert!(!set.insert(4));
    assert!(set.remove(1));
    assert!(!set.remove(1));
    assert_eq!(set.to_vec(), vec![3, 4, 5]);
    assert!(set.same_as(&IdSet::from_ids(&vec![5, 4, 3])));
    assert!(!set.same_as(&IdSet::from_ids(&vec![3, 4])));
    assert!(IdSet::new().is_empty());
}

#[test]
fn backfill_progress_travels_with_the_completion() {
    let mut state = PartialGraphManagedBarrierState::new();
    let b0 = barrier(0, BarrierKind::Initial);
    let p = |rows| CreateMviewProgress { backfill_actor_id: 1, done: false, consumed_epoch: 0, consumed_rows: rows };
    state.report_create_mview_progress(1, p(10));
    state.report_create_mview_progress(1, p(20));
    state.report_create_mview_progress(2, p(30));
    state.transform_to_issued(&b0, ids(&[]), ids(&[]));
    assert_eq!(state.poll_next_completed_barrier().unwrap().epoch.prev, 0);
    match state.pop_completed_epoch(0) {
        Ok(Some(Ok(result))) => assert_eq!(result.create_mview_progress, vec![p(20)]),
        _ => panic!("epoch 0 should have completed"),
    }
    state.transform_to_issued(&barrier(1, BarrierKind::Barrier), ids(&[]), ids(&[]));
    assert_eq!(state.poll_next_completed_barrier().unwrap().epoch.prev, 1);
    match state.pop_completed_epoch(1) {
        Ok(Some(Ok(result))) => assert_eq!(result.create_mview_progress, vec![p(30)]),
        _ => panic!("epoch 1 should have completed"),
    }
}
