use barrier_manager::barrier::{Barrier, BarrierKind, CreateMviewProgress, EpochPair, Mutation, StreamError};
use barrier_manager::graph::SubscriptionUpstreamInfo;
use barrier_manager::id_set::IdSet;
use barrier_manager::manager::{InitialPartialGraph, ManagedBarrierState, SpawnedActor};
use tokio::runtime::Runtime;
use tokio::sync::mpsc::unbounded_channel;

fn runtime() -> Runtime {
    tokio::runtime::Builder::new_current_thread().build().unwrap()
}

fn ids(v: &[u32]) -> IdSet {
    IdSet::from_ids(&v.to_vec())
}

fn barrier(prev: u64, kind: BarrierKind, stop: &[u32]) -> Barrier {
    let mut b = Barrier::new(EpochPair::new(prev + 1, prev), kind);
    if !stop.is_empty() {
        b.stop_actors = Some(ids(stop));
    }
    b
}

fn spawn(rt: &Runtime, actors: &[u32]) -> Vec<SpawnedActor> {
    actors
        .iter()
        .map(|&actor_id| SpawnedActor {
            actor_id,
            join_handle: rt.spawn(std::future::pending::<()>()),
            monitor_task_handle: None,
        })
        .collect()
}

fn manager(graph: u32) -> ManagedBarrierState {
    ManagedBarrierState::new(vec![InitialPartialGraph { partial_graph_id: graph, subscriptions: vec![] }])
}

fn inject(state: &mut ManagedBarrierState, b: &Barrier, graph: u32, actors: &[u32], spawned: Vec<SpawnedActor>) {
    let spawned_ids: Vec<u32> = spawned.iter().map(|a| a.actor_id).collect();
    assert!(state.can_inject(b, graph, &ids(actors), &ids(&[]), &spawned_ids));
    let syncs = state.transform_to_issued(b, graph, ids(actors), ids(&[]), spawned).unwrap();
    assert!(syncs.is_empty());
}

fn collect(state: &mut ManagedBarrierState, actor: u32, epoch: EpochPair) {
    assert!(state.can_collect(actor, epoch));
    let (graph, syncs) = state.collect(actor, epoch);
    assert_eq!(graph, 1);
    assert!(syncs.is_empty());
}

fn next_prev(state: &mut ManagedBarrierState) -> Option<u64> {
    state.next_completed_epoch().map(|c| {
        assert_eq!(c.partial_graph_id, 1);
        assert!(matches!(state.pop_completed_epoch(1, c.prev_epoch), Ok(Some(Ok(_)))));
        c.prev_epoch
    })
}

#[test]
fn steady_state_completes_in_epoch_order() {
    let rt = runtime();
    let mut state = manager(1);
    let b0 = barrier(0, BarrierKind::Initial, &[]);
    let b1 = barrier(1, BarrierKind::Barrier, &[]);
    let b2 = barrier(2, BarrierKind::Barrier, &[]);
    inject(&mut state, &b0, 1, &[1, 2], spawn(&rt, &[1, 2]));
    inject(&mut state, &b1, 1, &[1, 2], vec![]);
    inject(&mut state, &b2, 1, &[1, 2], vec![]);
    for b in [&b0, &b1, &b2] {
        collect(&mut state, 1, b.epoch);
        collect(&mut state, 2, b.epoch);
    }
    assert_eq!(next_prev(&mut state), Some(0));
    assert_eq!(next_prev(&mut state), Some(1));
    assert_eq!(next_prev(&mut state), Some(2));
    assert_eq!(next_prev(&mut state), None);
    assert!(state.graph_state(1).unwrap().is_empty());
    assert!(state.has_actor(1) && state.has_actor(2));
}

#[test]
fn stopped_actors_leave_after_their_last_barrier() {
    let rt = runtime();
    let mut state = manager(1);
    let start = barrier(0, BarrierKind::Initial, &[]);
    inject(&mut state, &start, 1, &[1, 2, 3, 4], spawn(&rt, &[1, 2, 3, 4]));
    for a in [1, 2, 3, 4] {
        collect(&mut state, a, start.epoch);
    }
    let b1 = barrier(1, BarrierKind::Barrier, &[4]);
    let b2 = barrier(2, BarrierKind::Barrier, &[3]);
    let b3 = barrier(3, BarrierKind::Barrier, &[]);
    inject(&mut state, &b1, 1, &[1, 2, 3, 4], vec![]);
    inject(&mut state, &b2, 1, &[1, 2, 3], vec![]);
    inject(&mut state, &b3, 1, &[1, 2], vec![]);
    for a in [1, 2] {
        collect(&mut state, a, b1.epoch);
        collect(&mut state, a, b2.epoch);
        collect(&mut state, a, b3.epoch);
    }
    collect(&mut state, 3, b1.epoch);
    assert!(state.has_actor(3));
    collect(&mut state, 3, b2.epoch);
    assert!(!state.has_actor(3));
    assert!(state.has_actor(4));
    collect(&mut state, 4, b1.epoch);
    assert!(!state.has_actor(4));
    assert!(state.has_actor(1) && state.has_actor(2));
    assert_eq!(next_prev(&mut state), Some(0));
    let c = state.next_completed_epoch().unwrap();
    assert_eq!(c.prev_epoch, 1);
    assert_eq!(c.stop_actors.unwrap().to_vec(), vec![4]);
    assert!(matches!(state.pop_completed_epoch(1, 1), Ok(Some(Ok(_)))));
    assert_eq!(next_prev(&mut state), Some(2));
    assert_eq!(next_prev(&mut state), Some(3));
}

#[test]
fn slow_actor_holds_back_completions() {
    let rt = runtime();
    let mut state = manager(1);
    let b0 = barrier(0, BarrierKind::Initial, &[]);
    let b1 = barrier(1, BarrierKind::Barrier, &[]);
    let b2 = barrier(2, BarrierKind::Barrier, &[]);
    inject(&mut state, &b0, 1, &[1, 2], spawn(&rt, &[1, 2]));
    inject(&mut state, &b1, 1, &[1, 2], vec![]);
    inject(&mut state, &b2, 1, &[1, 2], vec![]);
    for b in [&b0, &b1, &b2] {
        collect(&mut state, 2, b.epoch);
        assert!(state.next_completed_epoch().is_none());
    }
    collect(&mut state, 1, b0.epoch);
    collect(&mut state, 1, b1.epoch);
    collect(&mut state, 1, b2.epoch);
    assert_eq!(next_prev(&mut state), Some(0));
    assert_eq!(next_prev(&mut state), Some(1));
    assert_eq!(next_prev(&mut state), Some(2));
}

#[test]
fn collect_out_of_order_is_refused() {
    let rt = runtime();
    let mut state = manager(1);
    let b0 = barrier(0, BarrierKind::Initial, &[]);
    let b1 = barrier(1, BarrierKind::Barrier, &[]);
    inject(&mut state, &b0, 1, &[1], spawn(&rt, &[1]));
    inject(&mut state, &b1, 1, &[1], vec![]);
    assert!(!state.can_collect(1, b1.epoch));
    assert!(!state.can_collect(2, b0.epoch));
    assert!(!state.can_collect(1, EpochPair::new(5, 0)));
    assert!(state.can_collect(1, b0.epoch));
}

#[test]
fn inject_checks_are_enforced() {
    let rt = runtime();
    let mut state = manager(1);
    let b0 = barrier(0, BarrierKind::Initial, &[1]);
    assert!(!state.can_inject(&b0, 1, &ids(&[1]), &ids(&[]), &vec![1]));
    assert!(!state.can_inject(&b0, 2, &ids(&[1]), &ids(&[]), &vec![1]));
    assert!(!state.can_inject(&b0, 1, &ids(&[1]), &ids(&[]), &vec![]));
    assert!(!state.can_inject(&b0, 1, &ids(&[1]), &ids(&[]), &vec![2]));
    let b0 = barrier(0, BarrierKind::Initial, &[]);
    assert!(!state.can_inject(&b0, 1, &ids(&[1]), &ids(&[]), &vec![1, 1]));
    inject(&mut state, &b0, 1, &[1], spawn(&rt, &[1]));
    assert!(!state.can_inject(&barrier(1, BarrierKind::Barrier, &[]), 1, &ids(&[1]), &ids(&[]), &vec![1]));
    let b1 = barrier(1, BarrierKind::Barrier, &[1]);
    inject(&mut state, &b1, 1, &[1], vec![]);
    assert!(!state.can_inject(&barrier(2, BarrierKind::Barrier, &[]), 1, &ids(&[1]), &ids(&[]), &vec![]));
}

#[test]
fn registered_sender_gets_pending_barriers() {
    let rt = runtime();
    let mut state = manager(1);
    let b0 = barrier(0, BarrierKind::Initial, &[]);
    let b1 = barrier(1, BarrierKind::Barrier, &[]);
    inject(&mut state, &b0, 1, &[1], spawn(&rt, &[1]));
    inject(&mut state, &b1, 1, &[1], vec![]);
    let (tx, mut rx) = unbounded_channel();
    assert!(state.can_register_barrier_sender(1));
    state.register_barrier_sender(1, tx).unwrap();
    assert_eq!(rx.try_recv().unwrap().epoch.prev, 0);
    assert_eq!(rx.try_recv().unwrap().epoch.prev, 1);
    assert!(rx.try_recv().is_err());
    let b2 = barrier(2, BarrierKind::Barrier, &[]);
    inject(&mut state, &b2, 1, &[1], vec![]);
    assert_eq!(rx.try_recv().unwrap().epoch.prev, 2);
    collect(&mut state, 1, b0.epoch);
    assert!(!state.can_register_barrier_sender(1));
    assert!(!state.can_register_barrier_sender(7));
}

#[test]
fn closed_channel_fails_the_inject() {
    let rt = runtime();
    let mut state = manager(1);
    let b0 = barrier(0, BarrierKind::Initial, &[]);
    inject(&mut state, &b0, 1, &[1], spawn(&rt, &[1]));
    let (tx, rx) = unbounded_channel();
    state.register_barrier_sender(1, tx).unwrap();
    drop(rx);
    let b1 = barrier(1, BarrierKind::Barrier, &[]);
    assert!(state.can_inject(&b1, 1, &ids(&[1]), &ids(&[]), &vec![]));
    let err = state.transform_to_issued(&b1, 1, ids(&[1]), ids(&[]), vec![]).err();
    assert_eq!(err, Some(StreamError::BarrierSend { actor_id: 1, epoch: b1.epoch }));
}

#[test]
fn closed_channel_fails_the_registration() {
    let rt = runtime();
    let mut state = manager(1);
    let b0 = barrier(0, BarrierKind::Initial, &[]);
    inject(&mut state, &b0, 1, &[1], spawn(&rt, &[1]));
    let (tx, rx) = unbounded_channel();
    drop(rx);
    assert_eq!(
        state.register_barrier_sender(1, tx).err(),
        Some(StreamError::BarrierSend { actor_id: 1, epoch: b0.epoch })
    );
}

#[test]
fn unknown_graph_is_an_error() {
    let mut state = manager(1);
    assert_eq!(state.pop_completed_epoch(9, 0).err(), Some(StreamError::PartialGraphNotFound { partial_graph_id: 9 }));
    assert_eq!(state.pop_completed_epoch(1, 0).err(), Some(StreamError::EpochNotFound { prev_epoch: 0 }));
    assert!(!state.complete_sync(9, 0, Ok(barrier_manager::barrier::SyncResult { sync_size: 1 })));
    assert!(state.subscriptions_snapshot(9).is_none());
}

#[test]
fn polling_without_completion_changes_nothing() {
    let rt = runtime();
    let mut state = manager(1);
    let b0 = barrier(0, BarrierKind::Initial, &[]);
    inject(&mut state, &b0, 1, &[1], spawn(&rt, &[1]));
    assert!(state.next_completed_epoch().is_none());
    assert!(state.next_completed_epoch().is_none());
    collect(&mut state, 1, b0.epoch);
    assert_eq!(next_prev(&mut state), Some(0));
}

#[test]
fn graphs_complete_independently() {
    let rt = runtime();
    let mut state = ManagedBarrierState::new(vec![
        InitialPartialGraph { partial_graph_id: 1, subscriptions: vec![] },
        InitialPartialGraph { partial_graph_id: 2, subscriptions: vec![] },
    ]);
    let a = barrier(0, BarrierKind::Initial, &[]);
    let b = barrier(10, BarrierKind::Initial, &[]);
    inject(&mut state, &a, 1, &[1], spawn(&rt, &[1]));
    inject(&mut state, &b, 2, &[2], spawn(&rt, &[2]));
    let (g, _) = state.collect(2, b.epoch);
    assert_eq!(g, 2);
    let c = state.next_completed_epoch().unwrap();
    assert_eq!((c.partial_graph_id, c.prev_epoch), (2, 10));
    assert!(state.next_completed_epoch().is_none());
}

#[test]
fn abort_hands_back_every_actor_task() {
    let rt = runtime();
    let mut state = manager(1);
    let b0 = barrier(0, BarrierKind::Initial, &[]);
    inject(&mut state, &b0, 1, &[1, 2], spawn(&rt, &[1, 2]));
    let handles = state.abort_actors();
    assert_eq!(handles.len(), 2);
    assert!(!state.has_actor(1) && !state.has_actor(2));
    for h in handles {
        let outcome = rt.block_on(h);
        assert!(outcome.unwrap_err().is_cancelled());
    }
}

#[test]
fn subscriptions_change_with_inject_requests() {
    let mut state = ManagedBarrierState::new(vec![InitialPartialGraph {
        partial_graph_id: 1,
        subscriptions: vec![SubscriptionUpstreamInfo { subscriber_id: 7, upstream_mv_table_id: 100 }],
    }]);
    assert_eq!(state.subscriptions_snapshot(1).unwrap(), vec![(100, vec![7])]);
    let (added, removed) = state.update_subscriptions(
        1,
        vec![SubscriptionUpstreamInfo { subscriber_id: 8, upstream_mv_table_id: 100 }],
        vec![SubscriptionUpstreamInfo { subscriber_id: 7, upstream_mv_table_id: 100 }],
    );
    assert!(added && removed);
    assert_eq!(state.subscriptions_snapshot(1).unwrap(), vec![(100, vec![8])]);
}

#[test]
fn graph_listed_twice_takes_its_last_listing() {
    let state = ManagedBarrierState::new(vec![
        InitialPartialGraph {
            partial_graph_id: 1,
            subscriptions: vec![SubscriptionUpstreamInfo { subscriber_id: 7, upstream_mv_table_id: 100 }],
        },
        InitialPartialGraph {
            partial_graph_id: 1,
            subscriptions: vec![SubscriptionUpstreamInfo { subscriber_id: 8, upstream_mv_table_id: 200 }],
        },
    ]);
    assert_eq!(state.subscriptions_snapshot(1).unwrap(), vec![(200, vec![8])]);
    assert!(state.subscriptions_snapshot(2).is_none());
}

#[test]
fn debug_info_shows_only_new_actors() {
    let rt = runtime();
    let mut state = manager(1);
    let b0 = barrier(0, BarrierKind::Initial, &[]);
    let b1 = barrier(1, BarrierKind::Barrier, &[]);
    inject(&mut state, &b0, 1, &[1, 2], spawn(&rt, &[1, 2]));
    inject(&mut state, &b1, 1, &[1, 2, 3], spawn(&rt, &[3]));
    let info = state.to_debug_info();
    assert_eq!(info.len(), 1);
    assert_eq!(info[0].0, 1);
    let epochs = &info[0].1;
    assert_eq!(epochs.len(), 2);
    match &epochs[0].state {
        barrier_manager::graph::EpochDebugState::Issued { new_actors, actors_in_prev_epoch, .. } => {
            assert_eq!(new_actors, &vec![1, 2]);
            assert_eq!(*actors_in_prev_epoch, 0);
        }
        _ => panic!("epoch 0 is issued"),
    }
    match &epochs[1].state {
        barrier_manager::graph::EpochDebugState::Issued { new_actors, actors_in_prev_epoch, .. } => {
            assert_eq!(new_actors, &vec![3]);
            assert_eq!(*actors_in_prev_epoch, 2);
        }
        _ => panic!("epoch 1 is issued"),
    }
    collect(&mut state, 1, b0.epoch);
    collect(&mut state, 2, b0.epoch);
    let info = state.to_debug_info();
    assert!(matches!(info[0].1[0].state, barrier_manager::graph::EpochDebugState::AllCollected));
    match &info[0].1[1].state {
        barrier_manager::graph::EpochDebugState::Issued { new_actors, actors_in_prev_epoch, .. } => {
            assert_eq!(new_actors, &vec![1, 2, 3]);
            assert_eq!(*actors_in_prev_epoch, 0);
        }
        _ => panic!("epoch 1 is issued"),
    }
}

#[test]
fn inject_without_senders_succeeds() {
    let rt = runtime();
    let mut state = manager(1);
    let b0 = barrier(0, BarrierKind::Initial, &[]);
    let b1 = barrier(1, BarrierKind::Barrier, &[]);
    inject(&mut state, &b0, 1, &[1, 2], spawn(&rt, &[1, 2]));
    assert!(state.transform_to_issued(&b1, 1, ids(&[1, 2]), ids(&[]), vec![]).is_ok());
}

#[test]
fn abort_returns_one_handle_per_actor() {
    let rt = runtime();
    let mut state = manager(1);
    let b0 = barrier(0, BarrierKind::Initial, &[]);
    inject(&mut state, &b0, 1, &[1, 2, 3], spawn(&rt, &[1, 2, 3]));
    assert_eq!(state.abort_actors().len(), 3);
    assert!(state.abort_actors().is_empty());
}

#[test]
fn recorded_progress_is_listed() {
    let mut state = manager(1);
    let p = CreateMviewProgress { backfill_actor_id: 5, done: true, consumed_epoch: 3, consumed_rows: 9 };
    assert!(state.report_create_mview_progress(1, 4, p));
    assert!(!state.report_create_mview_progress(2, 4, p));
    assert_eq!(state.create_mview_progress(1).unwrap(), vec![(4, vec![p])]);
    assert!(state.create_mview_progress(2).is_none());
}

#[test]
fn barrier_copy_keeps_the_mutation() {
    let mut b = barrier(0, BarrierKind::Initial, &[]);
    b.mutation = Some(std::sync::Arc::new(Mutation { payload: vec![1, 2] }));
    let c = b.duplicate();
    assert!(std::sync::Arc::ptr_eq(b.mutation.as_ref().unwrap(), c.mutation.as_ref().unwrap()));
}
