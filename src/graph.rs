use crate::barrier::{
    ActorId, Barrier, BarrierCompleteResult, BarrierKind, CreateMviewProgress, EpochPair,
    Mutation, StreamError, SyncResult, TableId,
};
use crate::id_set::IdSet;
use crate::model::{
    is_first_of_actor, is_first_record, record_progress, upsert_progress, lemma_advance_wf, lemma_settle, lemma_subscribers_at, lemma_subscribers_same, listed_subscribers, subscribers_in, subscriptions_wf, lemma_take_progress, take_progress, CompleteOutcome, EpochStatus, EpochView, GraphView, PendingView, SyncRequestView,
};
use std::sync::Arc;
use vstd::prelude::*;

verus! {

pub struct IssuedState {
    pub mutation: Option<Arc<Mutation>>,
    /// Actors that have not collected the barrier yet.
    pub remaining_actors: IdSet,
    /// Present exactly when `kind` is `Checkpoint`: the tables to sync.
    pub table_ids: Option<IdSet>,
    pub kind: BarrierKind,
}

/// The state machine of one epoch of a partial graph.
pub enum ManagedBarrierStateInner {
    /// Issued; collecting the barrier from the actors.
    Issued(IssuedState),
    /// Collected by every actor; waiting for the completion queue.
    AllCollected,
    /// Collected by every actor and synced in the state store when needed.
    Completed(Result<BarrierCompleteResult, StreamError>),
}

pub struct BarrierState {
    barrier: Barrier,
    inner: ManagedBarrierStateInner,
}

/// A state-store sync to run for a checkpoint that every actor has collected.
pub struct SyncRequest {
    pub prev_epoch: u64,
    pub table_ids: IdSet,
}

/// An entry of the completion queue.
struct PendingCompletion {
    prev_epoch: u64,
    progress: Vec<CreateMviewProgress>,
    outcome: Option<Result<Option<SyncResult>, StreamError>>,
}

/// How one epoch is shown in a debug listing.
pub enum EpochDebugState {
    /// Issued: the actors it still waits for that the epoch before does not (all of
    /// them when the epoch before is not issued), and how many it shares with it.
    Issued { kind: BarrierKind, new_actors: Vec<ActorId>, actors_in_prev_epoch: usize },
    AllCollected,
    Completed,
}

pub struct EpochDebugInfo {
    pub prev_epoch: u64,
    pub state: EpochDebugState,
}

/// The actors an issued epoch still waits for, less those the epoch before it (when
/// that one is issued too) also waits for.
pub open spec fn shown_actors(entries: Seq<EpochView>, i: int) -> Set<ActorId> {
    match entries[i].status {
        EpochStatus::Issued { remaining, .. } => if i > 0 && entries[i - 1].status is Issued {
            match entries[i - 1].status {
                EpochStatus::Issued { remaining: before, .. } => remaining.difference(before),
                _ => remaining,
            }
        } else {
            remaining
        },
        _ => Set::empty(),
    }
}

/// Whether `d` lists the epochs of `g` in order, each as `to_debug_info` shows it.
pub open spec fn debug_info_of(g: GraphView, d: Seq<EpochDebugInfo>) -> bool {
    &&& d.len() == g.entries.len()
    &&& forall|i: int|
        0 <= i < d.len() ==> {
            let e = g.entries[i];
            &&& (#[trigger] d[i]).prev_epoch == e.prev()
            &&& match e.status {
                EpochStatus::Issued { remaining, kind, .. } => match d[i].state {
                    EpochDebugState::Issued { kind: k, new_actors, actors_in_prev_epoch } => {
                        &&& k == kind
                        &&& crate::id_set::strictly_increasing(new_actors@)
                        &&& new_actors@.to_set() == shown_actors(g.entries, i)
                        &&& new_actors@.len() + actors_in_prev_epoch == remaining.len()
                    },
                    _ => false,
                },
                EpochStatus::AllCollected => d[i].state is AllCollected,
                EpochStatus::Completed(_) => d[i].state is Completed,
            }
        }
}

/// The subscribers of one upstream materialized view.
struct SubscriptionRecord {
    table_id: TableId,
    subscribers: IdSet,
}

/// A subscriber of an upstream materialized view.
#[derive(Clone, Copy, Debug, PartialEq, Eq, Structural)]
pub struct SubscriptionUpstreamInfo {
    pub subscriber_id: u32,
    pub upstream_mv_table_id: TableId,
}

/// Backfill progress recorded for one curr epoch.
struct EpochProgress {
    epoch: u64,
    progress: Vec<CreateMviewProgress>,
}

pub open spec fn outcome_view(r: Result<BarrierCompleteResult, StreamError>) -> CompleteOutcome {
    match r {
        Ok(c) => Ok((c.sync_result, c.create_mview_progress@)),
        Err(e) => Err(e),
    }
}

impl SubscriptionUpstreamInfo {
    pub open spec fn pair(self) -> (u32, TableId) {
        (self.subscriber_id, self.upstream_mv_table_id)
    }
}

pub open spec fn subscription_pairs(items: Seq<SubscriptionUpstreamInfo>) -> Seq<(u32, TableId)> {
    items.map_values(|s: SubscriptionUpstreamInfo| s.pair())
}

impl SyncRequest {
    pub open spec fn view_of(self) -> SyncRequestView {
        SyncRequestView { prev_epoch: self.prev_epoch, table_ids: self.table_ids@ }
    }
}

pub open spec fn sync_views(s: Seq<SyncRequest>) -> Seq<SyncRequestView> {
    s.map_values(|r: SyncRequest| r.view_of())
}

impl BarrierState {
    pub closed spec fn view_of(self) -> EpochView {
        EpochView {
            barrier: self.barrier@,
            status: match self.inner {
                ManagedBarrierStateInner::Issued(s) => EpochStatus::Issued {
                    remaining: s.remaining_actors@,
                    kind: s.kind,
                    table_ids: match s.table_ids {
                        Some(t) => Some(t@),
                        None => None,
                    },
                },
                ManagedBarrierStateInner::AllCollected => EpochStatus::AllCollected,
                ManagedBarrierStateInner::Completed(r) => EpochStatus::Completed(outcome_view(r)),
            },
        }
    }

    pub closed spec fn inner_wf(self) -> bool {
        &&& self.barrier.wf()
        &&& match self.inner {
            ManagedBarrierStateInner::Issued(s) => {
                &&& s.mutation == self.barrier.mutation
                &&& s.remaining_actors.wf()
                &&& match s.table_ids {
                    Some(t) => t.wf(),
                    None => true,
                }
            },
            _ => true,
        }
    }
}

impl PendingCompletion {
    closed spec fn view_of(self) -> PendingView {
        PendingView { prev_epoch: self.prev_epoch, progress: self.progress@, outcome: self.outcome }
    }
}

/// The barrier bookkeeping of one partial graph.
pub struct PartialGraphManagedBarrierState {
    /// Barrier state per epoch, ordered by prev epoch.
    epoch_barrier_state_map: Vec<BarrierState>,
    /// How many entries at the front of the map are `Completed`.
    n_completed: usize,
    prev_barrier_table_ids: Option<(EpochPair, IdSet)>,
    /// Subscribers per upstream materialized view; a record goes when its last
    /// subscriber does.
    mv_depended_subscriptions: Vec<SubscriptionRecord>,
    /// Backfill progress per curr epoch, attached to the epoch's completion.
    create_mview_progress: Vec<EpochProgress>,
    /// Completions in the order they are reported: that of their epochs.
    await_epoch_completed: Vec<PendingCompletion>,
}

impl View for PartialGraphManagedBarrierState {
    type V = GraphView;

    closed spec fn view(&self) -> GraphView {
        GraphView {
            entries: self.epoch_barrier_state_map@.map_values(|s: BarrierState| s.view_of()),
            n_completed: self.n_completed as nat,
            queue: self.await_epoch_completed@.map_values(|p: PendingCompletion| p.view_of()),
            prev_table_ids: match self.prev_barrier_table_ids {
                Some((e, t)) => Some((e, t@)),
                None => None,
            },
            progress: self.create_mview_progress@.map_values(
                |p: EpochProgress| (p.epoch, p.progress@),
            ),
            subscriptions: self.mv_depended_subscriptions@.map_values(
                |r: SubscriptionRecord| (r.table_id, r.subscribers@),
            ),
        }
    }
}

/// Takes out the progress recorded for `epoch`.
fn take_epoch_progress(records: &mut Vec<EpochProgress>, epoch: u64) -> (r: Vec<
    CreateMviewProgress,
>)
    ensures
        (r@, final(records)@.map_values(|p: EpochProgress| (p.epoch, p.progress@))) == take_progress(
            old(records)@.map_values(|p: EpochProgress| (p.epoch, p.progress@)),
            epoch,
        ),
{
    let ghost s = old(records)@.map_values(|p: EpochProgress| (p.epoch, p.progress@));
    let mut i: usize = 0;
    while i < records.len()
        invariant
            i <= records@.len(),
            *records == *old(records),
            s == records@.map_values(|p: EpochProgress| (p.epoch, p.progress@)),
            forall|j: int| 0 <= j < i ==> s[j].0 != epoch,
        decreases records@.len() - i,
    {
        if records[i].epoch == epoch {
            proof {
                lemma_take_progress(s, epoch, i as int);
            }
            let rec = records.remove(i);
            assert(records@.map_values(|p: EpochProgress| (p.epoch, p.progress@)) =~= s.remove(
                i as int,
            ));
            return rec.progress;
        }
        i = i + 1;
    }
    proof {
        lemma_take_progress(s, epoch, i as int);
    }
    Vec::new()
}

/// The ids of `actors` missing from `prev` (all of them when there is no `prev`), in
/// increasing order, and how many are not missing.
fn actors_not_in(actors: &IdSet, prev: Option<&IdSet>) -> (r: (Vec<ActorId>, usize))
    requires
        actors.wf(),
        match prev {
            Some(p) => p.wf(),
            None => true,
        },
    ensures
        crate::id_set::strictly_increasing(r.0@),
        forall|x: ActorId|
            r.0@.contains(x) <==> actors@.contains(x) && match prev {
                Some(p) => !p@.contains(x),
                None => true,
            },
        r.0@.len() + r.1 == actors@.len(),
{
    proof {
        actors.lemma_elems();
    }
    let ghost elems = actors.elems();
    let n = actors.len();
    let mut out: Vec<ActorId> = Vec::new();
    let mut shared: usize = 0;
    let mut k: usize = 0;
    while k < n
        invariant
            actors.wf(),
            elems == actors.elems(),
            n == elems.len(),
            crate::id_set::strictly_increasing(elems),
            match prev {
                Some(p) => p.wf(),
                None => true,
            },
            k <= n,
            out@.len() + shared == k,
            crate::id_set::strictly_increasing(out@),
            forall|j: int| 0 <= j < out@.len() ==> exists|m: int| 0 <= m < k && elems[m] == #[trigger] out@[j],
            forall|x: ActorId|
                out@.contains(x) <==> (exists|m: int| 0 <= m < k && elems[m] == x) && match prev {
                    Some(p) => !p@.contains(x),
                    None => true,
                },
        decreases n - k,
    {
        let a = actors.get(k);
        let keep = match prev {
            Some(p) => !p.contains(a),
            None => true,
        };
        if keep {
            let ghost before = out@;
            out.push(a);
            proof {
                assert forall|j: int, l: int| 0 <= j < l < out@.len() implies out@[j] < out@[l] by {
                    if l == before.len() {
                        let m = choose|m: int| 0 <= m < k && elems[m] == before[j];
                        assert(elems[m] < elems[k as int]);
                    } else {
                        assert(before[j] < before[l]);
                    }
                }
                assert forall|j: int| 0 <= j < out@.len() implies exists|m: int| 0 <= m < k + 1 && elems[m] == #[trigger] out@[j] by {
                    if j < before.len() {
                        let m = choose|m: int| 0 <= m < k && elems[m] == before[j];
                        assert(elems[m] == out@[j]);
                    } else {
                        assert(elems[k as int] == out@[j]);
                    }
                }
                assert forall|x: ActorId| out@.contains(x) <==> (exists|m: int| 0 <= m < k + 1 && elems[m] == x) && match prev {
                    Some(p) => !p@.contains(x),
                    None => true,
                } by {
                    if out@.contains(x) {
                        let j = choose|j: int| 0 <= j < out@.len() && out@[j] == x;
                        if j < before.len() {
                            assert(before.contains(x));
                        }
                    }
                    if (exists|m: int| 0 <= m < k + 1 && elems[m] == x) && match prev {
                        Some(p) => !p@.contains(x),
                        None => true,
                    } {
                        let m = choose|m: int| 0 <= m < k + 1 && elems[m] == x;
                        if m < k {
                            assert(before.contains(x));
                            let j = choose|j: int| 0 <= j < before.len() && before[j] == x;
                            assert(out@[j] == x);
                        } else {
                            assert(out@[before.len() as int] == x);
                        }
                    }
                }
            }
        } else {
            shared = shared + 1;
            proof {
                assert forall|x: ActorId| out@.contains(x) <==> (exists|m: int| 0 <= m < k + 1 && elems[m] == x) && match prev {
                    Some(p) => !p@.contains(x),
                    None => true,
                } by {
                    if (exists|m: int| 0 <= m < k + 1 && elems[m] == x) && match prev {
                        Some(p) => !p@.contains(x),
                        None => true,
                    } {
                        let m = choose|m: int| 0 <= m < k + 1 && elems[m] == x;
                        if m == k {
                            assert(x == a);
                        }
                    }
                }
                assert forall|j: int| 0 <= j < out@.len() implies exists|m: int| 0 <= m < k + 1 && elems[m] == #[trigger] out@[j] by {
                    let m = choose|m: int| 0 <= m < k && elems[m] == out@[j];
                }
            }
        }
        k = k + 1;
    }
    proof {
        assert forall|x: ActorId| (exists|m: int| 0 <= m < n && elems[m] == x) <==> actors@.contains(x) by {
            if actors@.contains(x) {
                assert(elems.contains(x));
            }
        }
    }
    (out, shared)
}

impl PartialGraphManagedBarrierState {
    pub closed spec fn inner_wf(&self) -> bool {
        &&& forall|i: int|
            0 <= i < self.epoch_barrier_state_map@.len() ==> (
            #[trigger] self.epoch_barrier_state_map@[i]).inner_wf()
        &&& match self.prev_barrier_table_ids {
            Some((_, t)) => t.wf(),
            None => true,
        }
        &&& forall|i: int|
            0 <= i < self.mv_depended_subscriptions@.len() ==> (
            #[trigger] self.mv_depended_subscriptions@[i]).subscribers.wf()
    }

    pub open spec fn wf(&self) -> bool {
        self@.wf() && self.inner_wf()
    }

    pub fn new() -> (r: PartialGraphManagedBarrierState)
        ensures
            r.wf(),
            r@.entries.len() == 0,
            r@.queue.len() == 0,
            r@.n_completed == 0,
            r@.prev_table_ids is None,
            r@.progress.len() == 0,
            r@.subscriptions.len() == 0,
    {
        let r = PartialGraphManagedBarrierState {
            epoch_barrier_state_map: Vec::new(),
            n_completed: 0,
            prev_barrier_table_ids: None,
            mv_depended_subscriptions: Vec::new(),
            create_mview_progress: Vec::new(),
            await_epoch_completed: Vec::new(),
        };
        assert(r@.entries.len() == 0);
        r
    }

    /// Moves every `Issued` epoch, from the earliest, that all its actors have collected to
    /// `AllCollected`, enqueueing its completion, until one still waits for an actor.
    /// Returns the syncs of the checkpoints among them, in epoch order.
    fn may_have_collected_all(&mut self) -> (r: Vec<SyncRequest>)
        requires
            old(self).inner_wf(),
            old(self)@.wf_runs(),
            subscriptions_wf(old(self)@.subscriptions),
        ensures
            final(self).wf(),
            final(self)@ == old(self)@.settle(),
            sync_views(r@) == old(self)@.settle_syncs(),
            forall|i: int| 0 <= i < r@.len() ==> (#[trigger] r@[i]).table_ids.wf(),
    {
        let ghost g0 = self@;
        proof {
            lemma_settle(g0);
        }
        let mut syncs: Vec<SyncRequest> = Vec::new();
        loop
            invariant
                self.inner_wf(),
                self@.wf_runs(),
                subscriptions_wf(self@.subscriptions),
                self@.settle() == g0.settle(),
                sync_views(syncs@) + self@.settle_syncs() == g0.settle_syncs(),
                forall|i: int| 0 <= i < syncs@.len() ==> (#[trigger] syncs@[i]).table_ids.wf(),
            ensures
                self.inner_wf(),
                self@.wf_runs(),
                subscriptions_wf(self@.subscriptions),
                self@.settle() == g0.settle(),
                sync_views(syncs@) + self@.settle_syncs() == g0.settle_syncs(),
                forall|i: int| 0 <= i < syncs@.len() ==> (#[trigger] syncs@[i]).table_ids.wf(),
                !self@.can_advance(),
            decreases self@.entries.len() - self@.boundary(),
        {
            assert(self@.entries.len() == self.epoch_barrier_state_map@.len());
            assert(self@.queue.len() == self.await_epoch_completed@.len());
            let len = self.epoch_barrier_state_map.len();
            let b = self.n_completed + self.await_epoch_completed.len();
            if b >= len {
                break;
            }
            let ready = match &self.epoch_barrier_state_map[b].inner {
                ManagedBarrierStateInner::Issued(s) => s.remaining_actors.is_empty(),
                _ => false,
            };
            if !ready {
                break;
            }
            let ghost pre = self@;
            let ghost pre_syncs = syncs@;
            proof {
                lemma_advance_wf(pre);
                assert(self.epoch_barrier_state_map@[b as int].inner_wf());
            }
            let st = self.epoch_barrier_state_map.remove(b);
            let BarrierState { barrier, inner } = st;
            match inner {
                ManagedBarrierStateInner::Issued(issued) => {
                    let progress = take_epoch_progress(
                        &mut self.create_mview_progress,
                        barrier.epoch.curr,
                    );
                    let outcome = if issued.kind == BarrierKind::Checkpoint {
                        None
                    } else {
                        Some(Ok(None))
                    };
                    self.await_epoch_completed.push(
                        PendingCompletion { prev_epoch: barrier.epoch.prev, progress, outcome },
                    );
                    match issued.table_ids {
                        Some(t) => {
                            syncs.push(SyncRequest { prev_epoch: barrier.epoch.prev, table_ids: t });
                        },
                        None => {},
                    }
                    self.epoch_barrier_state_map.insert(
                        b,
                        BarrierState { barrier, inner: ManagedBarrierStateInner::AllCollected },
                    );
                },
                _ => {
                    proof {
                        assert(false);
                    }
                },
            }
            proof {
                assert(self@.entries =~= pre.advance().entries);
                assert(self@.queue =~= pre.advance().queue);
                assert(self@ == pre.advance());
                assert(sync_views(syncs@) =~= sync_views(pre_syncs) + pre.advance_sync());
                assert(sync_views(pre_syncs) + pre.settle_syncs() == sync_views(pre_syncs) + (
                pre.advance_sync() + pre.advance().settle_syncs()));
                assert(sync_views(pre_syncs) + (pre.advance_sync() + pre.advance().settle_syncs())
                    =~= sync_views(syncs@) + self@.settle_syncs());
            }
        }
        proof {
            lemma_settle(self@);
        }
        syncs
    }

    /// The position of the entry of `prev_epoch`, if any.
    fn find_epoch(&self, prev_epoch: u64) -> (r: Option<usize>)
        requires
            self@.wf_runs(),
        ensures
            match r {
                Some(i) => {
                    &&& i < self@.entries.len()
                    &&& self@.entries[i as int].prev() == prev_epoch
                    &&& self@.has_epoch(prev_epoch)
                    &&& self@.index_of(prev_epoch) == i
                },
                None => !self@.has_epoch(prev_epoch),
            },
    {
        let mut i: usize = 0;
        while i < self.epoch_barrier_state_map.len()
            invariant
                i <= self@.entries.len(),
                self@.wf_runs(),
                self@.entries.len() == self.epoch_barrier_state_map@.len(),
                forall|j: int| 0 <= j < i ==> self@.entries[j].prev() != prev_epoch,
            decreases self@.entries.len() - i,
        {
            if self.epoch_barrier_state_map[i].barrier.epoch.prev == prev_epoch {
                assert(self@.entries[i as int].prev() == prev_epoch);
                assert(self@.has_epoch(prev_epoch));
                let ghost k = self@.index_of(prev_epoch);
                assert(k == i) by {
                    if k < i {
                        assert(self@.entries[k].prev() < self@.entries[i as int].prev());
                    } else if k > i {
                        assert(self@.entries[i as int].prev() < self@.entries[k].prev());
                    }
                }
                return Some(i);
            }
            assert(self@.entries[i as int].prev() != prev_epoch);
            i = i + 1;
        }
        None
    }

    /// Whether `barrier` may be issued with `table_ids` (see `GraphView::can_issue`).
    pub fn can_issue(&self, barrier: &Barrier, table_ids: &IdSet) -> (r: bool)
        requires
            self.wf(),
            table_ids.wf(),
        ensures
            r == self@.can_issue(barrier@, table_ids@),
    {
        match &self.prev_barrier_table_ids {
            None => true,
            Some((e, ids)) => {
                e.prev < barrier.epoch.prev && barrier.kind != BarrierKind::Initial && (
                barrier.kind != BarrierKind::Barrier || (e.curr == barrier.epoch.prev
                    && ids.same_as(table_ids)))
            },
        }
    }

    /// Issues `barrier`, to be collected by `actor_ids_to_collect`, with the tables it
    /// announces. A checkpoint syncs the tables announced for the epochs before it.
    /// Returns the syncs of the checkpoints this completes (some, when no actor is
    /// to collect the barrier).
    pub fn transform_to_issued(
        &mut self,
        barrier: &Barrier,
        actor_ids_to_collect: IdSet,
        table_ids: IdSet,
    ) -> (r: Vec<SyncRequest>)
        requires
            old(self).wf(),
            barrier.wf(),
            actor_ids_to_collect.wf(),
            table_ids.wf(),
            old(self)@.can_issue(barrier@, table_ids@),
        ensures
            final(self).wf(),
            final(self)@ == old(self)@.issue(
                barrier@,
                actor_ids_to_collect@,
                table_ids@,
            ).settle(),
            sync_views(r@) == old(self)@.issue(
                barrier@,
                actor_ids_to_collect@,
                table_ids@,
            ).settle_syncs(),
            forall|i: int| 0 <= i < r@.len() ==> (#[trigger] r@[i]).table_ids.wf(),
    {
        let ghost g0 = self@;
        let issued_table_ids = if barrier.kind == BarrierKind::Checkpoint {
            Some(
                match &self.prev_barrier_table_ids {
                    Some((e, ids)) => {
                        if e.curr == barrier.epoch.prev {
                            ids.clone_set()
                        } else {
                            IdSet::new()
                        }
                    },
                    None => IdSet::new(),
                },
            )
        } else {
            None
        };
        proof {
            actor_ids_to_collect.lemma_elems();
        }
        self.prev_barrier_table_ids = Some((barrier.epoch, table_ids));
        let mutation = match &barrier.mutation {
            Some(m) => Some(Arc::clone(m)),
            None => None,
        };
        self.epoch_barrier_state_map.push(
            BarrierState {
                barrier: barrier.duplicate(),
                inner: ManagedBarrierStateInner::Issued(
                    IssuedState {
                        mutation,
                        remaining_actors: actor_ids_to_collect,
                        table_ids: issued_table_ids,
                        kind: barrier.kind,
                    },
                ),
            },
        );
        proof {
            let g1 = g0.issue(barrier@, actor_ids_to_collect@, table_ids@);
            assert(self@.entries =~= g1.entries);
            assert(self@ == g1);
            assert forall|i: int| 0 <= i < g0.entries.len() implies #[trigger] g1.entries[i].prev()
                < barrier.epoch.prev by {
                match g0.prev_table_ids {
                    Some((e, _)) => {
                        assert(g0.entries[i].prev() <= e.prev);
                    },
                    None => {},
                }
            }
            assert forall|i: int| g1.boundary() <= i < g1.entries.len() implies match (
            #[trigger] g1.entries[i]).status {
                EpochStatus::Issued { remaining, kind, table_ids } => {
                    &&& remaining.finite()
                    &&& kind == g1.entries[i].barrier.kind
                    &&& (table_ids is Some <==> kind == BarrierKind::Checkpoint)
                },
                _ => false,
            } by {
                if i < g0.entries.len() {
                    assert(g1.entries[i] == g0.entries[i]);
                }
            }
            assert forall|i: int| 0 <= i < g1.entries.len() implies #[trigger] g1.entries[i].prev()
                <= barrier.epoch.prev by {
                if i < g0.entries.len() {
                    assert(g1.entries[i].prev() < barrier.epoch.prev);
                }
            }
            assert forall|k: int| 0 <= k < g1.queue.len() implies {
                &&& (#[trigger] g1.entries[g1.n_completed + k]).status is AllCollected
                &&& g1.entries[g1.n_completed + k].prev() == g1.queue[k].prev_epoch
            } by {
                assert(g0.entries[g0.n_completed + k].status is AllCollected);
            }
            assert(g1.wf_runs());
        }
        self.may_have_collected_all()
    }

    /// Whether `actor_id` may collect the barrier closing `epoch`.
    pub fn can_collect(&self, actor_id: ActorId, epoch: EpochPair) -> (r: bool)
        requires
            self.wf(),
        ensures
            r == self@.can_collect(actor_id, epoch),
    {
        match self.find_epoch(epoch.prev) {
            None => false,
            Some(i) => {
                proof {
                    assert(self.epoch_barrier_state_map@[i as int].inner_wf());
                }
                let st = &self.epoch_barrier_state_map[i];
                if st.barrier.epoch.curr != epoch.curr {
                    return false;
                }
                match &st.inner {
                    ManagedBarrierStateInner::Issued(s) => s.remaining_actors.contains(actor_id),
                    _ => false,
                }
            },
        }
    }

    /// Collects the barrier closing `epoch` from `actor_id`, and completes what that
    /// unblocks. Returns the syncs of the checkpoints this completes.
    pub fn collect(&mut self, actor_id: ActorId, epoch: EpochPair) -> (r: Vec<SyncRequest>)
        requires
            old(self).wf(),
            old(self)@.can_collect(actor_id, epoch),
        ensures
            final(self).wf(),
            final(self)@ == old(self)@.collect_at(old(self)@.index_of(epoch.prev), actor_id).settle(),
            sync_views(r@) == old(self)@.collect_at(
                old(self)@.index_of(epoch.prev),
                actor_id,
            ).settle_syncs(),
            forall|i: int| 0 <= i < r@.len() ==> (#[trigger] r@[i]).table_ids.wf(),
    {
        let ghost g0 = self@;
        match self.find_epoch(epoch.prev) {
            Some(i) => {
                let ghost g1 = g0.collect_at(i as int, actor_id);
                proof {
                    assert(self.epoch_barrier_state_map@[i as int].inner_wf());
                }
                let mut st = self.epoch_barrier_state_map.remove(i);
                match &mut st.inner {
                    ManagedBarrierStateInner::Issued(s) => {
                        s.remaining_actors.remove(actor_id);
                    },
                    _ => {},
                }
                self.epoch_barrier_state_map.insert(i, st);
                proof {
                    assert(self@.entries =~= g1.entries);
                    assert(self@ == g1);
                    assert(i >= g0.boundary()) by {
                        if i < g0.n_completed {
                            assert(g0.entries[i as int].status is Completed);
                        } else if i < g0.boundary() {
                            let k = i - g0.n_completed;
                            assert(g0.entries[g0.n_completed + k].status is AllCollected);
                        }
                    }
                    assert forall|j: int| g1.boundary() <= j < g1.entries.len() implies match (
                    #[trigger] g1.entries[j]).status {
                        EpochStatus::Issued { remaining, kind, table_ids } => {
                            &&& remaining.finite()
                            &&& kind == g1.entries[j].barrier.kind
                            &&& (table_ids is Some <==> kind == BarrierKind::Checkpoint)
                        },
                        _ => false,
                    } by {
                        assert(g0.entries[j].status is Issued);
                    }
                    assert forall|k: int| 0 <= k < g1.queue.len() implies {
                        &&& (#[trigger] g1.entries[g1.n_completed + k]).status is AllCollected
                        &&& g1.entries[g1.n_completed + k].prev() == g1.queue[k].prev_epoch
                    } by {
                        assert(g0.entries[g0.n_completed + k].status is AllCollected);
                    }
                    match g1.prev_table_ids {
                        Some((e, _)) => {
                            assert forall|j: int| 0 <= j < g1.entries.len() implies #[trigger] g1.entries[j].prev() <= e.prev by {
                                assert(g0.entries[j].prev() <= e.prev);
                            }
                        },
                        None => {},
                    }
                    assert(g1.wf_runs());
                }
                self.may_have_collected_all()
            },
            None => {
                proof {
                    assert(false);
                }
                Vec::new()
            },
        }
    }

    /// Reports the next completed barrier: the head of the completion queue, once its
    /// sync outcome is known. Completions come out in the order of their epochs.
    ///
    /// When the head is not ready nothing changes, so asking again later gives the same
    /// answer until an event arrives.
    pub fn poll_next_completed_barrier(&mut self) -> (r: Option<Barrier>)
        requires
            old(self).wf(),
        ensures
            final(self).wf(),
            old(self)@.head_ready() ==> {
                &&& r is Some
                &&& r->Some_0.wf()
                &&& r->Some_0@ == old(self)@.entries[old(self)@.n_completed as int].barrier
                &&& r->Some_0.epoch.prev == old(self)@.queue[0].prev_epoch
                &&& final(self)@ == old(self)@.complete_head()
            },
            !old(self)@.head_ready() ==> r is None && final(self)@ == old(self)@,
    {
        let ghost g0 = self@;
        if self.await_epoch_completed.len() == 0 {
            return None;
        }
        if self.await_epoch_completed[0].outcome.is_none() {
            return None;
        }
        let head = self.await_epoch_completed.remove(0);
        let PendingCompletion { prev_epoch: _, progress, outcome } = head;
        match outcome {
            Some(o) => {
                let result = match o {
                    Ok(sync_result) => Ok(
                        BarrierCompleteResult { sync_result, create_mview_progress: progress },
                    ),
                    Err(e) => Err(e),
                };
                let b = self.n_completed;
                let len = self.epoch_barrier_state_map.len();
                proof {
                    assert(g0.entries[g0.n_completed + 0int].status is AllCollected);
                    assert(b < len);
                    assert(self.epoch_barrier_state_map@[b as int].inner_wf());
                }
                let mut st = self.epoch_barrier_state_map.remove(b);
                st.inner = ManagedBarrierStateInner::Completed(result);
                let barrier = st.barrier.duplicate();
                self.epoch_barrier_state_map.insert(b, st);
                self.n_completed = b + 1;
                proof {
                    let g1 = g0.complete_head();
                    assert(self@.entries =~= g1.entries);
                    assert(self@.queue =~= g1.queue);
                    assert(self@ == g1);
                    assert forall|k: int| 0 <= k < g1.queue.len() implies {
                        &&& (#[trigger] g1.entries[g1.n_completed + k]).status is AllCollected
                        &&& g1.entries[g1.n_completed + k].prev() == g1.queue[k].prev_epoch
                    } by {
                        assert(g0.entries[g0.n_completed + (k + 1)].status is AllCollected);
                        assert(g1.n_completed + k == g0.n_completed + (k + 1));
                    }
                    assert forall|i: int| 0 <= i < g1.n_completed implies g1.entries[i].status is Completed by {
                        if i < g0.n_completed {
                            assert(g0.entries[i].status is Completed);
                        }
                    }
                    assert forall|i: int| g1.boundary() <= i < g1.entries.len() implies match (
                    #[trigger] g1.entries[i]).status {
                        EpochStatus::Issued { remaining, kind, table_ids } => {
                            &&& remaining.finite()
                            &&& kind == g1.entries[i].barrier.kind
                            &&& (table_ids is Some <==> kind == BarrierKind::Checkpoint)
                        },
                        _ => false,
                    } by {
                        assert(g1.entries[i] == g0.entries[i]);
                    }
                    match g1.prev_table_ids {
                        Some((e, _)) => {
                            assert forall|j: int| 0 <= j < g1.entries.len() implies #[trigger] g1.entries[j].prev() <= e.prev by {
                                assert(g0.entries[j].prev() <= e.prev);
                            }
                        },
                        None => {},
                    }
                    if g1.boundary() < g1.entries.len() {
                        assert(g1.entries[g1.boundary()] == g0.entries[g0.boundary()]);
                    }
                }
                Some(barrier)
            },
            None => {
                proof {
                    assert(false);
                }
                None
            },
        }
    }

    /// Takes out the outcome of the completed epoch `prev_epoch`, dropping its state.
    ///
    /// Fails when no state is kept for `prev_epoch` (it may have been cleared by a
    /// recovery); gives `None` while the epoch has not completed.
    pub fn pop_completed_epoch(&mut self, prev_epoch: u64) -> (r: Result<
        Option<Result<BarrierCompleteResult, StreamError>>,
        StreamError,
    >)
        requires
            old(self).wf(),
        ensures
            final(self).wf(),
            !old(self)@.has_epoch(prev_epoch) ==> r == Err::<
                Option<Result<BarrierCompleteResult, StreamError>>,
                StreamError,
            >(StreamError::EpochNotFound { prev_epoch }) && final(self)@ == old(self)@,
            old(self)@.has_epoch(prev_epoch) ==> match old(
                self,
            )@.entries[old(self)@.index_of(prev_epoch)].status {
                EpochStatus::Completed(o) => {
                    &&& r is Ok
                    &&& r->Ok_0 is Some
                    &&& outcome_view(r->Ok_0->Some_0) == o
                    &&& final(self)@ == old(self)@.remove_at(old(self)@.index_of(prev_epoch))
                },
                _ => r is Ok && r->Ok_0 is None && final(self)@ == old(self)@,
            },
    {
        let ghost g0 = self@;
        match self.find_epoch(prev_epoch) {
            None => Err(StreamError::EpochNotFound { prev_epoch }),
            Some(i) => {
                let done = match &self.epoch_barrier_state_map[i].inner {
                    ManagedBarrierStateInner::Completed(_) => true,
                    _ => false,
                };
                if !done {
                    return Ok(None);
                }
                proof {
                    assert(i < g0.n_completed) by {
                        if i >= g0.n_completed && i < g0.boundary() {
                            let k = i - g0.n_completed;
                            assert(g0.entries[g0.n_completed + k].status is AllCollected);
                        } else if i >= g0.boundary() {
                            assert(g0.entries[i as int].status is Issued);
                        }
                    }
                }
                let st = self.epoch_barrier_state_map.remove(i);
                self.n_completed = self.n_completed - 1;
                proof {
                    let g1 = g0.remove_at(i as int);
                    assert(self@.entries =~= g1.entries);
                    assert(self@ == g1);
                    assert forall|a: int, b: int| 0 <= a < b < g1.entries.len() implies g1.entries[a].prev() < g1.entries[b].prev() by {
                        let a0 = if a < i { a } else { a + 1 };
                        let b0 = if b < i { b } else { b + 1 };
                        assert(g1.entries[a] == g0.entries[a0]);
                        assert(g1.entries[b] == g0.entries[b0]);
                    }
                    assert forall|k: int| 0 <= k < g1.queue.len() implies {
                        &&& (#[trigger] g1.entries[g1.n_completed + k]).status is AllCollected
                        &&& g1.entries[g1.n_completed + k].prev() == g1.queue[k].prev_epoch
                    } by {
                        assert(g0.entries[g0.n_completed + k].status is AllCollected);
                        assert(g1.entries[g1.n_completed + k] == g0.entries[g0.n_completed + k]);
                    }
                    assert forall|j: int| 0 <= j < g1.n_completed implies g1.entries[j].status is Completed by {
                        if j < i {
                            assert(g0.entries[j].status is Completed);
                        } else {
                            assert(g1.entries[j] == g0.entries[j + 1]);
                            assert(g0.entries[j + 1].status is Completed);
                        }
                    }
                    assert forall|j: int| g1.boundary() <= j < g1.entries.len() implies match (
                    #[trigger] g1.entries[j]).status {
                        EpochStatus::Issued { remaining, kind, table_ids } => {
                            &&& remaining.finite()
                            &&& kind == g1.entries[j].barrier.kind
                            &&& (table_ids is Some <==> kind == BarrierKind::Checkpoint)
                        },
                        _ => false,
                    } by {
                        assert(g1.entries[j] == g0.entries[j + 1]);
                    }
                    match g1.prev_table_ids {
                        Some((e, _)) => {
                            assert forall|j: int| 0 <= j < g1.entries.len() implies #[trigger] g1.entries[j].prev() <= e.prev by {
                                let j0 = if j < i { j } else { j + 1 };
                                assert(g1.entries[j] == g0.entries[j0]);
                            }
                        },
                        None => {},
                    }
                    if g1.boundary() < g1.entries.len() {
                        assert(g1.entries[g1.boundary()] == g0.entries[g0.boundary()]);
                    }
                    assert forall|j: int| 0 <= j < self.epoch_barrier_state_map@.len() implies (#[trigger] self.epoch_barrier_state_map@[j]).inner_wf() by {
                        let j0 = if j < i { j } else { j + 1 };
                        assert(self.epoch_barrier_state_map@[j] == old(self).epoch_barrier_state_map@[j0]);
                    }
                }
                match st.inner {
                    ManagedBarrierStateInner::Completed(result) => Ok(Some(result)),
                    _ => {
                        proof {
                            assert(false);
                        }
                        Ok(None)
                    },
                }
            },
        }
    }

    /// Records the outcome of the state-store sync of `prev_epoch`. Returns whether the
    /// completion of `prev_epoch` was waiting for it; if not, nothing changes.
    pub fn complete_sync(&mut self, prev_epoch: u64, outcome: Result<SyncResult, StreamError>) -> (r: bool)
        requires
            old(self).wf(),
        ensures
            final(self).wf(),
            r == old(self)@.awaiting_sync(prev_epoch),
            r ==> final(self)@ == old(self)@.finish_sync(old(self)@.queue_index(prev_epoch), outcome),
            !r ==> final(self)@ == old(self)@,
    {
        let ghost g0 = self@;
        let mut k: usize = 0;
        while k < self.await_epoch_completed.len()
            invariant
                k <= self@.queue.len(),
                self@ == g0,
                g0 == old(self)@,
                *self == *old(self),
                self.wf(),
                self@.queue.len() == self.await_epoch_completed@.len(),
                forall|j: int| 0 <= j < k ==> self@.queue[j].prev_epoch != prev_epoch,
            decreases self@.queue.len() - k,
        {
            if self.await_epoch_completed[k].prev_epoch == prev_epoch {
                assert(g0.queue[k as int].prev_epoch == prev_epoch);
                let ghost q = g0.queue_index(prev_epoch);
                assert(q == k) by {
                    let n = g0.n_completed;
                    assert(g0.entries[n + q].status is AllCollected);
                    assert(g0.entries[n + k].status is AllCollected);
                    if q < k {
                        assert(g0.entries[n + q].prev() < g0.entries[n + k].prev());
                    } else if q > k {
                        assert(g0.entries[n + k].prev() < g0.entries[n + q].prev());
                    }
                }
                if self.await_epoch_completed[k].outcome.is_some() {
                    assert(!g0.awaiting_sync(prev_epoch)) by {
                        if g0.awaiting_sync(prev_epoch) {
                            let j = choose|j: int|
                                0 <= j < g0.queue.len() && g0.queue[j].prev_epoch == prev_epoch
                                    && g0.queue[j].outcome is None;
                            let n = g0.n_completed;
                            assert(g0.entries[n + j].status is AllCollected);
                            assert(g0.entries[n + k].status is AllCollected);
                            if j < k {
                                assert(g0.entries[n + j].prev() < g0.entries[n + k].prev());
                            } else if j > k {
                                assert(g0.entries[n + k].prev() < g0.entries[n + j].prev());
                            }
                        }
                    }
                    return false;
                }
                let mut p = self.await_epoch_completed.remove(k);
                p.outcome = Some(
                    match outcome {
                        Ok(s) => Ok(Some(s)),
                        Err(e) => Err(e),
                    },
                );
                self.await_epoch_completed.insert(k, p);
                proof {
                    let g1 = g0.finish_sync(k as int, outcome);
                    assert(self@.queue =~= g1.queue);
                    assert(self@ == g1);
                    assert forall|j: int| 0 <= j < g1.queue.len() implies {
                        &&& (#[trigger] g1.entries[g1.n_completed + j]).status is AllCollected
                        &&& g1.entries[g1.n_completed + j].prev() == g1.queue[j].prev_epoch
                    } by {
                        assert(g0.entries[g0.n_completed + j].status is AllCollected);
                    }
                }
                return true;
            }
            k = k + 1;
        }
        false
    }

    /// The position of the record of `table_id`, if any.
    fn find_subscription(&self, table_id: TableId) -> (r: Option<usize>)
        requires
            self.wf(),
        ensures
            match r {
                Some(i) => i < self@.subscriptions.len() && self@.subscriptions[i as int].0 == table_id,
                None => forall|i: int|
                    0 <= i < self@.subscriptions.len() ==> self@.subscriptions[i].0 != table_id,
            },
    {
        let mut i: usize = 0;
        while i < self.mv_depended_subscriptions.len()
            invariant
                i <= self@.subscriptions.len(),
                self@.subscriptions.len() == self.mv_depended_subscriptions@.len(),
                forall|j: int| 0 <= j < i ==> self@.subscriptions[j].0 != table_id,
            decreases self@.subscriptions.len() - i,
        {
            if self.mv_depended_subscriptions[i].table_id == table_id {
                return Some(i);
            }
            i = i + 1;
        }
        None
    }

    /// Adds `subscriber_id` to the subscribers of `table_id`. Returns whether it was
    /// not a subscriber yet; adding an existing subscription is a caller's error.
    pub fn add_subscription(&mut self, table_id: TableId, subscriber_id: u32) -> (r: bool)
        requires
            old(self).wf(),
        ensures
            final(self).wf(),
            final(self)@ == (GraphView { subscriptions: final(self)@.subscriptions, ..old(self)@ }),
            forall|t: TableId|
                #[trigger] final(self)@.subscribers(t) == if t == table_id {
                    old(self)@.subscribers(t).insert(subscriber_id)
                } else {
                    old(self)@.subscribers(t)
                },
            r == !old(self)@.subscribers(table_id).contains(subscriber_id),
    {
        let ghost s0 = self@.subscriptions;
        match self.find_subscription(table_id) {
            Some(i) => {
                proof {
                    lemma_subscribers_at(s0, i as int);
                    assert(self.mv_depended_subscriptions@[i as int].subscribers.wf());
                }
                let mut rec = self.mv_depended_subscriptions.remove(i);
                let added = rec.subscribers.insert(subscriber_id);
                self.mv_depended_subscriptions.insert(i, rec);
                proof {
                    let s1 = self@.subscriptions;
                    assert(s1 =~= s0.update(i as int, (table_id, s0[i as int].1.insert(subscriber_id))));
                    assert(subscriptions_wf(s1)) by {
                        assert forall|a: int| 0 <= a < s1.len() implies (#[trigger] s1[a]).1 != Set::<u32>::empty() by {
                            if a == i {
                                assert(s1[a].1.contains(subscriber_id));
                            }
                        }
                    }
                    lemma_subscribers_at(s1, i as int);
                    assert forall|t: TableId| t != table_id implies #[trigger] subscribers_in(s1, t) == subscribers_in(s0, t) by {
                        if exists|a: int| 0 <= a < s0.len() && s0[a].0 == t {
                            let a = choose|a: int| 0 <= a < s0.len() && s0[a].0 == t;
                            assert(s1[a].0 == t);
                        }
                        if exists|a: int| 0 <= a < s1.len() && s1[a].0 == t {
                            let a = choose|a: int| 0 <= a < s1.len() && s1[a].0 == t;
                            assert(s0[a].0 == t);
                        }
                        lemma_subscribers_same(s1, s0, t);
                    }
                    assert forall|a: int| 0 <= a < self.mv_depended_subscriptions@.len() implies (#[trigger] self.mv_depended_subscriptions@[a]).subscribers.wf() by {
                        if a != i {
                            assert(self.mv_depended_subscriptions@[a] == old(self).mv_depended_subscriptions@[a]);
                        }
                    }
                    assert(self@.entries =~= old(self)@.entries);
                }
                added
            },
            None => {
                let mut subscribers = IdSet::new();
                subscribers.insert(subscriber_id);
                self.mv_depended_subscriptions.push(SubscriptionRecord { table_id, subscribers });
                proof {
                    let s1 = self@.subscriptions;
                    assert(s1 =~= s0.push((table_id, Set::<u32>::empty().insert(subscriber_id))));
                    assert(subscriptions_wf(s1)) by {
                        assert forall|a: int| 0 <= a < s1.len() implies (#[trigger] s1[a]).1 != Set::<u32>::empty() by {
                            if a == s0.len() {
                                assert(s1[a].1.contains(subscriber_id));
                            }
                        }
                    }
                    lemma_subscribers_at(s1, s0.len() as int);
                    assert(subscribers_in(s0, table_id) == Set::<u32>::empty());
                    assert(Set::<u32>::empty().insert(subscriber_id) =~= subscribers_in(s0, table_id).insert(subscriber_id));
                    assert forall|t: TableId| t != table_id implies #[trigger] subscribers_in(s1, t) == subscribers_in(s0, t) by {
                        if exists|a: int| 0 <= a < s0.len() && s0[a].0 == t {
                            let a = choose|a: int| 0 <= a < s0.len() && s0[a].0 == t;
                            assert(s1[a].0 == t);
                        }
                        lemma_subscribers_same(s1, s0, t);
                    }
                    assert(self@.entries =~= old(self)@.entries);
                }
                true
            },
        }
    }

    /// Removes `subscriber_id` from the subscribers of `table_id`, dropping the table's
    /// record when it empties. Returns whether it was a subscriber; removing an absent
    /// subscription is a caller's error.
    pub fn remove_subscription(&mut self, table_id: TableId, subscriber_id: u32) -> (r: bool)
        requires
            old(self).wf(),
        ensures
            final(self).wf(),
            final(self)@ == (GraphView { subscriptions: final(self)@.subscriptions, ..old(self)@ }),
            forall|t: TableId|
                #[trigger] final(self)@.subscribers(t) == if t == table_id {
                    old(self)@.subscribers(t).remove(subscriber_id)
                } else {
                    old(self)@.subscribers(t)
                },
            r == old(self)@.subscribers(table_id).contains(subscriber_id),
    {
        let ghost s0 = self@.subscriptions;
        match self.find_subscription(table_id) {
            Some(i) => {
                proof {
                    lemma_subscribers_at(s0, i as int);
                    assert(self.mv_depended_subscriptions@[i as int].subscribers.wf());
                }
                let mut rec = self.mv_depended_subscriptions.remove(i);
                let removed = rec.subscribers.remove(subscriber_id);
                if rec.subscribers.is_empty() {
                    proof {
                        let s1 = self@.subscriptions;
                        assert(s1 =~= s0.remove(i as int));
                        assert(subscriptions_wf(s1)) by {
                            assert forall|a: int, b: int| 0 <= a < b < s1.len() implies s1[a].0 != s1[b].0 by {
                                let a0 = if a < i { a } else { a + 1 };
                                let b0 = if b < i { b } else { b + 1 };
                                assert(s1[a] == s0[a0] && s1[b] == s0[b0]);
                            }
                            assert forall|a: int| 0 <= a < s1.len() implies (#[trigger] s1[a]).1 != Set::<u32>::empty() by {
                                let a0 = if a < i { a } else { a + 1 };
                                assert(s1[a] == s0[a0]);
                            }
                        }
                        assert forall|a: int| 0 <= a < s1.len() implies s1[a].0 != table_id by {
                            let a0 = if a < i { a } else { a + 1 };
                            assert(s1[a] == s0[a0]);
                        }
                        assert(subscribers_in(s1, table_id) == Set::<u32>::empty());
                        assert forall|t: TableId| t != table_id implies #[trigger] subscribers_in(s1, t) == subscribers_in(s0, t) by {
                            if exists|a: int| 0 <= a < s0.len() && s0[a].0 == t {
                                let a = choose|a: int| 0 <= a < s0.len() && s0[a].0 == t;
                                assert(a != i);
                                let a1 = if a < i { a } else { a - 1 };
                                assert(s1[a1] == s0[a]);
                            }
                            if exists|a: int| 0 <= a < s1.len() && s1[a].0 == t {
                                let a = choose|a: int| 0 <= a < s1.len() && s1[a].0 == t;
                                let a0 = if a < i { a } else { a + 1 };
                                assert(s1[a] == s0[a0]);
                            }
                            assert forall|a: int, b: int| 0 <= a < s1.len() && 0 <= b < s0.len() && s1[a].0 == t && s0[b].0 == t implies s1[a].1 == s0[b].1 by {
                                let a0 = if a < i { a } else { a + 1 };
                                assert(s1[a] == s0[a0]);
                                if a0 != b {
                                    if a0 < b { assert(s0[a0].0 != s0[b].0); } else { assert(s0[b].0 != s0[a0].0); }
                                }
                            }
                            lemma_subscribers_same(s1, s0, t);
                        }
                        assert forall|a: int| 0 <= a < self.mv_depended_subscriptions@.len() implies (#[trigger] self.mv_depended_subscriptions@[a]).subscribers.wf() by {
                            let a0 = if a < i { a } else { a + 1 };
                            assert(self.mv_depended_subscriptions@[a] == old(self).mv_depended_subscriptions@[a0]);
                        }
                        assert(self@.entries =~= old(self)@.entries);
                    }
                } else {
                    self.mv_depended_subscriptions.insert(i, rec);
                    proof {
                        let s1 = self@.subscriptions;
                        assert(s1 =~= s0.update(i as int, (table_id, s0[i as int].1.remove(subscriber_id))));
                        lemma_subscribers_at(s1, i as int);
                        assert forall|t: TableId| t != table_id implies #[trigger] subscribers_in(s1, t) == subscribers_in(s0, t) by {
                            if exists|a: int| 0 <= a < s0.len() && s0[a].0 == t {
                                let a = choose|a: int| 0 <= a < s0.len() && s0[a].0 == t;
                                assert(s1[a].0 == t);
                            }
                            if exists|a: int| 0 <= a < s1.len() && s1[a].0 == t {
                                let a = choose|a: int| 0 <= a < s1.len() && s1[a].0 == t;
                                assert(s0[a].0 == t);
                            }
                            lemma_subscribers_same(s1, s0, t);
                        }
                        assert forall|a: int| 0 <= a < self.mv_depended_subscriptions@.len() implies (#[trigger] self.mv_depended_subscriptions@[a]).subscribers.wf() by {
                            if a != i {
                                assert(self.mv_depended_subscriptions@[a] == old(self).mv_depended_subscriptions@[a]);
                            }
                        }
                        assert(self@.entries =~= old(self)@.entries);
                    }
                }
                removed
            },
            None => {
                proof {
                    assert(!(exists|a: int| 0 <= a < s0.len() && s0[a].0 == table_id));
                    assert forall|t: TableId| #[trigger] subscribers_in(s0, t) == (if t == table_id {
                        subscribers_in(s0, t).remove(subscriber_id)
                    } else {
                        subscribers_in(s0, t)
                    }) by {
                        if t == table_id {
                            assert(subscribers_in(s0, t).remove(subscriber_id) =~= Set::<u32>::empty());
                        }
                    }
                }
                false
            },
        }
    }

    /// Adds each of `subscriptions`. Returns whether all of them were new.
    pub fn add_subscriptions(&mut self, subscriptions: Vec<SubscriptionUpstreamInfo>) -> (r: bool)
        requires
            old(self).wf(),
        ensures
            final(self).wf(),
            final(self)@ == (GraphView { subscriptions: final(self)@.subscriptions, ..old(self)@ }),
            forall|t: TableId|
                #[trigger] final(self)@.subscribers(t) == old(self)@.subscribers(t).union(
                    listed_subscribers(subscription_pairs(subscriptions@), subscriptions@.len() as int, t),
                ),
            r == old(self)@.all_new_subscriptions(subscription_pairs(subscriptions@)),
    {
        let ghost g0 = self@;
        let ghost items = subscription_pairs(subscriptions@);
        let mut all_new = true;
        let mut i: usize = 0;
        while i < subscriptions.len()
            invariant
                i <= subscriptions@.len(),
                items == subscription_pairs(subscriptions@),
                self.wf(),
                self@ == (GraphView { subscriptions: self@.subscriptions, ..g0 }),
                forall|t: TableId|
                    #[trigger] self@.subscribers(t) == g0.subscribers(t).union(
                        listed_subscribers(items, i as int, t),
                    ),
                all_new == g0.all_new_subscriptions(items.subrange(0, i as int)),
            decreases subscriptions@.len() - i,
        {
            let item = subscriptions[i];
            let ghost before = self@;
            let added = self.add_subscription(item.upstream_mv_table_id, item.subscriber_id);
            proof {
                assert(items[i as int] == (item.subscriber_id, item.upstream_mv_table_id));
                assert forall|t: TableId| #[trigger] self@.subscribers(t) == g0.subscribers(t).union(
                    listed_subscribers(items, i + 1, t)) by {
                    assert(listed_subscribers(items, i + 1, t) =~= if t == item.upstream_mv_table_id {
                        listed_subscribers(items, i as int, t).insert(item.subscriber_id)
                    } else {
                        listed_subscribers(items, i as int, t)
                    });
                    assert(before.subscribers(t) == g0.subscribers(t).union(listed_subscribers(items, i as int, t)));
                }
                let p = items.subrange(0, i + 1);
                let q = items.subrange(0, i as int);
                assert(added == (!g0.subscribers(items[i as int].1).contains(items[i as int].0) && !(exists|j: int| 0 <= j < i && items[j] == items[i as int]))) by {
                    assert(before.subscribers(item.upstream_mv_table_id) == g0.subscribers(item.upstream_mv_table_id).union(listed_subscribers(items, i as int, item.upstream_mv_table_id)));
                    if exists|j: int| 0 <= j < i && items[j] == items[i as int] {
                        let j = choose|j: int| 0 <= j < i && items[j] == items[i as int];
                        assert(listed_subscribers(items, i as int, item.upstream_mv_table_id).contains(item.subscriber_id));
                    }
                    if listed_subscribers(items, i as int, item.upstream_mv_table_id).contains(item.subscriber_id) {
                        let j = choose|j: int| 0 <= j < i && items[j] == (item.subscriber_id, item.upstream_mv_table_id);
                        assert(items[j] == items[i as int]);
                    }
                    if listed_subscribers(items, i as int, item.upstream_mv_table_id).contains(item.subscriber_id) {
                        let j = choose|j: int| 0 <= j < i && items[j] == (item.subscriber_id, item.upstream_mv_table_id);
                        assert(items[j] == items[i as int]);
                    }
                }
                assert(g0.all_new_subscriptions(p) == (g0.all_new_subscriptions(q) && added)) by {
                    if g0.all_new_subscriptions(p) {
                        assert forall|k: int| 0 <= k < q.len() implies !g0.subscribers(q[k].1).contains(q[k].0) && !(exists|j: int| 0 <= j < k && q[j] == q[k]) by {
                            assert(p[k] == q[k]);
                            if exists|j: int| 0 <= j < k && q[j] == q[k] {
                                let j = choose|j: int| 0 <= j < k && q[j] == q[k];
                                assert(p[j] == q[j]);
                            }
                        }
                        assert(p[i as int] == items[i as int]);
                        if exists|j: int| 0 <= j < i && items[j] == items[i as int] {
                            let j = choose|j: int| 0 <= j < i && items[j] == items[i as int];
                            assert(p[j] == items[j]);
                        }
                    }
                    if g0.all_new_subscriptions(q) && added {
                        assert forall|k: int| 0 <= k < p.len() implies !g0.subscribers(p[k].1).contains(p[k].0) && !(exists|j: int| 0 <= j < k && p[j] == p[k]) by {
                            if k < i {
                                assert(p[k] == q[k]);
                                if exists|j: int| 0 <= j < k && p[j] == p[k] {
                                    let j = choose|j: int| 0 <= j < k && p[j] == p[k];
                                    assert(p[j] == q[j]);
                                }
                            } else {
                                if exists|j: int| 0 <= j < k && p[j] == p[k] {
                                    let j = choose|j: int| 0 <= j < k && p[j] == p[k];
                                    assert(p[j] == items[j]);
                                }
                            }
                        }
                    }
                }
            }
            all_new = all_new && added;
            i = i + 1;
        }
        assert(items.subrange(0, items.len() as int) == items);
        all_new
    }

    /// Removes each of `subscriptions`. Returns whether all of them were present.
    pub fn remove_subscriptions(&mut self, subscriptions: Vec<SubscriptionUpstreamInfo>) -> (r: bool)
        requires
            old(self).wf(),
        ensures
            final(self).wf(),
            final(self)@ == (GraphView { subscriptions: final(self)@.subscriptions, ..old(self)@ }),
            forall|t: TableId|
                #[trigger] final(self)@.subscribers(t) == old(self)@.subscribers(t).difference(
                    listed_subscribers(subscription_pairs(subscriptions@), subscriptions@.len() as int, t),
                ),
            r == old(self)@.all_present_subscriptions(subscription_pairs(subscriptions@)),
    {
        let ghost g0 = self@;
        let ghost items = subscription_pairs(subscriptions@);
        let mut all_present = true;
        let mut i: usize = 0;
        while i < subscriptions.len()
            invariant
                i <= subscriptions@.len(),
                items == subscription_pairs(subscriptions@),
                self.wf(),
                self@ == (GraphView { subscriptions: self@.subscriptions, ..g0 }),
                forall|t: TableId|
                    #[trigger] self@.subscribers(t) == g0.subscribers(t).difference(
                        listed_subscribers(items, i as int, t),
                    ),
                all_present == g0.all_present_subscriptions(items.subrange(0, i as int)),
            decreases subscriptions@.len() - i,
        {
            let item = subscriptions[i];
            let ghost before = self@;
            let removed = self.remove_subscription(item.upstream_mv_table_id, item.subscriber_id);
            proof {
                assert(items[i as int] == (item.subscriber_id, item.upstream_mv_table_id));
                assert forall|t: TableId| #[trigger] self@.subscribers(t) == g0.subscribers(t).difference(
                    listed_subscribers(items, i + 1, t)) by {
                    assert(listed_subscribers(items, i + 1, t) =~= if t == item.upstream_mv_table_id {
                        listed_subscribers(items, i as int, t).insert(item.subscriber_id)
                    } else {
                        listed_subscribers(items, i as int, t)
                    });
                    assert(before.subscribers(t) == g0.subscribers(t).difference(listed_subscribers(items, i as int, t)));
                }
                let p = items.subrange(0, i + 1);
                let q = items.subrange(0, i as int);
                assert(removed == (g0.subscribers(items[i as int].1).contains(items[i as int].0) && !(exists|j: int| 0 <= j < i && items[j] == items[i as int]))) by {
                    assert(before.subscribers(item.upstream_mv_table_id) == g0.subscribers(item.upstream_mv_table_id).difference(listed_subscribers(items, i as int, item.upstream_mv_table_id)));
                    if exists|j: int| 0 <= j < i && items[j] == items[i as int] {
                        let j = choose|j: int| 0 <= j < i && items[j] == items[i as int];
                        assert(listed_subscribers(items, i as int, item.upstream_mv_table_id).contains(item.subscriber_id));
                    }
                    if listed_subscribers(items, i as int, item.upstream_mv_table_id).contains(item.subscriber_id) {
                        let j = choose|j: int| 0 <= j < i && items[j] == (item.subscriber_id, item.upstream_mv_table_id);
                        assert(items[j] == items[i as int]);
                    }
                    if listed_subscribers(items, i as int, item.upstream_mv_table_id).contains(item.subscriber_id) {
                        let j = choose|j: int| 0 <= j < i && items[j] == (item.subscriber_id, item.upstream_mv_table_id);
                        assert(items[j] == items[i as int]);
                    }
                }
                assert(g0.all_present_subscriptions(p) == (g0.all_present_subscriptions(q) && removed)) by {
                    if g0.all_present_subscriptions(p) {
                        assert forall|k: int| 0 <= k < q.len() implies g0.subscribers(q[k].1).contains(q[k].0) && !(exists|j: int| 0 <= j < k && q[j] == q[k]) by {
                            assert(p[k] == q[k]);
                            if exists|j: int| 0 <= j < k && q[j] == q[k] {
                                let j = choose|j: int| 0 <= j < k && q[j] == q[k];
                                assert(p[j] == q[j]);
                            }
                        }
                        assert(p[i as int] == items[i as int]);
                        if exists|j: int| 0 <= j < i && items[j] == items[i as int] {
                            let j = choose|j: int| 0 <= j < i && items[j] == items[i as int];
                            assert(p[j] == items[j]);
                        }
                    }
                    if g0.all_present_subscriptions(q) && removed {
                        assert forall|k: int| 0 <= k < p.len() implies g0.subscribers(p[k].1).contains(p[k].0) && !(exists|j: int| 0 <= j < k && p[j] == p[k]) by {
                            if k < i {
                                assert(p[k] == q[k]);
                                if exists|j: int| 0 <= j < k && p[j] == p[k] {
                                    let j = choose|j: int| 0 <= j < k && p[j] == p[k];
                                    assert(p[j] == q[j]);
                                }
                            } else {
                                if exists|j: int| 0 <= j < k && p[j] == p[k] {
                                    let j = choose|j: int| 0 <= j < k && p[j] == p[k];
                                    assert(p[j] == items[j]);
                                }
                            }
                        }
                    }
                }
            }
            all_present = all_present && removed;
            i = i + 1;
        }
        assert(items.subrange(0, items.len() as int) == items);
        all_present
    }

    /// Whether the head of the completion queue is ready to be reported.
    pub fn has_completed_head(&self) -> (r: bool)
        requires
            self.wf(),
        ensures
            r == self@.head_ready(),
    {
        self.await_epoch_completed.len() > 0 && self.await_epoch_completed[0].outcome.is_some()
    }

    /// The subscribers of each upstream materialized view, in increasing order.
    pub fn subscriptions_snapshot(&self) -> (r: Vec<(TableId, Vec<u32>)>)
        requires
            self.wf(),
        ensures
            r@.len() == self@.subscriptions.len(),
            forall|i: int|
                0 <= i < r@.len() ==> (#[trigger] r@[i]).0 == self@.subscriptions[i].0
                    && r@[i].1@.to_set() == self@.subscriptions[i].1,
    {
        let mut out: Vec<(TableId, Vec<u32>)> = Vec::new();
        let mut i: usize = 0;
        while i < self.mv_depended_subscriptions.len()
            invariant
                self.wf(),
                i <= self.mv_depended_subscriptions@.len(),
                out@.len() == i,
                forall|j: int|
                    0 <= j < i ==> (#[trigger] out@[j]).0 == self@.subscriptions[j].0
                        && out@[j].1@.to_set() == self@.subscriptions[j].1,
            decreases self.mv_depended_subscriptions@.len() - i,
        {
            let rec = &self.mv_depended_subscriptions[i];
            proof {
                assert(self.mv_depended_subscriptions@[i as int].subscribers.wf());
                rec.subscribers.lemma_elems();
            }
            out.push((rec.table_id, rec.subscribers.to_vec()));
            i = i + 1;
        }
        out
    }

    /// The epochs kept, in order, for a debug listing. An issued epoch lists only the
    /// actors the epoch before it does not wait for, and counts the others.
    pub fn to_debug_info(&self) -> (r: Vec<EpochDebugInfo>)
        requires
            self.wf(),
        ensures
            debug_info_of(self@, r@),
    {
        let mut out: Vec<EpochDebugInfo> = Vec::new();
        let mut i: usize = 0;
        while i < self.epoch_barrier_state_map.len()
            invariant
                self.wf(),
                i <= self@.entries.len(),
                self@.entries.len() == self.epoch_barrier_state_map@.len(),
                out@.len() == i,
                forall|j: int|
                    0 <= j < i ==> {
                        let e = self@.entries[j];
                        &&& (#[trigger] out@[j]).prev_epoch == e.prev()
                        &&& match e.status {
                            EpochStatus::Issued { remaining, kind, .. } => match out@[j].state {
                                EpochDebugState::Issued { kind: k, new_actors, actors_in_prev_epoch } => {
                                    &&& k == kind
                                    &&& crate::id_set::strictly_increasing(new_actors@)
                                    &&& new_actors@.to_set() == shown_actors(self@.entries, j)
                                    &&& new_actors@.len() + actors_in_prev_epoch == remaining.len()
                                },
                                _ => false,
                            },
                            EpochStatus::AllCollected => out@[j].state is AllCollected,
                            EpochStatus::Completed(_) => out@[j].state is Completed,
                        }
                    },
            decreases self@.entries.len() - i,
        {
            let st = &self.epoch_barrier_state_map[i];
            proof {
                assert(self.epoch_barrier_state_map@[i as int].inner_wf());
            }
            let state = match &st.inner {
                ManagedBarrierStateInner::Issued(issued) => {
                    let prev: Option<&IdSet> = if i > 0 {
                        proof {
                            assert(self.epoch_barrier_state_map@[i - 1].inner_wf());
                        }
                        match &self.epoch_barrier_state_map[i - 1].inner {
                            ManagedBarrierStateInner::Issued(p) => Some(&p.remaining_actors),
                            _ => None,
                        }
                    } else {
                        None
                    };
                    let (new_actors, shared) = actors_not_in(&issued.remaining_actors, prev);
                    proof {
                        issued.remaining_actors.lemma_elems();
                        assert(self@.entries[i as int] == self.epoch_barrier_state_map@[i as int].view_of());
                        if i > 0 {
                            assert(self@.entries[i - 1] == self.epoch_barrier_state_map@[i - 1].view_of());
                        }
                        assert(match self@.entries[i as int].status {
                            EpochStatus::Issued { remaining, .. } => remaining == issued.remaining_actors@,
                            _ => false,
                        });
                        assert(match prev {
                            Some(p) => i > 0 && match self@.entries[i - 1].status {
                                EpochStatus::Issued { remaining, .. } => remaining == p@,
                                _ => false,
                            },
                            None => !(i > 0 && self@.entries[i - 1].status is Issued),
                        });
                        assert forall|x: ActorId| new_actors@.to_set().contains(x) == shown_actors(self@.entries, i as int).contains(x) by {
                            assert(new_actors@.to_set().contains(x) == new_actors@.contains(x));
                            match prev {
                                Some(p) => {
                                    assert(i > 0);
                                    match self.epoch_barrier_state_map@[i - 1].inner {
                                        ManagedBarrierStateInner::Issued(q) => {
                                            assert(p@ == q.remaining_actors@);
                                        },
                                        _ => {},
                                    }
                                },
                                None => {
                                    if i > 0 {
                                        assert(!(self.epoch_barrier_state_map@[i - 1].inner is Issued));
                                    }
                                },
                            }
                        }
                        assert(new_actors@.to_set() =~= shown_actors(self@.entries, i as int));
                    }
                    EpochDebugState::Issued { kind: issued.kind, new_actors, actors_in_prev_epoch: shared }
                },
                ManagedBarrierStateInner::AllCollected => EpochDebugState::AllCollected,
                ManagedBarrierStateInner::Completed(_) => EpochDebugState::Completed,
            };
            out.push(EpochDebugInfo { prev_epoch: st.barrier.epoch.prev, state });
            i = i + 1;
        }
        out
    }

    /// Records the backfill progress `progress` of its actor for curr epoch `epoch`,
    /// in place of an earlier report of the same actor for the same epoch. It is handed
    /// back with the completion of the epoch.
    pub fn report_create_mview_progress(&mut self, epoch: u64, progress: CreateMviewProgress)
        requires
            old(self).wf(),
        ensures
            final(self).wf(),
            final(self)@ == (GraphView {
                progress: record_progress(old(self)@.progress, epoch, progress),
                ..old(self)@
            }),
    {
        let ghost s0 = self@.progress;
        let mut i: usize = 0;
        while i < self.create_mview_progress.len()
            invariant
                *self == *old(self),
                s0 == self@.progress,
                i <= self.create_mview_progress@.len(),
                forall|k: int| 0 <= k < i ==> s0[k].0 != epoch,
            ensures
                *self == *old(self),
                s0 == self@.progress,
                i <= self.create_mview_progress@.len(),
                forall|k: int| 0 <= k < i ==> s0[k].0 != epoch,
                i < self.create_mview_progress@.len() ==> s0[i as int].0 == epoch,
            decreases self.create_mview_progress@.len() - i,
        {
            if self.create_mview_progress[i].epoch == epoch {
                break;
            }
            i = i + 1;
        }
        if i < self.create_mview_progress.len() {
            assert(is_first_record(s0, epoch, i as int));
            let mut rec = self.create_mview_progress.remove(i);
            let ghost l0 = rec.progress@;
            let mut j: usize = 0;
            while j < rec.progress.len()
                invariant
                    rec.progress@ == l0,
                    j <= l0.len(),
                    forall|k: int| 0 <= k < j ==> l0[k].backfill_actor_id != progress.backfill_actor_id,
                ensures
                    rec.progress@ == l0,
                    j <= l0.len(),
                    forall|k: int| 0 <= k < j ==> l0[k].backfill_actor_id != progress.backfill_actor_id,
                    j < l0.len() ==> l0[j as int].backfill_actor_id == progress.backfill_actor_id,
                decreases l0.len() - j,
            {
                if rec.progress[j].backfill_actor_id == progress.backfill_actor_id {
                    break;
                }
                j = j + 1;
            }
            if j < rec.progress.len() {
                assert(is_first_of_actor(l0, progress.backfill_actor_id, j as int));
                rec.progress.set(j, progress);
                proof {
                    let c = choose|c: int| is_first_of_actor(l0, progress.backfill_actor_id, c);
                    assert(c == j) by {
                        if c < j {
                        } else if c > j {
                        }
                    }
                    assert(rec.progress@ == upsert_progress(l0, progress));
                }
            } else {
                rec.progress.push(progress);
                proof {
                    assert(!exists|c: int| is_first_of_actor(l0, progress.backfill_actor_id, c));
                }
            }
            self.create_mview_progress.insert(i, rec);
            proof {
                let c = choose|c: int| is_first_record(s0, epoch, c);
                assert(c == i) by {
                    if c < i {
                    } else if c > i {
                    }
                }
                assert(self@.progress =~= record_progress(s0, epoch, progress));
                assert(self@.entries =~= old(self)@.entries);
            }
        } else {
            let mut list: Vec<CreateMviewProgress> = Vec::new();
            list.push(progress);
            self.create_mview_progress.push(EpochProgress { epoch, progress: list });
            proof {
                assert(!exists|c: int| is_first_record(s0, epoch, c));
                assert(self@.progress =~= record_progress(s0, epoch, progress));
                assert(self@.entries =~= old(self)@.entries);
            }
        }
    }

    /// The backfill progress recorded per curr epoch and not yet handed back, in the
    /// order the epochs were first reported.
    pub fn create_mview_progress_snapshot(&self) -> (r: Vec<(u64, Vec<CreateMviewProgress>)>)
        ensures
            r@.len() == self@.progress.len(),
            forall|i: int|
                0 <= i < r@.len() ==> (#[trigger] r@[i]).0 == self@.progress[i].0 && r@[i].1@
                    == self@.progress[i].1,
    {
        let mut out: Vec<(u64, Vec<CreateMviewProgress>)> = Vec::new();
        let mut i: usize = 0;
        while i < self.create_mview_progress.len()
            invariant
                i <= self.create_mview_progress@.len(),
                out@.len() == i,
                forall|j: int|
                    0 <= j < i ==> (#[trigger] out@[j]).0 == self@.progress[j].0 && out@[j].1@
                        == self@.progress[j].1,
            decreases self.create_mview_progress@.len() - i,
        {
            let rec = &self.create_mview_progress[i];
            let mut list: Vec<CreateMviewProgress> = Vec::new();
            let mut j: usize = 0;
            while j < rec.progress.len()
                invariant
                    j <= rec.progress@.len(),
                    list@ == rec.progress@.subrange(0, j as int),
                decreases rec.progress@.len() - j,
            {
                list.push(rec.progress[j]);
                j = j + 1;
            }
            assert(list@ == rec.progress@);
            out.push((rec.epoch, list));
            i = i + 1;
        }
        out
    }

    /// The prev epoch of the earliest epoch kept, if any.
    pub fn first_prev_epoch(&self) -> (r: Option<u64>)
        ensures
            match r {
                Some(p) => self@.entries.len() > 0 && p == self@.entries[0].prev(),
                None => self@.entries.len() == 0,
            },
    {
        if self.epoch_barrier_state_map.len() == 0 {
            None
        } else {
            Some(self.epoch_barrier_state_map[0].barrier.epoch.prev)
        }
    }

    /// Whether no epoch is kept.
    pub fn is_empty(&self) -> (r: bool)
        ensures
            r == (self@.entries.len() == 0),
    {
        self.epoch_barrier_state_map.len() == 0
    }
}

} // verus!
