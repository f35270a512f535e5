use crate::barrier::{
    ActorId, BarrierKind, BarrierView, CreateMviewProgress, EpochPair, StreamError, SyncResult,
    TableId,
};
use vstd::prelude::*;

verus! {

/// What a completed epoch yields: the sync outcome (none when no sync was needed) and
/// the backfill progress of the epoch, or the error of a failed sync.
pub type CompleteOutcome = Result<(Option<SyncResult>, Seq<CreateMviewProgress>), StreamError>;

pub enum EpochStatus {
    /// Waiting for `remaining` actors to collect the barrier. `table_ids` is the scope of
    /// the sync and is present exactly for a checkpoint.
    Issued { remaining: Set<ActorId>, kind: BarrierKind, table_ids: Option<Set<TableId>> },
    /// Collected by every actor; waiting in the completion queue.
    AllCollected,
    /// Completed, holding its outcome until it is popped.
    Completed(CompleteOutcome),
}

pub struct EpochView {
    pub barrier: BarrierView,
    pub status: EpochStatus,
}

/// An entry of the completion queue.
pub struct PendingView {
    pub prev_epoch: u64,
    pub progress: Seq<CreateMviewProgress>,
    /// The sync outcome, once known: immediately for a barrier that needs no sync.
    pub outcome: Option<Result<Option<SyncResult>, StreamError>>,
}

/// A state-store sync to run for a collected checkpoint.
pub struct SyncRequestView {
    pub prev_epoch: u64,
    pub table_ids: Set<TableId>,
}

/// The state of a partial graph, as the contracts see it.
///
/// `entries` is ordered by prev epoch and falls into three runs: the first
/// `n_completed` are `Completed`, the next `queue.len()` are `AllCollected` and match
/// the completion queue one for one, and the rest are `Issued`.
pub struct GraphView {
    pub entries: Seq<EpochView>,
    pub n_completed: nat,
    pub queue: Seq<PendingView>,
    /// The epoch of the last barrier issued, with the table ids it announced.
    pub prev_table_ids: Option<(EpochPair, Set<TableId>)>,
    /// Backfill progress reported per curr epoch, not yet attached to a completion.
    pub progress: Seq<(u64, Seq<CreateMviewProgress>)>,
    /// Subscribers per upstream materialized view: one record per table, none empty.
    pub subscriptions: Seq<(TableId, Set<u32>)>,
}

/// Whether each table has at most one record, and no record is empty.
pub open spec fn subscriptions_wf(s: Seq<(TableId, Set<u32>)>) -> bool {
    &&& forall|i: int, j: int| 0 <= i < j < s.len() ==> s[i].0 != s[j].0
    &&& forall|i: int| 0 <= i < s.len() ==> (#[trigger] s[i]).1 != Set::<u32>::empty()
}

/// The subscribers of `table_id`.
pub open spec fn subscribers_in(s: Seq<(TableId, Set<u32>)>, table_id: TableId) -> Set<u32> {
    if exists|i: int| 0 <= i < s.len() && s[i].0 == table_id {
        s[choose|i: int| 0 <= i < s.len() && s[i].0 == table_id].1
    } else {
        Set::empty()
    }
}

pub proof fn lemma_subscribers_at(s: Seq<(TableId, Set<u32>)>, i: int)
    requires
        subscriptions_wf(s),
        0 <= i < s.len(),
    ensures
        subscribers_in(s, s[i].0) == s[i].1,
{
    let t = s[i].0;
    let j = choose|j: int| 0 <= j < s.len() && s[j].0 == t;
    if j != i {
        if j < i {
            assert(s[j].0 != s[i].0);
        } else {
            assert(s[i].0 != s[j].0);
        }
    }
}

/// The progress recorded for `epoch` (the first record of it), and the records
/// without it.
pub open spec fn take_progress(s: Seq<(u64, Seq<CreateMviewProgress>)>, epoch: u64) -> (Seq<
    CreateMviewProgress,
>, Seq<(u64, Seq<CreateMviewProgress>)>)
    decreases s.len(),
{
    if s.len() == 0 {
        (Seq::empty(), s)
    } else if s[0].0 == epoch {
        (s[0].1, s.drop_first())
    } else {
        let (p, rest) = take_progress(s.drop_first(), epoch);
        (p, seq![s[0]] + rest)
    }
}

pub proof fn lemma_take_progress(s: Seq<(u64, Seq<CreateMviewProgress>)>, epoch: u64, i: int)
    requires
        0 <= i <= s.len(),
        forall|j: int| 0 <= j < i ==> s[j].0 != epoch,
        i < s.len() ==> s[i].0 == epoch,
    ensures
        take_progress(s, epoch) == if i < s.len() {
            (s[i].1, s.remove(i))
        } else {
            (Seq::<CreateMviewProgress>::empty(), s)
        },
    decreases s.len(),
{
    if s.len() == 0 {
    } else if i == 0 {
        assert(s.remove(0) == s.drop_first());
    } else {
        let t = s.drop_first();
        assert forall|j: int| 0 <= j < i - 1 implies t[j].0 != epoch by {
            assert(t[j] == s[j + 1]);
        }
        lemma_take_progress(t, epoch, i - 1);
        if i < s.len() {
            assert(seq![s[0]] + t.remove(i - 1) == s.remove(i));
        } else {
            assert(seq![s[0]] + t == s);
        }
    }
}

/// Whether `i` is the first position of `s` whose record is for `epoch`.
pub open spec fn is_first_record(s: Seq<(u64, Seq<CreateMviewProgress>)>, epoch: u64, i: int) -> bool {
    0 <= i < s.len() && s[i].0 == epoch && forall|k: int| 0 <= k < i ==> s[k].0 != epoch
}

/// Whether `j` is the first position of `l` holding progress of `actor_id`.
pub open spec fn is_first_of_actor(l: Seq<CreateMviewProgress>, actor_id: ActorId, j: int) -> bool {
    0 <= j < l.len() && l[j].backfill_actor_id == actor_id && forall|k: int|
        0 <= k < j ==> l[k].backfill_actor_id != actor_id
}

/// `l` with `p` in place of the progress of the same actor, or with `p` added.
pub open spec fn upsert_progress(l: Seq<CreateMviewProgress>, p: CreateMviewProgress) -> Seq<CreateMviewProgress> {
    if exists|j: int| is_first_of_actor(l, p.backfill_actor_id, j) {
        l.update(choose|j: int| is_first_of_actor(l, p.backfill_actor_id, j), p)
    } else {
        l.push(p)
    }
}

/// The records `s` with `p` reported for `epoch`.
pub open spec fn record_progress(
    s: Seq<(u64, Seq<CreateMviewProgress>)>,
    epoch: u64,
    p: CreateMviewProgress,
) -> Seq<(u64, Seq<CreateMviewProgress>)> {
    if exists|i: int| is_first_record(s, epoch, i) {
        let i = choose|i: int| is_first_record(s, epoch, i);
        s.update(i, (epoch, upsert_progress(s[i].1, p)))
    } else {
        s.push((epoch, seq![p]))
    }
}

impl EpochView {
    pub open spec fn prev(self) -> u64 {
        self.barrier.epoch.prev
    }
}

/// Two record sequences that hold the same record for `table_id` (or none) give it the
/// same subscribers.
pub proof fn lemma_subscribers_same(
    s1: Seq<(TableId, Set<u32>)>,
    s2: Seq<(TableId, Set<u32>)>,
    table_id: TableId,
)
    requires
        (exists|i: int| 0 <= i < s1.len() && s1[i].0 == table_id) <==> (exists|i: int|
            0 <= i < s2.len() && s2[i].0 == table_id),
        forall|i: int, j: int|
            0 <= i < s1.len() && 0 <= j < s2.len() && s1[i].0 == table_id && s2[j].0 == table_id
                ==> s1[i].1 == s2[j].1,
    ensures
        subscribers_in(s1, table_id) == subscribers_in(s2, table_id),
{
}

/// The subscribers of `table_id` among the first `n` items of `items`, given as
/// (subscriber, table) pairs.
pub open spec fn listed_subscribers(items: Seq<(u32, TableId)>, n: int, table_id: TableId) -> Set<u32> {
    Set::new(|s: u32| exists|i: int| 0 <= i < n && items[i] == (s, table_id))
}

impl GraphView {
    /// Whether each of `items` names a subscription absent from this graph and from the
    /// items before it.
    pub open spec fn all_new_subscriptions(self, items: Seq<(u32, TableId)>) -> bool {
        forall|i: int|
            0 <= i < items.len() ==> !self.subscribers(items[i].1).contains(items[i].0) && !(exists|
                j: int,
            | 0 <= j < i && items[j] == items[i])
    }

    /// Whether each of `items` names a subscription of this graph, and none is named twice.
    pub open spec fn all_present_subscriptions(self, items: Seq<(u32, TableId)>) -> bool {
        forall|i: int|
            0 <= i < items.len() ==> self.subscribers(items[i].1).contains(items[i].0) && !(exists|
                j: int,
            | 0 <= j < i && items[j] == items[i])
    }

    pub open spec fn subscribers(self, table_id: TableId) -> Set<u32> {
        subscribers_in(self.subscriptions, table_id)
    }

    /// Index of the first `Issued` entry.
    pub open spec fn boundary(self) -> int {
        (self.n_completed + self.queue.len()) as int
    }

    /// Everything of well-formedness but the blocking of the first `Issued` entry.
    pub open spec fn wf_runs(self) -> bool {
        &&& forall|i: int, j: int|
            0 <= i < j < self.entries.len() ==> self.entries[i].prev() < self.entries[j].prev()
        &&& self.boundary() <= self.entries.len()
        &&& forall|i: int| 0 <= i < self.n_completed ==> self.entries[i].status is Completed
        &&& forall|k: int|
            0 <= k < self.queue.len() ==> {
                &&& (#[trigger] self.entries[self.n_completed + k]).status is AllCollected
                &&& self.entries[self.n_completed + k].prev() == self.queue[k].prev_epoch
            }
        &&& forall|i: int|
            self.boundary() <= i < self.entries.len() ==> match (#[trigger] self.entries[i]).status {
                EpochStatus::Issued { remaining, kind, table_ids } => {
                    &&& remaining.finite()
                    &&& kind == self.entries[i].barrier.kind
                    &&& (table_ids is Some <==> kind == BarrierKind::Checkpoint)
                },
                _ => false,
            }
        &&& match self.prev_table_ids {
            None => self.entries.len() == 0,
            Some((e, _)) => forall|i: int|
                0 <= i < self.entries.len() ==> #[trigger] self.entries[i].prev() <= e.prev,
        }
    }

    /// Whether the first `Issued` entry, if any, still waits for some actor.
    pub open spec fn blocked(self) -> bool {
        self.boundary() < self.entries.len() ==> match self.entries[self.boundary()].status {
            EpochStatus::Issued { remaining, .. } => remaining != Set::<ActorId>::empty(),
            _ => false,
        }
    }

    pub open spec fn wf(self) -> bool {
        self.wf_runs() && self.blocked() && subscriptions_wf(self.subscriptions)
    }

    /// Whether the first `Issued` entry has been collected by every actor.
    pub open spec fn can_advance(self) -> bool {
        &&& self.boundary() < self.entries.len()
        &&& self.entries[self.boundary()].status matches EpochStatus::Issued { remaining, .. }
            && remaining == Set::<ActorId>::empty()
    }

    /// Moves the first `Issued` entry to `AllCollected` and enqueues its completion,
    /// with the progress recorded for its curr epoch. A barrier that needs no sync has
    /// its outcome at once.
    pub open spec fn advance(self) -> GraphView {
        let b = self.boundary();
        let e = self.entries[b];
        let (p, rest) = take_progress(self.progress, e.barrier.epoch.curr);
        GraphView {
            entries: self.entries.update(
                b,
                EpochView { barrier: e.barrier, status: EpochStatus::AllCollected },
            ),
            queue: self.queue.push(
                PendingView {
                    prev_epoch: e.prev(),
                    progress: p,
                    outcome: if e.barrier.kind == BarrierKind::Checkpoint {
                        None
                    } else {
                        Some(Ok(None))
                    },
                },
            ),
            progress: rest,
            ..self
        }
    }

    /// The sync that advancing the first `Issued` entry asks for: one for a checkpoint.
    pub open spec fn advance_sync(self) -> Seq<SyncRequestView> {
        let e = self.entries[self.boundary()];
        match e.status {
            EpochStatus::Issued { table_ids: Some(t), .. } => seq![
                SyncRequestView { prev_epoch: e.prev(), table_ids: t },
            ],
            _ => Seq::empty(),
        }
    }

    /// Advances every `Issued` entry, from the first, until one still waits for an actor.
    pub open spec fn settle(self) -> GraphView
        decreases self.entries.len() - self.boundary(),
    {
        if self.can_advance() {
            self.advance().settle()
        } else {
            self
        }
    }

    /// The syncs that `settle` asks for, in epoch order.
    pub open spec fn settle_syncs(self) -> Seq<SyncRequestView>
        decreases self.entries.len() - self.boundary(),
    {
        if self.can_advance() {
            self.advance_sync() + self.advance().settle_syncs()
        } else {
            Seq::empty()
        }
    }

    /// Whether `b` may be issued with `table_ids`: its prev epoch is past every barrier
    /// issued so far, only the first barrier is `Initial`, and a non-checkpoint barrier
    /// continues the previous one with the same tables.
    pub open spec fn can_issue(self, b: BarrierView, table_ids: Set<TableId>) -> bool {
        match self.prev_table_ids {
            None => true,
            Some((e, ids)) => {
                &&& e.prev < b.epoch.prev
                &&& b.kind != BarrierKind::Initial
                &&& b.kind == BarrierKind::Barrier ==> e.curr == b.epoch.prev && ids == table_ids
            },
        }
    }

    /// The tables a checkpoint at `b` syncs: those announced for the epochs before it,
    /// when `b` continues them, and none after a gap.
    pub open spec fn checkpoint_tables(self, b: BarrierView) -> Set<TableId> {
        match self.prev_table_ids {
            Some((e, ids)) => if e.curr == b.epoch.prev {
                ids
            } else {
                Set::empty()
            },
            None => Set::empty(),
        }
    }

    /// Appends `b` as `Issued`, to be collected by `actors`.
    pub open spec fn issue(self, b: BarrierView, actors: Set<ActorId>, table_ids: Set<TableId>) -> GraphView {
        GraphView {
            entries: self.entries.push(
                EpochView {
                    barrier: b,
                    status: EpochStatus::Issued {
                        remaining: actors,
                        kind: b.kind,
                        table_ids: if b.kind == BarrierKind::Checkpoint {
                            Some(self.checkpoint_tables(b))
                        } else {
                            None
                        },
                    },
                },
            ),
            prev_table_ids: Some((b.epoch, table_ids)),
            ..self
        }
    }

    pub open spec fn has_epoch(self, prev_epoch: u64) -> bool {
        exists|i: int| 0 <= i < self.entries.len() && self.entries[i].prev() == prev_epoch
    }

    /// The position of the entry of `prev_epoch`.
    pub open spec fn index_of(self, prev_epoch: u64) -> int {
        choose|i: int| 0 <= i < self.entries.len() && self.entries[i].prev() == prev_epoch
    }

    /// Whether `actor_id` may collect the barrier closing `epoch`: the barrier is
    /// issued at that epoch pair and still waits for the actor.
    pub open spec fn can_collect(self, actor_id: ActorId, epoch: EpochPair) -> bool {
        &&& self.has_epoch(epoch.prev)
        &&& self.entries[self.index_of(epoch.prev)].barrier.epoch.curr == epoch.curr
        &&& self.entries[self.index_of(epoch.prev)].status matches EpochStatus::Issued {
            remaining,
            ..
        } && remaining.contains(actor_id)
    }

    /// Removes `actor_id` from the actors the entry at `i` waits for.
    pub open spec fn collect_at(self, i: int, actor_id: ActorId) -> GraphView {
        let e = self.entries[i];
        GraphView {
            entries: self.entries.update(
                i,
                EpochView {
                    barrier: e.barrier,
                    status: match e.status {
                        EpochStatus::Issued { remaining, kind, table_ids } => EpochStatus::Issued {
                            remaining: remaining.remove(actor_id),
                            kind,
                            table_ids,
                        },
                        s => s,
                    },
                },
            ),
            ..self
        }
    }

    /// Whether the head of the completion queue has its outcome.
    pub open spec fn head_ready(self) -> bool {
        self.queue.len() > 0 && self.queue[0].outcome is Some
    }

    /// Moves the head of the completion queue to `Completed`.
    pub open spec fn complete_head(self) -> GraphView {
        let p = self.queue[0];
        let b = self.n_completed as int;
        GraphView {
            entries: self.entries.update(
                b,
                EpochView {
                    barrier: self.entries[b].barrier,
                    status: EpochStatus::Completed(
                        match p.outcome.unwrap() {
                            Ok(s) => Ok((s, p.progress)),
                            Err(e) => Err(e),
                        },
                    ),
                },
            ),
            n_completed: (self.n_completed + 1) as nat,
            queue: self.queue.drop_first(),
            ..self
        }
    }

    /// Drops the completed entry at `i`.
    pub open spec fn remove_at(self, i: int) -> GraphView {
        GraphView {
            entries: self.entries.remove(i),
            n_completed: (self.n_completed - 1) as nat,
            ..self
        }
    }

    /// Whether the completion of `prev_epoch` is queued and still waits for its sync.
    pub open spec fn awaiting_sync(self, prev_epoch: u64) -> bool {
        exists|k: int|
            0 <= k < self.queue.len() && self.queue[k].prev_epoch == prev_epoch
                && self.queue[k].outcome is None
    }

    /// The position of `prev_epoch` in the completion queue.
    pub open spec fn queue_index(self, prev_epoch: u64) -> int {
        choose|k: int| 0 <= k < self.queue.len() && self.queue[k].prev_epoch == prev_epoch
    }

    /// Records the outcome of the sync of queue entry `k`.
    pub open spec fn finish_sync(self, k: int, outcome: Result<SyncResult, StreamError>) -> GraphView {
        GraphView {
            queue: self.queue.update(
                k,
                PendingView {
                    outcome: Some(
                        match outcome {
                            Ok(s) => Ok(Some(s)),
                            Err(e) => Err(e),
                        },
                    ),
                    ..self.queue[k]
                },
            ),
            ..self
        }
    }
}

pub proof fn lemma_advance_wf(g: GraphView)
    requires
        g.wf_runs(),
        g.can_advance(),
    ensures
        g.advance().wf_runs(),
        g.advance().entries.len() == g.entries.len(),
        g.advance().boundary() == g.boundary() + 1,
{
    let a = g.advance();
    let b = g.boundary();
    assert forall|i: int, j: int| 0 <= i < j < a.entries.len() implies a.entries[i].prev()
        < a.entries[j].prev() by {
        assert(a.entries[i].prev() == g.entries[i].prev());
        assert(a.entries[j].prev() == g.entries[j].prev());
    }
    assert forall|k: int| 0 <= k < a.queue.len() implies {
        &&& (#[trigger] a.entries[a.n_completed + k]).status is AllCollected
        &&& a.entries[a.n_completed + k].prev() == a.queue[k].prev_epoch
    } by {
        if k < g.queue.len() {
            assert(g.entries[g.n_completed + k].status is AllCollected);
        }
    }
    assert forall|i: int| a.boundary() <= i < a.entries.len() implies match (
    #[trigger] a.entries[i]).status {
        EpochStatus::Issued { remaining, kind, table_ids } => {
            &&& remaining.finite()
            &&& kind == a.entries[i].barrier.kind
            &&& (table_ids is Some <==> kind == BarrierKind::Checkpoint)
        },
        _ => false,
    } by {
        assert(a.entries[i] == g.entries[i]);
    }
    match g.prev_table_ids {
        None => {},
        Some((e, _)) => {
            assert forall|i: int| 0 <= i < a.entries.len() implies #[trigger] a.entries[i].prev()
                <= e.prev by {
                assert(a.entries[i].prev() == g.entries[i].prev());
            }
        },
    }
}

pub proof fn lemma_settle(g: GraphView)
    requires
        g.wf_runs(),
        subscriptions_wf(g.subscriptions),
    ensures
        g.settle().wf(),
        g.settle().subscriptions == g.subscriptions,
        g.settle().entries.len() == g.entries.len(),
        g.settle().n_completed == g.n_completed,
        g.settle().prev_table_ids == g.prev_table_ids,
        g.settle().boundary() >= g.boundary(),
        g.settle().queue.subrange(0, g.queue.len() as int) == g.queue,
        forall|i: int|
            0 <= i < g.entries.len() ==> (#[trigger] g.settle().entries[i]).barrier
                == g.entries[i].barrier,
        forall|i: int|
            0 <= i < g.boundary() ==> #[trigger] g.settle().entries[i] == g.entries[i],
        forall|i: int|
            g.settle().boundary() <= i < g.entries.len() ==> #[trigger] g.settle().entries[i]
                == g.entries[i],
    decreases g.entries.len() - g.boundary(),
{
    if g.can_advance() {
        lemma_advance_wf(g);
        let a = g.advance();
        lemma_settle(a);
        assert(a.queue.subrange(0, g.queue.len() as int) == g.queue);
        assert(g.settle().queue.subrange(0, g.queue.len() as int) == a.settle().queue.subrange(
            0,
            a.queue.len() as int,
        ).subrange(0, g.queue.len() as int));
        assert forall|i: int| 0 <= i < g.entries.len() implies (
        #[trigger] g.settle().entries[i]).barrier == g.entries[i].barrier by {
            assert(a.entries[i].barrier == g.entries[i].barrier);
        }
        assert forall|i: int| 0 <= i < g.boundary() implies #[trigger] g.settle().entries[i]
            == g.entries[i] by {
            assert(a.entries[i] == g.entries[i]);
        }
    } else {
        if g.boundary() < g.entries.len() {
            assert(g.entries[g.boundary()].status is Issued);
        }
        assert(g.queue.subrange(0, g.queue.len() as int) == g.queue);
    }
}

} // verus!
