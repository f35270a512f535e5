use crate::actor::{epochs_increasing, InflightActorState};
use crate::barrier::PartialGraphId;
use crate::manager::issued_to;
use crate::barrier::{ActorId, BarrierKind, BarrierView, EpochPair, TableId};
use crate::model::{EpochStatus, GraphView};
use vstd::prelude::*;

verus! {

/// Barriers reach an actor in increasing order of prev epoch: those in flight are
/// ordered, none is past the last one issued, and `issue_barrier` accepts only a
/// barrier past that one.
pub proof fn lemma_issue_order(actor: InflightActorState)
    requires
        actor.wf(),
    ensures
        epochs_increasing(actor.inflight()),
        forall|i: int| 0 <= i < actor.inflight().len() ==> actor.inflight()[i].0 <= actor.max_issued(),
{
    actor.lemma_wf();
}

/// Over any run of issues to one actor, each admitted by `issue_barrier`'s
/// requirement (its prev epoch past the last one issued), the prev epochs strictly
/// increase: `states[k + 1]` is `states[k]` issued `barriers[k]` of graph `graphs[k]`.
pub proof fn lemma_issue_sequence(
    states: Seq<InflightActorState>,
    barriers: Seq<BarrierView>,
    graphs: Seq<PartialGraphId>,
)
    requires
        states.len() == barriers.len() + 1,
        graphs.len() == barriers.len(),
        forall|k: int|
            0 <= k < barriers.len() ==> issued_to(states[k], states[k + 1], barriers[k], graphs[k])
                && barriers[k].epoch.prev > (#[trigger] states[k]).max_issued(),
    ensures
        forall|i: int, j: int|
            0 <= i < j < barriers.len() ==> barriers[i].epoch.prev < barriers[j].epoch.prev,
    decreases barriers.len(),
{
    if barriers.len() > 0 {
        let n = barriers.len() - 1;
        lemma_issue_sequence(states.drop_last(), barriers.drop_last(), graphs.drop_last());
        assert forall|i: int, j: int| 0 <= i < j < barriers.len() implies barriers[i].epoch.prev
            < barriers[j].epoch.prev by {
            if j == n {
                if i < n - 1 {
                    assert(barriers.drop_last()[i].epoch.prev < barriers.drop_last()[n - 1].epoch.prev);
                }
                assert(states[n] == states[(n - 1) + 1]);
                assert(issued_to(states[n - 1], states[n], barriers[n - 1], graphs[n - 1]));
                assert(barriers[n].epoch.prev > states[n].max_issued());
            } else {
                assert(barriers.drop_last()[i].epoch.prev < barriers.drop_last()[j].epoch.prev);
            }
        }
    }
}

/// An actor leaves exactly when it collects the barrier that stopped it: `collect`
/// drops an actor that is stopping and collects its one barrier in flight, which is
/// so exactly when it is stopping and collects the last barrier issued to it, and no
/// barrier is issued after the one that sets it stopping.
pub proof fn lemma_actor_lifecycle(actor: InflightActorState)
    requires
        actor.wf(),
        actor.inflight().len() > 0,
    ensures
        (actor.inflight().len() == 1 && actor.stopping()) <==> (actor.stopping()
            && actor.inflight()[0].0 == actor.max_issued()),
{
    actor.lemma_wf();
    if actor.inflight()[0].0 == actor.max_issued() && actor.inflight().len() > 1 {
        let n = actor.inflight().len() - 1;
        assert(actor.inflight()[0].0 < actor.inflight()[n as int].0);
    }
}

/// When every actor has collected every barrier issued to a partial graph, nothing is
/// left hanging: each epoch has completed (and waits to be popped) or waits in the
/// completion queue for its sync outcome.
pub proof fn lemma_no_leak(g: GraphView)
    requires
        g.wf(),
        forall|i: int|
            0 <= i < g.entries.len() ==> match #[trigger] g.entries[i].status {
                EpochStatus::Issued { remaining, .. } => remaining == Set::<ActorId>::empty(),
                _ => true,
            },
    ensures
        g.entries.len() == g.n_completed + g.queue.len(),
        forall|i: int| 0 <= i < g.entries.len() ==> !(#[trigger] g.entries[i].status is Issued),
{
    if g.boundary() < g.entries.len() {
        let b = g.boundary();
        assert(g.entries[b].status is Issued);
    }
    assert forall|i: int| 0 <= i < g.entries.len() implies !(#[trigger] g.entries[i].status is Issued) by {
        if i < g.n_completed {
        } else {
            let k = i - g.n_completed;
            assert(g.entries[g.n_completed + k].status is AllCollected);
        }
    }
}

/// Whether `e` is an issued checkpoint that will sync `tables`.
pub open spec fn issued_syncing(e: crate::model::EpochView, tables: Set<TableId>) -> bool {
    e.status matches EpochStatus::Issued { table_ids: Some(t), .. } && t == tables
}

proof fn lemma_drain_empties(g: GraphView)
    requires
        g.entries.len() == g.n_completed + g.queue.len(),
        forall|k: int| 0 <= k < g.queue.len() ==> (#[trigger] g.queue[k]).outcome is Some,
    ensures
        g.drain().entries.len() == 0,
    decreases 2 * g.queue.len() + g.n_completed,
{
    if g.head_ready() {
        let h = g.complete_head();
        assert forall|k: int| 0 <= k < h.queue.len() implies (#[trigger] h.queue[k]).outcome is Some by {
            assert(h.queue[k] == g.queue[k + 1]);
        }
        lemma_drain_empties(h);
    } else if g.n_completed > 0 {
        lemma_drain_empties(g.remove_at(0));
    } else if g.queue.len() > 0 {
        assert(g.queue[0].outcome is Some);
    }
}

/// Nothing leaks from a partial graph: once every actor has collected every barrier
/// issued and every sync has its outcome, reporting completions and popping them
/// leaves no epoch behind.
pub proof fn lemma_drains_when_all_done(g: GraphView)
    requires
        g.wf(),
        forall|i: int|
            0 <= i < g.entries.len() ==> match #[trigger] g.entries[i].status {
                EpochStatus::Issued { remaining, .. } => remaining == Set::<ActorId>::empty(),
                _ => true,
            },
        forall|k: int| 0 <= k < g.queue.len() ==> (#[trigger] g.queue[k]).outcome is Some,
    ensures
        g.drain().entries.len() == 0,
{
    lemma_no_leak(g);
    lemma_drain_empties(g);
}

impl GraphView {
    /// Reports the head of the completion queue while it is ready, and pops the
    /// earliest completed epoch when it is not: what a consumer of completions does.
    pub open spec fn drain(self) -> GraphView
        decreases 2 * self.queue.len() + self.n_completed,
    {
        if self.head_ready() {
            self.complete_head().drain()
        } else if self.n_completed > 0 {
            self.remove_at(0).drain()
        } else {
            self
        }
    }

    /// Every epoch still to complete lies past `p`, and so does every barrier still to
    /// be issued.
    pub open spec fn pending_after(self, p: u64) -> bool {
        &&& forall|k: int| 0 <= k < self.queue.len() ==> p < #[trigger] self.queue[k].prev_epoch
        &&& forall|i: int|
            self.boundary() <= i < self.entries.len() ==> p < #[trigger] self.entries[i].prev()
        &&& match self.prev_table_ids {
            Some((e, _)) => p <= e.prev,
            None => false,
        }
    }
}

proof fn lemma_settle_pending_after(g: GraphView, p: u64)
    requires
        g.wf_runs(),
        g.pending_after(p),
    ensures
        g.settle().pending_after(p),
    decreases g.entries.len() - g.boundary(),
{
    if g.can_advance() {
        crate::model::lemma_advance_wf(g);
        let a = g.advance();
        assert forall|k: int| 0 <= k < a.queue.len() implies p < #[trigger] a.queue[k].prev_epoch by {
            if k == g.queue.len() {
                assert(p < g.entries[g.boundary()].prev());
            }
        }
        assert forall|i: int| a.boundary() <= i < a.entries.len() implies p < #[trigger] a.entries[i].prev() by {
            assert(a.entries[i] == g.entries[i]);
        }
        lemma_settle_pending_after(a, p);
    }
}

/// Completions of a partial graph come out in strictly increasing order of prev epoch.
///
/// Reporting a completion (`complete_head`) leaves everything still to complete past
/// the epoch reported; every other step (issuing, collecting, recording a sync outcome,
/// popping) keeps that so; and the next completion reported is then past it.
pub proof fn lemma_completion_order(g: GraphView)
    requires
        g.wf(),
        g.head_ready(),
    ensures
        g.complete_head().pending_after(g.queue[0].prev_epoch),
{
    let p = g.queue[0].prev_epoch;
    let h = g.complete_head();
    let n = g.n_completed;
    assert(g.entries[n + 0int].status is AllCollected);
    assert forall|k: int| 0 <= k < h.queue.len() implies p < #[trigger] h.queue[k].prev_epoch by {
        assert(g.entries[n + 0int].prev() == p);
        assert(g.entries[n + (k + 1)].prev() == g.queue[k + 1].prev_epoch);
    }
    assert forall|i: int| h.boundary() <= i < h.entries.len() implies p < #[trigger] h.entries[i].prev() by {
        assert(h.entries[i] == g.entries[i]);
        assert(g.entries[n + 0int].prev() < g.entries[i].prev());
    }
    match g.prev_table_ids {
        Some((e, _)) => {
            assert(g.entries[n + 0int].prev() <= e.prev);
        },
        None => {},
    }
}

/// The next completion reported lies past any bound that everything pending lies past.
pub proof fn lemma_next_completion_after(g: GraphView, p: u64)
    requires
        g.wf(),
        g.pending_after(p),
        g.head_ready(),
    ensures
        p < g.queue[0].prev_epoch,
{
}

/// Issuing a barrier (which `can_issue` admits) keeps everything pending past `p`.
pub proof fn lemma_issue_keeps_order(g: GraphView, b: BarrierView, actors: Set<ActorId>, tables: Set<TableId>, p: u64)
    requires
        g.wf(),
        g.pending_after(p),
        g.can_issue(b, tables),
        actors.finite(),
    ensures
        g.issue(b, actors, tables).settle().pending_after(p),
{
    let h = g.issue(b, actors, tables);
    assert forall|i: int, j: int| 0 <= i < j < h.entries.len() implies h.entries[i].prev() < h.entries[j].prev() by {
        if j == g.entries.len() {
            match g.prev_table_ids {
                Some((e, _)) => {
                    assert(g.entries[i].prev() <= e.prev);
                },
                None => {},
            }
        }
    }
    assert forall|k: int| 0 <= k < h.queue.len() implies {
        &&& (#[trigger] h.entries[h.n_completed + k]).status is AllCollected
        &&& h.entries[h.n_completed + k].prev() == h.queue[k].prev_epoch
    } by {
        assert(g.entries[g.n_completed + k].status is AllCollected);
    }
    assert forall|i: int| h.boundary() <= i < h.entries.len() implies match (
    #[trigger] h.entries[i]).status {
        EpochStatus::Issued { remaining, kind, table_ids } => {
            &&& remaining.finite()
            &&& kind == h.entries[i].barrier.kind
            &&& (table_ids is Some <==> kind == BarrierKind::Checkpoint)
        },
        _ => false,
    } by {
        if i < g.entries.len() {
            assert(h.entries[i] == g.entries[i]);
        }
    }
    assert forall|i: int| 0 <= i < h.entries.len() implies #[trigger] h.entries[i].prev() <= b.epoch.prev by {
        if i < g.entries.len() {
            match g.prev_table_ids {
                Some((e, _)) => {
                    assert(g.entries[i].prev() <= e.prev);
                },
                None => {},
            }
        }
    }
    assert forall|i: int| h.boundary() <= i < h.entries.len() implies p < #[trigger] h.entries[i].prev() by {
        if i == g.entries.len() {
            match g.prev_table_ids {
                Some((e, _)) => {},
                None => {},
            }
        } else {
            assert(h.entries[i] == g.entries[i]);
        }
    }
    lemma_settle_pending_after(h, p);
}

/// Collecting a barrier keeps everything pending past `p`.
pub proof fn lemma_collect_keeps_order(g: GraphView, actor_id: ActorId, epoch: EpochPair, p: u64)
    requires
        g.wf(),
        g.pending_after(p),
        g.can_collect(actor_id, epoch),
    ensures
        g.collect_at(g.index_of(epoch.prev), actor_id).settle().pending_after(p),
{
    let i = g.index_of(epoch.prev);
    let h = g.collect_at(i, actor_id);
    assert(i >= g.boundary()) by {
        if i < g.n_completed {
            assert(g.entries[i].status is Completed);
        } else if i < g.boundary() {
            let k = i - g.n_completed;
            assert(g.entries[g.n_completed + k].status is AllCollected);
        }
    }
    assert forall|k: int| 0 <= k < h.queue.len() implies {
        &&& (#[trigger] h.entries[h.n_completed + k]).status is AllCollected
        &&& h.entries[h.n_completed + k].prev() == h.queue[k].prev_epoch
    } by {
        assert(g.entries[g.n_completed + k].status is AllCollected);
    }
    assert forall|j: int| h.boundary() <= j < h.entries.len() implies match (
    #[trigger] h.entries[j]).status {
        EpochStatus::Issued { remaining, kind, table_ids } => {
            &&& remaining.finite()
            &&& kind == h.entries[j].barrier.kind
            &&& (table_ids is Some <==> kind == BarrierKind::Checkpoint)
        },
        _ => false,
    } by {
        assert(g.entries[j].status is Issued);
    }
    match h.prev_table_ids {
        Some((e, _)) => {
            assert forall|j: int| 0 <= j < h.entries.len() implies #[trigger] h.entries[j].prev() <= e.prev by {
                assert(g.entries[j].prev() <= e.prev);
            }
        },
        None => {},
    }
    assert forall|j: int| h.boundary() <= j < h.entries.len() implies p < #[trigger] h.entries[j].prev() by {
        assert(h.entries[j].prev() == g.entries[j].prev());
    }
    lemma_settle_pending_after(h, p);
}

/// Reporting a completion, recording a sync outcome and popping a completed epoch each
/// keep everything pending past `p`.
pub proof fn lemma_other_steps_keep_order(g: GraphView, p: u64, k: int, i: int, outcome: Result<crate::barrier::SyncResult, crate::barrier::StreamError>)
    requires
        g.wf(),
        g.pending_after(p),
    ensures
        g.head_ready() ==> g.complete_head().pending_after(p),
        0 <= k < g.queue.len() ==> g.finish_sync(k, outcome).pending_after(p),
        0 <= i < g.n_completed ==> g.remove_at(i).pending_after(p),
{
    if g.head_ready() {
        let h = g.complete_head();
        assert forall|j: int| h.boundary() <= j < h.entries.len() implies p < #[trigger] h.entries[j].prev() by {
            assert(h.entries[j] == g.entries[j]);
        }
    }
    if 0 <= i < g.n_completed {
        let h = g.remove_at(i);
        assert forall|j: int| h.boundary() <= j < h.entries.len() implies p < #[trigger] h.entries[j].prev() by {
            assert(h.entries[j] == g.entries[j + 1]);
        }
    }
}

/// The syncs that settling a graph asks for each carry the tables recorded, when the
/// checkpoint was issued, for its epoch.
proof fn lemma_settle_sync_tables(g: GraphView)
    requires
        g.wf_runs(),
    ensures
        forall|k: int|
            0 <= k < g.settle_syncs().len() ==> exists|i: int|
                g.boundary() <= i < g.entries.len() && (#[trigger] g.settle_syncs()[k]).prev_epoch
                    == g.entries[i].prev() && issued_syncing(g.entries[i], g.settle_syncs()[k].table_ids),
    decreases g.entries.len() - g.boundary(),
{
    if g.can_advance() {
        crate::model::lemma_advance_wf(g);
        let a = g.advance();
        lemma_settle_sync_tables(a);
        let b = g.boundary();
        assert forall|k: int| 0 <= k < g.settle_syncs().len() implies exists|i: int|
            g.boundary() <= i < g.entries.len() && (#[trigger] g.settle_syncs()[k]).prev_epoch
                == g.entries[i].prev() && issued_syncing(g.entries[i], g.settle_syncs()[k].table_ids) by {
            let first = g.advance_sync();
            if k < first.len() {
                assert(g.settle_syncs()[k] == first[k]);
            } else {
                assert(g.settle_syncs()[k] == a.settle_syncs()[k - first.len()]);
                let i = choose|i: int|
                    a.boundary() <= i < a.entries.len() && a.settle_syncs()[k - first.len()].prev_epoch
                        == a.entries[i].prev() && issued_syncing(a.entries[i], a.settle_syncs()[k - first.len()].table_ids);
                assert(a.entries[i] == g.entries[i]);
            }
        }
    }
}

/// A checkpoint syncs the tables announced for the epochs before it, not those it
/// announces itself: when it continues the previous barrier, the sync asked for its
/// epoch carries the previous barrier's tables.
pub proof fn lemma_checkpoint_sync_scope(
    g: GraphView,
    b: BarrierView,
    actors: Set<ActorId>,
    tables: Set<TableId>,
    prev: EpochPair,
    prev_tables: Set<TableId>,
)
    requires
        g.wf(),
        g.can_issue(b, tables),
        actors.finite(),
        b.kind == BarrierKind::Checkpoint,
        g.prev_table_ids == Some((prev, prev_tables)),
        prev.curr == b.epoch.prev,
    ensures
        forall|k: int|
            0 <= k < g.issue(b, actors, tables).settle_syncs().len()
                && (#[trigger] g.issue(b, actors, tables).settle_syncs()[k]).prev_epoch == b.epoch.prev
                ==> g.issue(b, actors, tables).settle_syncs()[k].table_ids == prev_tables,
{
    let h = g.issue(b, actors, tables);
    assert forall|i: int, j: int| 0 <= i < j < h.entries.len() implies h.entries[i].prev() < h.entries[j].prev() by {
        if j == g.entries.len() {
            assert(g.entries[i].prev() <= prev.prev);
        }
    }
    assert forall|k: int| 0 <= k < h.queue.len() implies {
        &&& (#[trigger] h.entries[h.n_completed + k]).status is AllCollected
        &&& h.entries[h.n_completed + k].prev() == h.queue[k].prev_epoch
    } by {
        assert(g.entries[g.n_completed + k].status is AllCollected);
    }
    assert forall|i: int| h.boundary() <= i < h.entries.len() implies match (
    #[trigger] h.entries[i]).status {
        EpochStatus::Issued { remaining, kind, table_ids } => {
            &&& remaining.finite()
            &&& kind == h.entries[i].barrier.kind
            &&& (table_ids is Some <==> kind == BarrierKind::Checkpoint)
        },
        _ => false,
    } by {
        if i < g.entries.len() {
            assert(h.entries[i] == g.entries[i]);
        }
    }
    assert forall|i: int| 0 <= i < h.entries.len() implies #[trigger] h.entries[i].prev() <= b.epoch.prev by {
        if i < g.entries.len() {
            assert(g.entries[i].prev() <= prev.prev);
        }
    }
    lemma_settle_sync_tables(h);
    assert forall|k: int| 0 <= k < h.settle_syncs().len() && (#[trigger] h.settle_syncs()[k]).prev_epoch == b.epoch.prev
        implies h.settle_syncs()[k].table_ids == prev_tables by {
        let i = choose|i: int|
            h.boundary() <= i < h.entries.len() && h.settle_syncs()[k].prev_epoch == h.entries[i].prev()
                && issued_syncing(h.entries[i], h.settle_syncs()[k].table_ids);
        if i < g.entries.len() {
            assert(g.entries[i].prev() <= prev.prev);
        }
        assert(i == g.entries.len());
    }
}

} // verus!
