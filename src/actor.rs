use crate::barrier::{ActorId, Barrier, BarrierView, EpochPair, PartialGraphId, StreamError};
use crate::task::{abort_task, send_barrier};
use tokio::sync::mpsc::UnboundedSender;
use tokio::task::JoinHandle;
use vstd::prelude::*;

verus! {

/// Whether the keys (prev epochs) of `s` strictly increase.
pub open spec fn epochs_increasing(s: Seq<(u64, PartialGraphId)>) -> bool {
    forall|i: int, j: int| 0 <= i < j < s.len() ==> s[i].0 < s[j].0
}

pub enum InflightActorStatus {
    /// The actor has been issued barriers but has not collected the first one yet;
    /// these barriers are replayed to a sender registered in this state.
    IssuedFirst(Vec<Barrier>),
    /// The actor has collected its first barrier; holds the prev epoch of the last
    /// barrier issued to it.
    Running(u64),
}

impl InflightActorStatus {
    /// The prev epoch of the last barrier issued to the actor.
    pub open spec fn max_issued_spec(&self) -> u64 {
        match self {
            InflightActorStatus::Running(epoch) => *epoch,
            InflightActorStatus::IssuedFirst(barriers) => barriers@.last().epoch.prev,
        }
    }

    pub fn max_issued_epoch(&self) -> (r: u64)
        requires
            match self {
                InflightActorStatus::IssuedFirst(barriers) => barriers@.len() > 0,
                InflightActorStatus::Running(_) => true,
            },
        ensures
            r == self.max_issued_spec(),
    {
        match self {
            InflightActorStatus::Running(epoch) => *epoch,
            InflightActorStatus::IssuedFirst(barriers) => barriers[barriers.len() - 1].epoch.prev,
        }
    }
}

/// The barrier bookkeeping of one actor.
pub struct InflightActorState {
    actor_id: ActorId,
    barrier_senders: Vec<UnboundedSender<Barrier>>,
    /// Barriers issued and not collected yet: prev epoch and partial graph, by prev epoch.
    inflight_barriers: Vec<(u64, PartialGraphId)>,
    status: InflightActorStatus,
    /// Whether the actor has been issued its stop barrier.
    is_stopping: bool,
    join_handle: JoinHandle<()>,
    monitor_task_handle: Option<JoinHandle<()>>,
}

impl InflightActorState {
    pub closed spec fn id(&self) -> ActorId {
        self.actor_id
    }

    /// Issued and not yet collected barriers, as (prev epoch, partial graph), in
    /// increasing prev epoch.
    pub closed spec fn inflight(&self) -> Seq<(u64, PartialGraphId)> {
        self.inflight_barriers@
    }

    /// The prev epoch of the last barrier issued to the actor.
    pub closed spec fn max_issued(&self) -> u64 {
        self.status.max_issued_spec()
    }

    /// Whether the actor has collected a barrier since it started.
    pub closed spec fn running(&self) -> bool {
        self.status is Running
    }

    /// The barriers a newly registered sender is replayed (empty once running).
    pub closed spec fn pending(&self) -> Seq<BarrierView> {
        match self.status {
            InflightActorStatus::IssuedFirst(barriers) => barriers@.map_values(|b: Barrier| b@),
            InflightActorStatus::Running(_) => Seq::empty(),
        }
    }

    pub closed spec fn stopping(&self) -> bool {
        self.is_stopping
    }

    pub closed spec fn sender_count(&self) -> nat {
        self.barrier_senders@.len()
    }

    pub closed spec fn wf(&self) -> bool {
        &&& epochs_increasing(self.inflight_barriers@)
        &&& forall|i: int|
            0 <= i < self.inflight_barriers@.len() ==> self.inflight_barriers@[i].0
                <= self.max_issued()
        &&& self.inflight_barriers@.len() > 0 ==> self.inflight_barriers@.last().0 == self.max_issued()
        &&& match self.status {
            InflightActorStatus::IssuedFirst(barriers) => {
                &&& barriers@.len() > 0
                &&& barriers@.len() == self.inflight_barriers@.len()
                &&& forall|i: int|
                    0 <= i < barriers@.len() ==> (#[trigger] barriers@[i]).epoch.prev
                        == self.inflight_barriers@[i].0 && barriers@[i].wf()
            },
            InflightActorStatus::Running(_) => true,
        }
    }

    pub proof fn lemma_wf(&self)
        requires
            self.wf(),
        ensures
            epochs_increasing(self.inflight()),
            forall|i: int| 0 <= i < self.inflight().len() ==> self.inflight()[i].0 <= self.max_issued(),
            self.inflight().len() > 0 ==> self.inflight().last().0 == self.max_issued(),
            !self.running() ==> self.inflight().len() > 0,
    {
    }

    /// The state of an actor just spawned at `initial_barrier`.
    pub fn start(
        actor_id: ActorId,
        initial_partial_graph_id: PartialGraphId,
        initial_barrier: &Barrier,
        join_handle: JoinHandle<()>,
        monitor_task_handle: Option<JoinHandle<()>>,
    ) -> (r: InflightActorState)
        requires
            initial_barrier.wf(),
        ensures
            r.wf(),
            r.id() == actor_id,
            r.inflight() == seq![(initial_barrier.epoch.prev, initial_partial_graph_id)],
            !r.running(),
            r.pending() == seq![initial_barrier@],
            r.max_issued() == initial_barrier.epoch.prev,
            !r.stopping(),
            r.sender_count() == 0,
    {
        let mut inflight_barriers: Vec<(u64, PartialGraphId)> = Vec::new();
        inflight_barriers.push((initial_barrier.epoch.prev, initial_partial_graph_id));
        let mut pending: Vec<Barrier> = Vec::new();
        pending.push(initial_barrier.duplicate());
        let r = InflightActorState {
            actor_id,
            barrier_senders: Vec::new(),
            inflight_barriers,
            status: InflightActorStatus::IssuedFirst(pending),
            is_stopping: false,
            join_handle,
            monitor_task_handle,
        };
        assert(r.pending() =~= seq![initial_barrier@]);
        r
    }

    /// Pushes `barrier` to every registered sender and records it as in flight.
    ///
    /// Fails, with the actor's state as it was, when a sender's receiver is closed.
    pub fn issue_barrier(
        &mut self,
        partial_graph_id: PartialGraphId,
        barrier: &Barrier,
        is_stop: bool,
    ) -> (r: Result<(), StreamError>)
        requires
            old(self).wf(),
            barrier.wf(),
            barrier.epoch.prev > old(self).max_issued(),
            !old(self).stopping(),
        ensures
            final(self).wf(),
            final(self).id() == old(self).id(),
            final(self).sender_count() == old(self).sender_count(),
            final(self).running() == old(self).running(),
            old(self).sender_count() == 0 ==> r is Ok,
            match r {
                Ok(()) => {
                    &&& final(self).inflight() == old(self).inflight().push(
                        (barrier.epoch.prev, partial_graph_id),
                    )
                    &&& final(self).max_issued() == barrier.epoch.prev
                    &&& final(self).stopping() == is_stop
                    &&& final(self).pending() == if old(self).running() {
                        Seq::empty()
                    } else {
                        old(self).pending().push(barrier@)
                    }
                },
                Err(e) => {
                    &&& e == StreamError::BarrierSend {
                        actor_id: old(self).id(),
                        epoch: barrier.epoch,
                    }
                    &&& final(self).inflight() == old(self).inflight()
                    &&& final(self).max_issued() == old(self).max_issued()
                    &&& final(self).stopping() == old(self).stopping()
                    &&& final(self).pending() == old(self).pending()
                },
            },
    {
        let mut i: usize = 0;
        while i < self.barrier_senders.len()
            invariant
                i <= self.barrier_senders@.len(),
                barrier.wf(),
                self.wf(),
                *self == *old(self),
            decreases self.barrier_senders@.len() - i,
        {
            if !send_barrier(&self.barrier_senders[i], barrier.duplicate()) {
                return Err(StreamError::BarrierSend { actor_id: self.actor_id, epoch: barrier.epoch });
            }
            i = i + 1;
        }
        let ghost before = self.inflight_barriers@;
        self.inflight_barriers.push((barrier.epoch.prev, partial_graph_id));
        match &mut self.status {
            InflightActorStatus::IssuedFirst(pending_barriers) => {
                let ghost pb = pending_barriers@;
                pending_barriers.push(barrier.duplicate());
                assert(pending_barriers@.map_values(|b: Barrier| b@) =~= pb.map_values(
                    |b: Barrier| b@,
                ).push(barrier@));
            },
            InflightActorStatus::Running(prev_epoch) => {
                *prev_epoch = barrier.epoch.prev;
            },
        }
        if is_stop {
            self.is_stopping = true;
        }
        assert(epochs_increasing(self.inflight_barriers@)) by {
            assert forall|a: int, b: int|
                0 <= a < b < self.inflight_barriers@.len() implies self.inflight_barriers@[a].0
                < self.inflight_barriers@[b].0 by {
                if b == before.len() {
                    assert(before[a].0 <= old(self).max_issued());
                }
            }
        }
        Ok(())
    }

    /// Collects the earliest barrier in flight, which must be at `epoch`. Returns its
    /// partial graph, and whether the actor is finished: stopping with nothing in flight.
    pub fn collect(&mut self, epoch: EpochPair) -> (r: (PartialGraphId, bool))
        requires
            old(self).wf(),
            old(self).inflight().len() > 0,
            old(self).inflight()[0].0 == epoch.prev,
        ensures
            final(self).wf(),
            final(self).id() == old(self).id(),
            final(self).sender_count() == old(self).sender_count(),
            final(self).inflight() == old(self).inflight().drop_first(),
            final(self).running(),
            final(self).pending() == Seq::<BarrierView>::empty(),
            final(self).max_issued() == old(self).max_issued(),
            final(self).stopping() == old(self).stopping(),
            r.0 == old(self).inflight()[0].1,
            r.1 == (final(self).inflight().len() == 0 && old(self).stopping()),
    {
        let (_prev_epoch, prev_partial_graph_id) = self.inflight_barriers.remove(0);
        let max_issued = self.status.max_issued_epoch();
        self.status = InflightActorStatus::Running(max_issued);
        assert(self.inflight_barriers@ =~= old(self).inflight().drop_first());
        assert(self.pending() =~= Seq::<BarrierView>::empty());
        assert forall|i: int| 0 <= i < self.inflight_barriers@.len() implies self.inflight_barriers@[i].0 <= self.max_issued() by {
            assert(old(self).inflight()[i + 1].0 <= old(self).max_issued());
        }
        (prev_partial_graph_id, self.inflight_barriers.len() == 0 && self.is_stopping)
    }

    pub fn actor_id(&self) -> (r: ActorId)
        ensures
            r == self.id(),
    {
        self.actor_id
    }

    /// The earliest barrier in flight, if any.
    pub fn first_inflight(&self) -> (r: Option<(u64, PartialGraphId)>)
        ensures
            match r {
                Some(b) => self.inflight().len() > 0 && b == self.inflight()[0],
                None => self.inflight().len() == 0,
            },
    {
        if self.inflight_barriers.len() == 0 {
            None
        } else {
            Some(self.inflight_barriers[0])
        }
    }

    /// The prev epoch of the last barrier issued to the actor.
    pub fn max_issued_epoch(&self) -> (r: u64)
        requires
            self.wf(),
        ensures
            r == self.max_issued(),
    {
        self.status.max_issued_epoch()
    }

    pub fn is_stopping(&self) -> (r: bool)
        ensures
            r == self.stopping(),
    {
        self.is_stopping
    }

    pub fn is_running(&self) -> (r: bool)
        ensures
            r == self.running(),
    {
        match &self.status {
            InflightActorStatus::Running(_) => true,
            InflightActorStatus::IssuedFirst(_) => false,
        }
    }

    /// Registers a new channel into the actor and replays the barriers issued so far.
    ///
    /// Only an actor that has not collected a barrier yet can take a new sender. Fails,
    /// keeping the senders it had, when the new channel is closed.
    pub fn register_barrier_sender(&mut self, tx: UnboundedSender<Barrier>) -> (r: Result<
        (),
        StreamError,
    >)
        requires
            old(self).wf(),
            !old(self).running(),
        ensures
            final(self).wf(),
            final(self).id() == old(self).id(),
            final(self).inflight() == old(self).inflight(),
            final(self).running() == old(self).running(),
            final(self).pending() == old(self).pending(),
            final(self).max_issued() == old(self).max_issued(),
            final(self).stopping() == old(self).stopping(),
            match r {
                Ok(()) => final(self).sender_count() == old(self).sender_count() + 1,
                Err(e) => {
                    &&& final(self).sender_count() == old(self).sender_count()
                    &&& exists|i: int|
                        0 <= i < old(self).pending().len() && e == (StreamError::BarrierSend {
                            actor_id: old(self).id(),
                            epoch: #[trigger] old(self).pending()[i].epoch,
                        })
                },
            },
    {
        match &self.status {
            InflightActorStatus::IssuedFirst(pending_barriers) => {
                let mut i: usize = 0;
                while i < pending_barriers.len()
                    invariant
                        i <= pending_barriers@.len(),
                        self.wf(),
                        *self == *old(self),
                        self.status == InflightActorStatus::IssuedFirst(*pending_barriers),
                    decreases pending_barriers@.len() - i,
                {
                    if !send_barrier(&tx, pending_barriers[i].duplicate()) {
                        let e = StreamError::BarrierSend {
                            actor_id: self.actor_id,
                            epoch: pending_barriers[i].epoch,
                        };
                        assert(self.pending()[i as int] == pending_barriers@[i as int]@);
                        assert(e == StreamError::BarrierSend {
                            actor_id: old(self).id(),
                            epoch: old(self).pending()[i as int].epoch,
                        });
                        return Err(e);
                    }
                    i = i + 1;
                }
            },
            InflightActorStatus::Running(_) => {},
        }
        self.barrier_senders.push(tx);
        Ok(())
    }

    /// Cancels the actor's monitor task, if it has one.
    pub fn abort_monitor_task(&self) {
        match &self.monitor_task_handle {
            Some(handle) => abort_task(handle),
            None => {},
        }
    }

    /// Cancels the actor's task and its monitor task, and hands back the actor's task
    /// handle so that its end can be awaited.
    pub fn abort(self) -> (r: JoinHandle<()>) {
        abort_task(&self.join_handle);
        self.abort_monitor_task();
        self.join_handle
    }
}

} // verus!
