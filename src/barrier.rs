use crate::id_set::IdSet;
use std::sync::Arc;
use vstd::prelude::*;

verus! {

/// Identifier of an actor (one running operator instance).
pub type ActorId = u32;

/// Identifier of a partial graph: a set of actors scheduled on one epoch timeline.
pub type PartialGraphId = u32;

/// Identifier of a state table.
pub type TableId = u32;

/// The epoch range a barrier closes: the epoch before it and the epoch after it.
#[derive(Clone, Copy, Debug, PartialEq, Eq, Structural)]
pub struct EpochPair {
    pub curr: u64,
    pub prev: u64,
}

impl EpochPair {
    pub fn new(curr: u64, prev: u64) -> (r: EpochPair)
        ensures
            r.curr == curr,
            r.prev == prev,
    {
        EpochPair { curr, prev }
    }
}

#[derive(Clone, Copy, Debug, PartialEq, Eq, Structural)]
pub enum BarrierKind {
    /// The first barrier of a partial graph's lifetime.
    Initial,
    /// A barrier that triggers no state-store sync.
    Barrier,
    /// A barrier that syncs the state store.
    Checkpoint,
}

/// A reconfiguration attached to a barrier. The barrier manager passes it along and
/// never reads or changes it.
#[derive(Debug)]
pub struct Mutation {
    pub payload: Vec<u8>,
}

/// An epoch marker injected into the dataflow.
pub struct Barrier {
    pub epoch: EpochPair,
    pub kind: BarrierKind,
    pub mutation: Option<Arc<Mutation>>,
    /// Actors whose lifetime ends at this barrier.
    pub stop_actors: Option<IdSet>,
}

/// A barrier as the contracts see it.
pub struct BarrierView {
    pub epoch: EpochPair,
    pub kind: BarrierKind,
    pub mutation: Option<Arc<Mutation>>,
    pub stop_actors: Option<Set<ActorId>>,
}

impl View for Barrier {
    type V = BarrierView;

    open spec fn view(&self) -> BarrierView {
        BarrierView {
            epoch: self.epoch,
            kind: self.kind,
            mutation: self.mutation,
            stop_actors: match self.stop_actors {
                Some(s) => Some(s@),
                None => None,
            },
        }
    }
}

impl BarrierView {
    /// Whether this barrier ends the lifetime of `actor_id`.
    pub open spec fn stops(self, actor_id: ActorId) -> bool {
        match self.stop_actors {
            Some(s) => s.contains(actor_id),
            None => false,
        }
    }
}

impl Barrier {
    pub open spec fn wf(&self) -> bool {
        match self.stop_actors {
            Some(s) => s.wf(),
            None => true,
        }
    }

    pub fn new(epoch: EpochPair, kind: BarrierKind) -> (r: Barrier)
        ensures
            r.wf(),
            r.epoch == epoch,
            r.kind == kind,
            r.stop_actors.is_none(),
            r.mutation.is_none(),
    {
        Barrier { epoch, kind, mutation: None, stop_actors: None }
    }

    /// Whether this barrier ends the lifetime of `actor_id`.
    pub fn is_stop_actor(&self, actor_id: ActorId) -> (r: bool)
        requires
            self.wf(),
        ensures
            r == self@.stops(actor_id),
    {
        match &self.stop_actors {
            Some(s) => s.contains(actor_id),
            None => false,
        }
    }

    /// A copy of this barrier that shares its mutation.
    pub fn duplicate(&self) -> (r: Barrier)
        requires
            self.wf(),
        ensures
            r.wf(),
            r@ == self@,
            r.mutation == self.mutation,
    {
        let stop_actors = match &self.stop_actors {
            Some(s) => Some(s.clone_set()),
            None => None,
        };
        let mutation = match &self.mutation {
            Some(m) => Some(Arc::clone(m)),
            None => None,
        };
        Barrier { epoch: self.epoch, kind: self.kind, mutation, stop_actors }
    }
}

/// The outcome of a state-store sync.
#[derive(Clone, Copy, Debug, PartialEq, Eq, Structural)]
pub struct SyncResult {
    /// Bytes written by the sync.
    pub sync_size: u64,
}

/// Progress of one actor that backfills a materialized view, as reported with a
/// completed epoch.
#[derive(Clone, Copy, Debug, PartialEq, Eq, Structural)]
pub struct CreateMviewProgress {
    pub backfill_actor_id: ActorId,
    pub done: bool,
    pub consumed_epoch: u64,
    pub consumed_rows: u64,
}

/// Errors of the barrier manager.
#[derive(Debug, PartialEq, Eq)]
pub enum StreamError {
    /// A barrier could not be pushed into an actor's channel: the actor is gone.
    BarrierSend { actor_id: ActorId, epoch: EpochPair },
    /// No state is kept for the epoch; it may have been cleared by a recovery.
    EpochNotFound { prev_epoch: u64 },
    /// No partial graph has this id.
    PartialGraphNotFound { partial_graph_id: PartialGraphId },
    /// The state-store sync of a checkpoint failed.
    SyncFailed { prev_epoch: u64, message: String },
}

/// What a completed epoch hands back: the sync outcome (none for a barrier that needs
/// no sync) and the backfill progress reported for the epoch.
pub struct BarrierCompleteResult {
    pub sync_result: Option<SyncResult>,
    pub create_mview_progress: Vec<CreateMviewProgress>,
}

} // verus!
