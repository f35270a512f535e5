use crate::actor::InflightActorState;
use crate::barrier::{ActorId, Barrier, BarrierView, EpochPair, PartialGraphId, StreamError, TableId};
use crate::id_set::IdSet;
use crate::graph::{
    debug_info_of, subscription_pairs, EpochDebugInfo, sync_views, PartialGraphManagedBarrierState, SubscriptionUpstreamInfo,
    SyncRequest,
};
use crate::keyed::{
    has_key, index_of_key, keyed_map, keys_unique, lemma_keyed_index, lemma_keyed_push,
    lemma_keyed_remove, lemma_keyed_update,
};
use crate::model::{listed_subscribers, GraphView};
use tokio::sync::mpsc::UnboundedSender;
use tokio::task::JoinHandle;
use vstd::prelude::*;

verus! {

/// A partial graph that exists from the start, with its subscriptions.
pub struct InitialPartialGraph {
    pub partial_graph_id: PartialGraphId,
    pub subscriptions: Vec<SubscriptionUpstreamInfo>,
}

/// An actor spawned for a barrier, with the handles of its tasks.
pub struct SpawnedActor {
    pub actor_id: ActorId,
    pub join_handle: JoinHandle<()>,
    pub monitor_task_handle: Option<JoinHandle<()>>,
}

pub open spec fn spawned_ids(s: Seq<SpawnedActor>) -> Seq<ActorId> {
    s.map_values(|a: SpawnedActor| a.actor_id)
}

/// Whether `after` is `before` issued the barrier `b` of partial graph `g`.
pub open spec fn issued_to(
    before: InflightActorState,
    after: InflightActorState,
    b: BarrierView,
    g: PartialGraphId,
) -> bool {
    &&& after.wf()
    &&& after.id() == before.id()
    &&& after.inflight() == before.inflight().push((b.epoch.prev, g))
    &&& after.max_issued() == b.epoch.prev
    &&& after.stopping() == b.stops(before.id())
    &&& after.running() == before.running()
    &&& after.sender_count() == before.sender_count()
    &&& after.pending() == if before.running() {
        Seq::empty()
    } else {
        before.pending().push(b)
    }
}

/// Whether `after` reads as `before` does.
pub open spec fn same_state(before: InflightActorState, after: InflightActorState) -> bool {
    &&& after.wf()
    &&& after.id() == before.id()
    &&& after.inflight() == before.inflight()
    &&& after.max_issued() == before.max_issued()
    &&& after.stopping() == before.stopping()
    &&& after.running() == before.running()
    &&& after.sender_count() == before.sender_count()
    &&& after.pending() == before.pending()
}

/// Whether `after` is the state of actor `id` just started at barrier `b` of `g`.
pub open spec fn started_at(
    after: InflightActorState,
    id: ActorId,
    b: BarrierView,
    g: PartialGraphId,
) -> bool {
    &&& after.wf()
    &&& after.id() == id
    &&& after.inflight() == seq![(b.epoch.prev, g)]
    &&& !after.running()
    &&& after.pending() == seq![b]
    &&& after.max_issued() == b.epoch.prev
    &&& !after.stopping()
    &&& after.sender_count() == 0
}

/// A completion reported by `next_completed_epoch`.
pub struct CompletedEpoch {
    pub partial_graph_id: PartialGraphId,
    pub prev_epoch: u64,
    /// The actors the completed barrier stopped, to be dropped.
    pub stop_actors: Option<IdSet>,
}

struct GraphSlot {
    partial_graph_id: PartialGraphId,
    state: PartialGraphManagedBarrierState,
}

pub open spec fn actor_key() -> spec_fn(InflightActorState) -> u32 {
    |a: InflightActorState| a.id()
}

spec fn slot_key() -> spec_fn(GraphSlot) -> u32 {
    |s: GraphSlot| s.partial_graph_id
}

/// The barrier bookkeeping of a node: every actor and every partial graph.
pub struct ManagedBarrierState {
    actor_states: Vec<InflightActorState>,
    graph_states: Vec<GraphSlot>,
}

impl ManagedBarrierState {
    /// The actors, by id.
    pub closed spec fn actors(&self) -> Map<ActorId, InflightActorState> {
        keyed_map(self.actor_states@, actor_key())
    }

    /// The partial graphs, by id.
    pub closed spec fn graphs(&self) -> Map<PartialGraphId, GraphView> {
        keyed_map(self.graph_states@, slot_key()).map_values(|s: GraphSlot| s.state@)
    }

    /// The partial graphs in the order they are polled for completions.
    pub closed spec fn graph_order(&self) -> Seq<PartialGraphId> {
        self.graph_states@.map_values(|s: GraphSlot| s.partial_graph_id)
    }

    pub closed spec fn wf(&self) -> bool {
        &&& keys_unique(self.actor_states@, actor_key())
        &&& forall|i: int|
            0 <= i < self.actor_states@.len() ==> (#[trigger] self.actor_states@[i]).wf()
        &&& keys_unique(self.graph_states@, slot_key())
        &&& forall|i: int|
            0 <= i < self.graph_states@.len() ==> (#[trigger] self.graph_states@[i]).state.wf()
    }

    pub proof fn lemma_wf(&self)
        requires
            self.wf(),
        ensures
            forall|a: ActorId| #[trigger] self.actors().contains_key(a) ==> self.actors()[a].wf() && self.actors()[a].id() == a,
            forall|g: PartialGraphId| #[trigger] self.graphs().contains_key(g) ==> self.graphs()[g].wf(),
            forall|g: PartialGraphId| self.graphs().contains_key(g) <==> self.graph_order().contains(g),
    {
        assert forall|a: ActorId| #[trigger] self.actors().contains_key(a) implies self.actors()[a].wf() && self.actors()[a].id() == a by {
            let i = index_of_key(self.actor_states@, actor_key(), a);
            lemma_keyed_index(self.actor_states@, actor_key(), i);
        }
        assert forall|g: PartialGraphId| #[trigger] self.graphs().contains_key(g) implies self.graphs()[g].wf() by {
            let i = index_of_key(self.graph_states@, slot_key(), g);
            lemma_keyed_index(self.graph_states@, slot_key(), i);
        }
        assert forall|g: PartialGraphId| self.graphs().contains_key(g) <==> self.graph_order().contains(g) by {
            if self.graphs().contains_key(g) {
                let i = index_of_key(self.graph_states@, slot_key(), g);
                assert(self.graph_order()[i] == g);
            }
            if self.graph_order().contains(g) {
                let i = choose|i: int| 0 <= i < self.graph_order().len() && self.graph_order()[i] == g;
                assert(slot_key()(self.graph_states@[i]) == g);
            }
        }
    }

    /// Whether no item after the `i`-th of `graphs[..n]` lists the same partial graph.
    pub open spec fn last_listing(graphs: Seq<InitialPartialGraph>, n: int, i: int) -> bool {
        forall|j: int| i < j < n ==> graphs[j].partial_graph_id != graphs[i].partial_graph_id
    }

    /// Whether `g` is an empty partial graph with the subscriptions listed in `item`.
    pub open spec fn initial_graph(g: GraphView, item: InitialPartialGraph) -> bool {
        &&& g.entries.len() == 0
        &&& g.queue.len() == 0
        &&& g.n_completed == 0
        &&& g.prev_table_ids is None
        &&& g.progress.len() == 0
        &&& forall|t| #[trigger] g.subscribers(t) == listed_subscribers(
            subscription_pairs(item.subscriptions@),
            item.subscriptions@.len() as int,
            t,
        )
    }

    /// The state of the partial graphs listed, each empty but for its subscriptions. A
    /// partial graph listed twice takes its last listing.
    pub fn new(initial_partial_graphs: Vec<InitialPartialGraph>) -> (r: ManagedBarrierState)
        ensures
            r.wf(),
            r.actors() == Map::<ActorId, InflightActorState>::empty(),
            forall|g: PartialGraphId|
                #[trigger] r.graphs().contains_key(g) <==> exists|i: int|
                    0 <= i < initial_partial_graphs@.len()
                        && initial_partial_graphs@[i].partial_graph_id == g,
            forall|i: int|
                0 <= i < initial_partial_graphs@.len() && Self::last_listing(
                    initial_partial_graphs@,
                    initial_partial_graphs@.len() as int,
                    i,
                ) ==> Self::initial_graph(
                    r.graphs()[#[trigger] initial_partial_graphs@[i].partial_graph_id],
                    initial_partial_graphs@[i],
                ),
    {
        let ghost init = initial_partial_graphs@;
        let total: usize = initial_partial_graphs.len();
        let mut pending = initial_partial_graphs;
        let mut graph_states: Vec<GraphSlot> = Vec::new();
        let mut k: usize = 0;
        while pending.len() > 0
            invariant
                k <= init.len(),
                init.len() == total,
                pending@ == init.subrange(k as int, init.len() as int),
                keys_unique(graph_states@, slot_key()),
                forall|j: int| 0 <= j < graph_states@.len() ==> (#[trigger] graph_states@[j]).state.wf(),
                forall|x: PartialGraphId|
                    #[trigger] has_key(graph_states@, slot_key(), x) <==> exists|i: int|
                        0 <= i < k && init[i].partial_graph_id == x,
                forall|i: int|
                    0 <= i < k && Self::last_listing(init, k as int, i) ==> Self::initial_graph(
                        keyed_map(graph_states@, slot_key())[#[trigger] init[i].partial_graph_id].state@,
                        init[i],
                    ),
            decreases pending@.len(),
        {
            let item = pending.remove(0);
            assert(item == init[k as int]);
            let mut state = PartialGraphManagedBarrierState::new();
            let ghost empty = state@;
            state.add_subscriptions(item.subscriptions);
            proof {
                assert forall|t| #[trigger] state@.subscribers(t) == listed_subscribers(
                    subscription_pairs(init[k as int].subscriptions@),
                    init[k as int].subscriptions@.len() as int,
                    t,
                ) by {
                    assert(empty.subscribers(t) =~= Set::<u32>::empty());
                }
            }
            let id = item.partial_graph_id;
            let slot = GraphSlot { partial_graph_id: id, state };
            let ghost before = graph_states@;
            let mut pos: usize = 0;
            while pos < graph_states.len()
                invariant
                    graph_states@ == before,
                    pos <= before.len(),
                    forall|j: int| 0 <= j < pos ==> before[j].partial_graph_id != id,
                ensures
                    graph_states@ == before,
                    pos <= before.len(),
                    forall|j: int| 0 <= j < pos ==> before[j].partial_graph_id != id,
                    pos < before.len() ==> before[pos as int].partial_graph_id == id,
                decreases before.len() - pos,
            {
                if graph_states[pos].partial_graph_id == id {
                    break;
                }
                pos = pos + 1;
            }
            if pos < graph_states.len() {
                proof {
                    lemma_keyed_update(before, slot_key(), pos as int, slot);
                }
                graph_states.set(pos, slot);
            } else {
                proof {
                    assert(!has_key(before, slot_key(), id)) by {
                        if has_key(before, slot_key(), id) {
                            let j = choose|j: int| 0 <= j < before.len() && slot_key()(before[j]) == id;
                            assert(before[j].partial_graph_id == id);
                        }
                    }
                    lemma_keyed_push(before, slot_key(), slot);
                }
                graph_states.push(slot);
            }
            proof {
                assert(keyed_map(graph_states@, slot_key()) == keyed_map(before, slot_key()).insert(id, slot));
                assert forall|j: int| 0 <= j < graph_states@.len() implies (#[trigger] graph_states@[j]).state.wf() by {
                    if j < before.len() && graph_states@[j] != slot {
                        assert(graph_states@[j] == before[j]);
                    }
                }
                assert forall|x: PartialGraphId| #[trigger] has_key(graph_states@, slot_key(), x) <==> exists|i: int|
                    0 <= i < k + 1 && init[i].partial_graph_id == x by {
                    assert(keyed_map(graph_states@, slot_key()).contains_key(x) == has_key(graph_states@, slot_key(), x));
                    assert(keyed_map(before, slot_key()).contains_key(x) == has_key(before, slot_key(), x));
                    if x == id {
                        assert(init[k as int].partial_graph_id == x);
                    } else if exists|i: int| 0 <= i < k + 1 && init[i].partial_graph_id == x {
                        let i = choose|i: int| 0 <= i < k + 1 && init[i].partial_graph_id == x;
                        assert(i < k);
                    }
                }
                assert forall|i: int| 0 <= i < k + 1 && Self::last_listing(init, k + 1, i) implies Self::initial_graph(
                    keyed_map(graph_states@, slot_key())[#[trigger] init[i].partial_graph_id].state@,
                    init[i],
                ) by {
                    if i < k {
                        assert(init[k as int].partial_graph_id != init[i].partial_graph_id);
                        assert(Self::last_listing(init, k as int, i));
                    }
                }
            }
            k = k + 1;
        }
        let r = ManagedBarrierState { actor_states: Vec::new(), graph_states };
        proof {
            assert(init.subrange(k as int, init.len() as int).len() == 0);
            assert(r.actors() =~= Map::<ActorId, InflightActorState>::empty());
            assert forall|g: PartialGraphId| #[trigger] r.graphs().contains_key(g) <==> exists|i: int|
                0 <= i < init.len() && init[i].partial_graph_id == g by {
                assert(r.graphs().contains_key(g) == has_key(r.graph_states@, slot_key(), g));
            }
        }
        r
    }

    fn find_actor(&self, actor_id: ActorId) -> (r: Option<usize>)
        requires
            self.wf(),
        ensures
            match r {
                Some(i) => {
                    &&& i < self.actor_states@.len()
                    &&& self.actors().contains_key(actor_id)
                    &&& self.actors()[actor_id] == self.actor_states@[i as int]
                    &&& index_of_key(self.actor_states@, actor_key(), actor_id) == i
                },
                None => !self.actors().contains_key(actor_id),
            },
    {
        let mut i: usize = 0;
        while i < self.actor_states.len()
            invariant
                self.wf(),
                i <= self.actor_states@.len(),
                forall|j: int| 0 <= j < i ==> self.actor_states@[j].id() != actor_id,
            decreases self.actor_states@.len() - i,
        {
            if self.actor_states[i].actor_id() == actor_id {
                proof {
                    lemma_keyed_index(self.actor_states@, actor_key(), i as int);
                }
                return Some(i);
            }
            i = i + 1;
        }
        proof {
            if has_key(self.actor_states@, actor_key(), actor_id) {
                let j = choose|j: int| 0 <= j < self.actor_states@.len() && actor_key()(self.actor_states@[j]) == actor_id;
                assert(self.actor_states@[j].id() == actor_id);
            }
        }
        None
    }

    fn find_graph(&self, partial_graph_id: PartialGraphId) -> (r: Option<usize>)
        requires
            self.wf(),
        ensures
            match r {
                Some(i) => {
                    &&& i < self.graph_states@.len()
                    &&& self.graphs().contains_key(partial_graph_id)
                    &&& self.graphs()[partial_graph_id] == self.graph_states@[i as int].state@
                    &&& self.graph_states@[i as int].partial_graph_id == partial_graph_id
                    &&& self.graph_order()[i as int] == partial_graph_id
                },
                None => !self.graphs().contains_key(partial_graph_id),
            },
    {
        let mut i: usize = 0;
        while i < self.graph_states.len()
            invariant
                self.wf(),
                i <= self.graph_states@.len(),
                forall|j: int| 0 <= j < i ==> self.graph_states@[j].partial_graph_id != partial_graph_id,
            decreases self.graph_states@.len() - i,
        {
            if self.graph_states[i].partial_graph_id == partial_graph_id {
                proof {
                    lemma_keyed_index(self.graph_states@, slot_key(), i as int);
                }
                return Some(i);
            }
            i = i + 1;
        }
        proof {
            if has_key(self.graph_states@, slot_key(), partial_graph_id) {
                let j = choose|j: int| 0 <= j < self.graph_states@.len() && slot_key()(self.graph_states@[j]) == partial_graph_id;
                assert(self.graph_states@[j].partial_graph_id == partial_graph_id);
            }
        }
        None
    }

    /// Whether `actor_id` may take a new barrier sender: it exists and has not
    /// collected a barrier yet.
    pub fn can_register_barrier_sender(&self, actor_id: ActorId) -> (r: bool)
        requires
            self.wf(),
        ensures
            r == (self.actors().contains_key(actor_id) && !self.actors()[actor_id].running()),
    {
        match self.find_actor(actor_id) {
            Some(i) => !self.actor_states[i].is_running(),
            None => false,
        }
    }

    /// Registers a channel into `actor_id` and replays to it the barriers issued so far.
    pub fn register_barrier_sender(
        &mut self,
        actor_id: ActorId,
        tx: UnboundedSender<Barrier>,
    ) -> (r: Result<(), StreamError>)
        requires
            old(self).wf(),
            old(self).actors().contains_key(actor_id),
            !old(self).actors()[actor_id].running(),
        ensures
            final(self).wf(),
            final(self).graphs() == old(self).graphs(),
            final(self).graph_order() == old(self).graph_order(),
            final(self).actors().dom() == old(self).actors().dom(),
            forall|a: ActorId| a != actor_id ==> #[trigger] final(self).actors()[a] == old(self).actors()[a],
            ({
                let before = old(self).actors()[actor_id];
                let after = final(self).actors()[actor_id];
                &&& after.id() == before.id()
                &&& after.inflight() == before.inflight()
                &&& !after.running()
                &&& after.pending() == before.pending()
                &&& after.max_issued() == before.max_issued()
                &&& after.stopping() == before.stopping()
                &&& match r {
                    Ok(()) => after.sender_count() == before.sender_count() + 1,
                    Err(e) => {
                        &&& after.sender_count() == before.sender_count()
                        &&& exists|i: int|
                            0 <= i < before.pending().len() && e == (StreamError::BarrierSend {
                                actor_id,
                                epoch: #[trigger] before.pending()[i].epoch,
                            })
                    },
                }
            }),
    {
        let i = match self.find_actor(actor_id) {
            Some(i) => i,
            None => {
                proof {
                    assert(false);
                }
                return Ok(());
            },
        };
        let ghost s0 = self.actor_states@;
        let mut st = self.actor_states.remove(i);
        let r = st.register_barrier_sender(tx);
        self.actor_states.insert(i, st);
        proof {
            assert(self.actor_states@ =~= s0.update(i as int, st));
            lemma_keyed_update(s0, actor_key(), i as int, st);
            assert forall|j: int| 0 <= j < self.actor_states@.len() implies (#[trigger] self.actor_states@[j]).wf() by {
                if j != i {
                    assert(self.actor_states@[j] == s0[j]);
                }
            }
        }
        r
    }

    /// Whether `actor_id` may collect the barrier closing `epoch`: it is the actor's
    /// earliest barrier in flight, and its partial graph still waits for the actor.
    pub open spec fn can_collect_spec(&self, actor_id: ActorId, epoch: EpochPair) -> bool {
        &&& self.actors().contains_key(actor_id)
        &&& self.actors()[actor_id].inflight().len() > 0
        &&& self.actors()[actor_id].inflight()[0].0 == epoch.prev
        &&& self.graphs().contains_key(self.actors()[actor_id].inflight()[0].1)
        &&& self.graphs()[self.actors()[actor_id].inflight()[0].1].can_collect(actor_id, epoch)
    }

    pub fn can_collect(&self, actor_id: ActorId, epoch: EpochPair) -> (r: bool)
        requires
            self.wf(),
        ensures
            r == self.can_collect_spec(actor_id, epoch),
    {
        match self.find_actor(actor_id) {
            None => false,
            Some(i) => {
                let first = self.actor_states[i].first_inflight();
                match first {
                    None => false,
                    Some((prev, g)) => {
                        if prev != epoch.prev {
                            return false;
                        }
                        match self.find_graph(g) {
                            None => false,
                            Some(gi) => self.graph_states[gi].state.can_collect(actor_id, epoch),
                        }
                    },
                }
            },
        }
    }

    /// Collects the barrier closing `epoch` from `actor_id`. An actor that was stopping
    /// and has now collected its last barrier is dropped, and its monitor task cancelled.
    /// Returns the actor's partial graph and the syncs of the checkpoints this completes.
    pub fn collect(&mut self, actor_id: ActorId, epoch: EpochPair) -> (r: (
        PartialGraphId,
        Vec<SyncRequest>,
    ))
        requires
            old(self).wf(),
            old(self).can_collect_spec(actor_id, epoch),
        ensures
            final(self).wf(),
            final(self).graph_order() == old(self).graph_order(),
            ({
                let before = old(self).actors()[actor_id];
                let g = before.inflight()[0].1;
                let gv = old(self).graphs()[g];
                let collected = gv.collect_at(gv.index_of(epoch.prev), actor_id);
                &&& r.0 == g
                &&& final(self).graphs() == old(self).graphs().insert(g, collected.settle())
                &&& sync_views(r.1@) == collected.settle_syncs()
                &&& forall|i: int| 0 <= i < r.1@.len() ==> (#[trigger] r.1@[i]).table_ids.wf()
            }),
            ({
                let before = old(self).actors()[actor_id];
                if before.inflight().len() == 1 && before.stopping() {
                    final(self).actors() == old(self).actors().remove(actor_id)
                } else {
                    let after = final(self).actors()[actor_id];
                    &&& final(self).actors() == old(self).actors().insert(actor_id, after)
                    &&& after.id() == actor_id
                    &&& after.inflight() == before.inflight().drop_first()
                    &&& after.running()
                    &&& after.pending() == Seq::<crate::barrier::BarrierView>::empty()
                    &&& after.max_issued() == before.max_issued()
                    &&& after.stopping() == before.stopping()
                    &&& after.sender_count() == before.sender_count()
                }
            }),
    {
        proof {
            self.lemma_wf();
        }
        let i = match self.find_actor(actor_id) {
            Some(i) => i,
            None => {
                proof {
                    assert(false);
                }
                return (0, Vec::new());
            },
        };
        let ghost s0 = self.actor_states@;
        let mut st = self.actor_states.remove(i);
        let (g, finished) = st.collect(epoch);
        if finished {
            st.abort_monitor_task();
            proof {
                assert(self.actor_states@ =~= s0.remove(i as int));
                lemma_keyed_remove(s0, actor_key(), i as int);
                assert forall|j: int| 0 <= j < self.actor_states@.len() implies (#[trigger] self.actor_states@[j]).wf() by {
                    let j0 = if j < i { j } else { j + 1 };
                    assert(self.actor_states@[j] == s0[j0]);
                }
            }
        } else {
            self.actor_states.insert(i, st);
            proof {
                assert(self.actor_states@ =~= s0.update(i as int, st));
                lemma_keyed_update(s0, actor_key(), i as int, st);
                lemma_keyed_index(self.actor_states@, actor_key(), i as int);
                assert forall|j: int| 0 <= j < self.actor_states@.len() implies (#[trigger] self.actor_states@[j]).wf() by {
                    if j != i {
                        assert(self.actor_states@[j] == s0[j]);
                    }
                }
            }
        }
        let gi = match self.find_graph(g) {
            Some(gi) => gi,
            None => {
                proof {
                    assert(false);
                }
                return (g, Vec::new());
            },
        };
        let ghost gs0 = self.graph_states@;
        let mut slot = self.graph_states.remove(gi);
        let syncs = slot.state.collect(actor_id, epoch);
        self.graph_states.insert(gi, slot);
        proof {
            assert(self.graph_states@ =~= gs0.update(gi as int, slot));
            lemma_keyed_update(gs0, slot_key(), gi as int, slot);
            assert(self.graphs() =~= old(self).graphs().insert(g, slot.state@));
            assert forall|j: int| 0 <= j < self.graph_states@.len() implies (#[trigger] self.graph_states@[j]).state.wf() by {
                if j != gi {
                    assert(self.graph_states@[j] == gs0[j]);
                }
            }
            assert(self.graph_order() =~= old(self).graph_order());
        }
        (g, syncs)
    }

    /// Whether barrier `b` may be injected into partial graph `g` with the tables it
    /// announces, to be collected by `actor_ids`, of which `spawned` are new: `g`
    /// exists and may issue `b`; each new actor is distinct, to collect `b`, unknown
    /// so far and not stopped by `b`; each other actor to collect `b` exists, was issued
    /// only earlier barriers and is not stopping.
    pub open spec fn can_inject_spec(
        &self,
        b: BarrierView,
        g: PartialGraphId,
        actor_ids: Set<ActorId>,
        table_ids: Set<TableId>,
        spawned: Seq<ActorId>,
    ) -> bool {
        &&& self.graphs().contains_key(g)
        &&& self.graphs()[g].can_issue(b, table_ids)
        &&& forall|i: int, j: int| 0 <= i < j < spawned.len() ==> spawned[i] != spawned[j]
        &&& forall|i: int|
            0 <= i < spawned.len() ==> actor_ids.contains(#[trigger] spawned[i]) && !b.stops(
                spawned[i],
            ) && !self.actors().contains_key(spawned[i])
        &&& forall|a: ActorId|
            #[trigger] actor_ids.contains(a) && !spawned.contains(a) ==> {
                &&& self.actors().contains_key(a)
                &&& self.actors()[a].max_issued() < b.epoch.prev
                &&& !self.actors()[a].stopping()
            }
    }

    /// Injects `barrier` into partial graph `partial_graph_id`: the graph issues it
    /// first, then the actors `spawned` for it start with it, and every other actor of
    /// `actor_ids_to_collect` is issued it (and stops at it when the barrier says so).
    ///
    /// The new actors observe a barrier only once they register a sender, which comes
    /// after this call, so they cannot see it before the graph has issued it.
    ///
    /// Returns the syncs of the checkpoints this completes, or the error of the first
    /// actor whose channel is closed; then the actors after it were not issued the
    /// barrier.
    pub fn transform_to_issued(
        &mut self,
        barrier: &Barrier,
        partial_graph_id: PartialGraphId,
        actor_ids_to_collect: IdSet,
        table_ids: IdSet,
        spawned: Vec<SpawnedActor>,
    ) -> (r: Result<Vec<SyncRequest>, StreamError>)
        requires
            old(self).wf(),
            barrier.wf(),
            actor_ids_to_collect.wf(),
            table_ids.wf(),
            old(self).can_inject_spec(
                barrier@,
                partial_graph_id,
                actor_ids_to_collect@,
                table_ids@,
                spawned_ids(spawned@),
            ),
        ensures
            final(self).wf(),
            final(self).graph_order() == old(self).graph_order(),
            final(self).graphs() == old(self).graphs().insert(
                partial_graph_id,
                old(self).graphs()[partial_graph_id].issue(
                    barrier@,
                    actor_ids_to_collect@,
                    table_ids@,
                ).settle(),
            ),
            r is Ok ==> sync_views(r->Ok_0@) == old(self).graphs()[partial_graph_id].issue(
                barrier@,
                actor_ids_to_collect@,
                table_ids@,
            ).settle_syncs(),
            r is Ok ==> forall|i: int|
                0 <= i < r->Ok_0@.len() ==> (#[trigger] r->Ok_0@[i]).table_ids.wf(),
            forall|a: ActorId|
                #[trigger] final(self).actors().contains_key(a) <==> (old(self).actors().contains_key(a)
                    || spawned_ids(spawned@).contains(a)),
            forall|i: int|
                0 <= i < spawned@.len() ==> started_at(
                    final(self).actors()[#[trigger] spawned@[i].actor_id],
                    spawned@[i].actor_id,
                    barrier@,
                    partial_graph_id,
                ),
            forall|a: ActorId|
                #[trigger] old(self).actors().contains_key(a) && !actor_ids_to_collect@.contains(a)
                    ==> final(self).actors()[a] == old(self).actors()[a],
            (forall|a: ActorId|
                #[trigger] actor_ids_to_collect@.contains(a) && !spawned_ids(spawned@).contains(a)
                    ==> old(self).actors()[a].sender_count() == 0) ==> r is Ok,
            r is Ok ==> forall|a: ActorId|
                #[trigger] old(self).actors().contains_key(a) && actor_ids_to_collect@.contains(a)
                    ==> issued_to(old(self).actors()[a], final(self).actors()[a], barrier@, partial_graph_id),
            r is Err ==> {
                &&& exists|a: ActorId|
                    #[trigger] actor_ids_to_collect@.contains(a) && r->Err_0 == (StreamError::BarrierSend {
                        actor_id: a,
                        epoch: barrier.epoch,
                    })
                &&& forall|a: ActorId|
                    #[trigger] old(self).actors().contains_key(a) && actor_ids_to_collect@.contains(a)
                        ==> issued_to(old(self).actors()[a], final(self).actors()[a], barrier@, partial_graph_id)
                        || same_state(old(self).actors()[a], final(self).actors()[a])
            },
    {
        proof {
            self.lemma_wf();
            actor_ids_to_collect.lemma_elems();
        }
        let ghost a0 = self.actors();
        let ghost sp0 = spawned@;
        let ghost quiet = forall|a: ActorId|
            #[trigger] actor_ids_to_collect@.contains(a) && !spawned_ids(spawned@).contains(a)
                ==> a0[a].sender_count() == 0;
        let ghost tables = table_ids@;
        let g = partial_graph_id;
        // The graph issues the barrier first.
        let gi = match self.find_graph(g) {
            Some(gi) => gi,
            None => {
                proof {
                    assert(false);
                }
                return Ok(Vec::new());
            },
        };
        let ghost gs0 = self.graph_states@;
        let mut slot = self.graph_states.remove(gi);
        let syncs = slot.state.transform_to_issued(barrier, actor_ids_to_collect.clone_set(), table_ids);
        self.graph_states.insert(gi, slot);
        proof {
            assert(self.graph_states@ =~= gs0.update(gi as int, slot));
            lemma_keyed_update(gs0, slot_key(), gi as int, slot);
            assert(self.graphs() =~= old(self).graphs().insert(g, slot.state@));
            assert forall|j: int| 0 <= j < self.graph_states@.len() implies (#[trigger] self.graph_states@[j]).state.wf() by {
                if j != gi {
                    assert(self.graph_states@[j] == gs0[j]);
                }
            }
            assert(self.graph_order() =~= old(self).graph_order());
        }
        let ghost graphs1 = self.graphs();
        let ghost order1 = self.graph_order();
        let ghost issued = old(self).graphs()[g].issue(barrier@, actor_ids_to_collect@, tables);
        assert(graphs1 == old(self).graphs().insert(g, issued.settle()));
        assert(order1 == old(self).graph_order());
        proof {
            assert forall|i: int, j: int| 0 <= i < j < sp0.len() implies sp0[i].actor_id != sp0[j].actor_id by {
                assert(spawned_ids(sp0)[i] == sp0[i].actor_id && spawned_ids(sp0)[j] == sp0[j].actor_id);
            }
            assert forall|i: int| 0 <= i < sp0.len() implies !a0.contains_key(#[trigger] sp0[i].actor_id) by {
                assert(spawned_ids(sp0)[i] == sp0[i].actor_id);
            }
        }
        // Then the new actors start with it.
        let mut new_actors = IdSet::new();
        let mut pending = spawned;
        let total: usize = pending.len();
        let mut k: usize = 0;
        while pending.len() > 0
            invariant
                self.wf(),
                barrier.wf(),
                new_actors.wf(),
                k <= sp0.len(),
                sp0.len() == total,
                a0 == old(self).actors(),
                pending@ == sp0.subrange(k as int, sp0.len() as int),
                graphs1 == old(self).graphs().insert(g, issued.settle()),
                order1 == old(self).graph_order(),
                g == partial_graph_id,
                tables == table_ids@,
                quiet == (forall|a: ActorId|
                    #[trigger] actor_ids_to_collect@.contains(a) && !spawned_ids(spawned@).contains(a)
                        ==> a0[a].sender_count() == 0),
                issued == old(self).graphs()[partial_graph_id].issue(barrier@, actor_ids_to_collect@, tables),
                sync_views(syncs@) == issued.settle_syncs(),
                forall|i: int| 0 <= i < syncs@.len() ==> (#[trigger] syncs@[i]).table_ids.wf(),
                self.graphs() == graphs1,
                self.graph_order() == order1,
                forall|i: int, j: int| 0 <= i < j < sp0.len() ==> sp0[i].actor_id != sp0[j].actor_id,
                forall|i: int| 0 <= i < sp0.len() ==> !a0.contains_key(#[trigger] sp0[i].actor_id),
                forall|x: ActorId| #[trigger] new_actors@.contains(x) <==> exists|i: int| 0 <= i < k && sp0[i].actor_id == x,
                forall|x: ActorId|
                    #[trigger] self.actors().contains_key(x) <==> (a0.contains_key(x) || new_actors@.contains(x)),
                forall|x: ActorId| #[trigger] a0.contains_key(x) ==> self.actors()[x] == a0[x],
                forall|i: int|
                    0 <= i < k ==> started_at(self.actors()[#[trigger] sp0[i].actor_id], sp0[i].actor_id, barrier@, g),
            decreases pending@.len(),
        {
            let sp = pending.remove(0);
            assert(sp == sp0[k as int]);
            let st = InflightActorState::start(sp.actor_id, g, barrier, sp.join_handle, sp.monitor_task_handle);
            proof {
                assert(!has_key(self.actor_states@, actor_key(), sp.actor_id)) by {
                    if new_actors@.contains(sp.actor_id) {
                        let j = choose|j: int| 0 <= j < k && sp0[j].actor_id == sp.actor_id;
                        assert(sp0[j].actor_id != sp0[k as int].actor_id);
                    }
                    assert(!self.actors().contains_key(sp.actor_id));
                }
                lemma_keyed_push(self.actor_states@, actor_key(), st);
            }
            let ghost before = self.actors();
            let ghost v0 = self.actor_states@;
            self.actor_states.push(st);
            new_actors.insert(sp.actor_id);
            proof {
                assert(self.actors() == before.insert(sp.actor_id, st));
                assert forall|j: int| 0 <= j < self.actor_states@.len() implies (#[trigger] self.actor_states@[j]).wf() by {
                    if j < v0.len() {
                        assert(self.actor_states@[j] == v0[j]);
                    }
                }
                assert forall|x: ActorId| #[trigger] new_actors@.contains(x) <==> exists|i: int| 0 <= i < k + 1 && sp0[i].actor_id == x by {
                    if x == sp.actor_id {
                        assert(sp0[k as int].actor_id == x);
                    }
                }
                assert forall|i: int| 0 <= i < k + 1 implies started_at(self.actors()[#[trigger] sp0[i].actor_id], sp0[i].actor_id, barrier@, g) by {
                    if i < k {
                        assert(sp0[i].actor_id != sp0[k as int].actor_id);
                    }
                }
            }
            k = k + 1;
        }
        let ghost a1 = self.actors();
        proof {
            assert(sp0.subrange(k as int, sp0.len() as int).len() == 0);
            assert forall|x: ActorId| #[trigger] new_actors@.contains(x) <==> spawned_ids(sp0).contains(x) by {
                if new_actors@.contains(x) {
                    let i = choose|i: int| 0 <= i < k && sp0[i].actor_id == x;
                    assert(spawned_ids(sp0)[i] == x);
                }
                if spawned_ids(sp0).contains(x) {
                    let i = choose|i: int| 0 <= i < spawned_ids(sp0).len() && spawned_ids(sp0)[i] == x;
                    assert(sp0[i].actor_id == x);
                }
            }
            assert forall|x: ActorId| quiet && #[trigger] actor_ids_to_collect@.contains(x) && !new_actors@.contains(x)
                implies a1[x].sender_count() == 0 by {
                assert(!spawned_ids(sp0).contains(x));
            }
        }
        // Then every other actor to collect it is issued it.
        let n = actor_ids_to_collect.len();
        let ghost elems = actor_ids_to_collect.elems();
        let mut j: usize = 0;
        while j < n
            invariant
                self.wf(),
                barrier.wf(),
                new_actors.wf(),
                actor_ids_to_collect.wf(),
                elems == actor_ids_to_collect.elems(),
                a0 == old(self).actors(),
                sp0 == spawned@,
                graphs1 == old(self).graphs().insert(g, issued.settle()),
                order1 == old(self).graph_order(),
                g == partial_graph_id,
                tables == table_ids@,
                quiet == (forall|a: ActorId|
                    #[trigger] actor_ids_to_collect@.contains(a) && !spawned_ids(spawned@).contains(a)
                        ==> a0[a].sender_count() == 0),
                issued == old(self).graphs()[partial_graph_id].issue(barrier@, actor_ids_to_collect@, tables),
                sync_views(syncs@) == issued.settle_syncs(),
                forall|i: int| 0 <= i < syncs@.len() ==> (#[trigger] syncs@[i]).table_ids.wf(),
                n == elems.len(),
                j <= n,
                self.graphs() == graphs1,
                self.graph_order() == order1,
                crate::id_set::strictly_increasing(elems),
                forall|x: ActorId| actor_ids_to_collect@.contains(x) <==> elems.contains(x),
                forall|x: ActorId| #[trigger] new_actors@.contains(x) <==> spawned_ids(sp0).contains(x),
                forall|x: ActorId| #[trigger] self.actors().contains_key(x) <==> a1.contains_key(x),
                forall|x: ActorId|
                    #[trigger] a1.contains_key(x) <==> (a0.contains_key(x) || new_actors@.contains(x)),
                forall|x: ActorId| #[trigger] a0.contains_key(x) ==> a1[x] == a0[x],
                forall|i: int| 0 <= i < sp0.len() ==> !a0.contains_key(#[trigger] sp0[i].actor_id),
                forall|x: ActorId| quiet && #[trigger] actor_ids_to_collect@.contains(x) && !new_actors@.contains(x)
                    ==> a1[x].sender_count() == 0,
                forall|i: int|
                    0 <= i < sp0.len() ==> started_at(a1[#[trigger] sp0[i].actor_id], sp0[i].actor_id, barrier@, g),
                forall|i: int| 0 <= i < sp0.len() ==> new_actors@.contains(#[trigger] sp0[i].actor_id),
                forall|x: ActorId|
                    #[trigger] a1.contains_key(x) ==> if (exists|i: int| 0 <= i < j && elems[i] == x)
                        && !new_actors@.contains(x) {
                        issued_to(a1[x], self.actors()[x], barrier@, g)
                    } else {
                        self.actors()[x] == a1[x]
                    },
                forall|x: ActorId|
                    #[trigger] actor_ids_to_collect@.contains(x) && !new_actors@.contains(x) ==> {
                        &&& a1.contains_key(x)
                        &&& a1[x].max_issued() < barrier.epoch.prev
                        &&& !a1[x].stopping()
                        &&& a1[x].wf()
                        &&& a1[x].id() == x
                    },
            decreases n - j,
        {
            let a = actor_ids_to_collect.get(j);
            proof {
                assert(elems.contains(a));
            }
            if !new_actors.contains(a) {
                let i = match self.find_actor(a) {
                    Some(i) => i,
                    None => {
                        proof {
                            assert(false);
                        }
                        return Ok(syncs);
                    },
                };
                proof {
                    assert(!(exists|m: int| 0 <= m < j && elems[m] == a)) by {
                        if exists|m: int| 0 <= m < j && elems[m] == a {
                            let m = choose|m: int| 0 <= m < j && elems[m] == a;
                            assert(elems[m] < elems[j as int]);
                        }
                    }
                    assert(self.actors()[a] == a1[a]);
                }
                let ghost s0 = self.actor_states@;
                let ghost before = self.actors();
                let is_stop = barrier.is_stop_actor(a);
                let mut st = self.actor_states.remove(i);
                let res = st.issue_barrier(g, barrier, is_stop);
                self.actor_states.insert(i, st);
                proof {
                    assert(self.actor_states@ =~= s0.update(i as int, st));
                    lemma_keyed_update(s0, actor_key(), i as int, st);
                    assert forall|m: int| 0 <= m < self.actor_states@.len() implies (#[trigger] self.actor_states@[m]).wf() by {
                        if m != i {
                            assert(self.actor_states@[m] == s0[m]);
                        }
                    }
                }
                match res {
                    Ok(()) => {},
                    Err(e) => {
                        proof {
                            assert(actor_ids_to_collect@.contains(a));
                            assert(!quiet);
                            assert(self.graphs() == graphs1);
                            assert forall|q: int| 0 <= q < spawned@.len() implies started_at(
                                    self.actors()[#[trigger] spawned@[q].actor_id], spawned@[q].actor_id, barrier@, g) by {
                                assert(new_actors@.contains(sp0[q].actor_id));
                                assert(a1.contains_key(sp0[q].actor_id));
                                assert(sp0[q].actor_id != a);
                                assert(self.actors()[sp0[q].actor_id] == before[sp0[q].actor_id]);
                            }
                            assert forall|x: ActorId| #[trigger] old(self).actors().contains_key(x) && actor_ids_to_collect@.contains(x)
                                implies issued_to(old(self).actors()[x], self.actors()[x], barrier@, g)
                                || same_state(old(self).actors()[x], self.actors()[x]) by {
                                assert(a1[x] == a0[x]);
                                assert(!spawned_ids(sp0).contains(x)) by {
                                    if spawned_ids(sp0).contains(x) {
                                        let q = choose|q: int| 0 <= q < spawned_ids(sp0).len() && spawned_ids(sp0)[q] == x;
                                        assert(sp0[q].actor_id == x);
                                    }
                                }
                                if x != a {
                                    assert(self.actors()[x] == before[x]);
                                } else {
                                    assert(self.actors()[x] == st);
                                }
                            }
                        }
                        proof {
                            assert forall|x: ActorId| #[trigger] old(self).actors().contains_key(x) && !actor_ids_to_collect@.contains(x)
                                implies self.actors()[x] == old(self).actors()[x] by {
                                assert(a1.contains_key(x));
                                assert(x != a);
                                assert(self.actors()[x] == before[x]);
                                if exists|m: int| 0 <= m < j && elems[m] == x {
                                    let m = choose|m: int| 0 <= m < j && elems[m] == x;
                                    assert(elems.contains(x));
                                }
                            }
                        }
                        assert(self.graphs() == old(self).graphs().insert(partial_graph_id, issued.settle()));
                        return Err(e);
                    },
                }
                proof {
                    assert forall|x: ActorId| #[trigger] a1.contains_key(x) implies if (exists|m: int| 0 <= m < j + 1 && elems[m] == x)
                        && !new_actors@.contains(x) {
                        issued_to(a1[x], self.actors()[x], barrier@, g)
                    } else {
                        self.actors()[x] == a1[x]
                    } by {
                        if x == a {
                            assert(elems[j as int] == x);
                        } else {
                            assert(self.actors()[x] == before[x]);
                            if exists|m: int| 0 <= m < j + 1 && elems[m] == x {
                                let m = choose|m: int| 0 <= m < j + 1 && elems[m] == x;
                                assert(m != j);
                            }
                        }
                    }
                }
            } else {
                proof {
                    assert forall|x: ActorId| #[trigger] a1.contains_key(x) implies if (exists|m: int| 0 <= m < j + 1 && elems[m] == x)
                        && !new_actors@.contains(x) {
                        issued_to(a1[x], self.actors()[x], barrier@, g)
                    } else {
                        self.actors()[x] == a1[x]
                    } by {
                        if exists|m: int| 0 <= m < j + 1 && elems[m] == x {
                            let m = choose|m: int| 0 <= m < j + 1 && elems[m] == x;
                            if m == j {
                                assert(x == a);
                            } else {
                                assert(exists|m: int| 0 <= m < j && elems[m] == x);
                            }
                        }
                    }
                }
            }
            j = j + 1;
        }
        proof {
            assert forall|x: ActorId| #[trigger] old(self).actors().contains_key(x) && !actor_ids_to_collect@.contains(x)
                implies self.actors()[x] == old(self).actors()[x] by {
                assert(a1.contains_key(x));
                if exists|m: int| 0 <= m < j && elems[m] == x {
                    let m = choose|m: int| 0 <= m < j && elems[m] == x;
                    assert(elems.contains(x));
                }
            }
            assert forall|i: int| 0 <= i < spawned@.len() implies started_at(
                    self.actors()[#[trigger] spawned@[i].actor_id], spawned@[i].actor_id, barrier@, g) by {
                assert(new_actors@.contains(sp0[i].actor_id));
                assert(a1.contains_key(sp0[i].actor_id));
            }
            assert forall|x: ActorId| #[trigger] old(self).actors().contains_key(x) && actor_ids_to_collect@.contains(x)
                implies issued_to(old(self).actors()[x], self.actors()[x], barrier@, g) by {
                assert(a1[x] == a0[x]);
                assert(elems.contains(x));
                let m = choose|m: int| 0 <= m < elems.len() && elems[m] == x;
                assert(!spawned_ids(sp0).contains(x)) by {
                    if spawned_ids(sp0).contains(x) {
                        let q = choose|q: int| 0 <= q < spawned_ids(sp0).len() && spawned_ids(sp0)[q] == x;
                        assert(sp0[q].actor_id == x);
                    }
                }
            }
        }
        Ok(syncs)
    }

    /// Whether `barrier` may be injected (see `can_inject_spec`); `spawned` lists the
    /// actors spawned for it.
    pub fn can_inject(
        &self,
        barrier: &Barrier,
        partial_graph_id: PartialGraphId,
        actor_ids_to_collect: &IdSet,
        table_ids: &IdSet,
        spawned: &Vec<ActorId>,
    ) -> (r: bool)
        requires
            self.wf(),
            barrier.wf(),
            actor_ids_to_collect.wf(),
            table_ids.wf(),
        ensures
            r == self.can_inject_spec(
                barrier@,
                partial_graph_id,
                actor_ids_to_collect@,
                table_ids@,
                spawned@,
            ),
    {
        proof {
            self.lemma_wf();
            actor_ids_to_collect.lemma_elems();
        }
        let gi = match self.find_graph(partial_graph_id) {
            Some(gi) => gi,
            None => return false,
        };
        if !self.graph_states[gi].state.can_issue(barrier, table_ids) {
            return false;
        }
        let mut seen = IdSet::new();
        let mut i: usize = 0;
        while i < spawned.len()
            invariant
                self.wf(),
                barrier.wf(),
                seen.wf(),
                actor_ids_to_collect.wf(),
                i <= spawned@.len(),
                forall|x: ActorId| #[trigger] seen@.contains(x) <==> exists|k: int| 0 <= k < i && spawned@[k] == x,
                forall|a: int, b: int| 0 <= a < b < i ==> spawned@[a] != spawned@[b],
                forall|k: int|
                    0 <= k < i ==> actor_ids_to_collect@.contains(#[trigger] spawned@[k]) && !barrier@.stops(
                        spawned@[k],
                    ) && !self.actors().contains_key(spawned@[k]),
            decreases spawned@.len() - i,
        {
            let a = spawned[i];
            if seen.contains(a) {
                proof {
                    let k = choose|k: int| 0 <= k < i && spawned@[k] == a;
                    assert(spawned@[k] == spawned@[i as int]);
                }
                return false;
            }
            if !actor_ids_to_collect.contains(a) || barrier.is_stop_actor(a) {
                return false;
            }
            if self.find_actor(a).is_some() {
                return false;
            }
            seen.insert(a);
            proof {
                assert forall|x: ActorId| #[trigger] seen@.contains(x) <==> exists|k: int| 0 <= k < i + 1 && spawned@[k] == x by {
                    if x == a {
                        assert(spawned@[i as int] == x);
                    }
                }
            }
            i = i + 1;
        }
        let n = actor_ids_to_collect.len();
        let ghost elems = actor_ids_to_collect.elems();
        let mut j: usize = 0;
        while j < n
            invariant
                self.wf(),
                barrier.wf(),
                seen.wf(),
                actor_ids_to_collect.wf(),
                elems == actor_ids_to_collect.elems(),
                n == elems.len(),
                j <= n,
                forall|x: ActorId| actor_ids_to_collect@.contains(x) <==> elems.contains(x),
                forall|x: ActorId| #[trigger] seen@.contains(x) <==> spawned@.contains(x),
                forall|m: int|
                    0 <= m < j && !spawned@.contains(#[trigger] elems[m]) ==> {
                        &&& self.actors().contains_key(elems[m])
                        &&& self.actors()[elems[m]].max_issued() < barrier.epoch.prev
                        &&& !self.actors()[elems[m]].stopping()
                    },
            decreases n - j,
        {
            let a = actor_ids_to_collect.get(j);
            proof {
                assert(elems.contains(a));
            }
            if !seen.contains(a) {
                match self.find_actor(a) {
                    None => {
                        proof {
                            assert(actor_ids_to_collect@.contains(a) && !spawned@.contains(a));
                        }
                        return false;
                    },
                    Some(ai) => {
                        proof {
                            assert(self.actor_states@[ai as int].wf());
                        }
                        if self.actor_states[ai].max_issued_epoch() >= barrier.epoch.prev
                            || self.actor_states[ai].is_stopping() {
                            proof {
                                assert(actor_ids_to_collect@.contains(a) && !spawned@.contains(a));
                            }
                            return false;
                        }
                    },
                }
            }
            j = j + 1;
        }
        proof {
            assert forall|a: ActorId| #[trigger] actor_ids_to_collect@.contains(a) && !spawned@.contains(a) implies {
                &&& self.actors().contains_key(a)
                &&& self.actors()[a].max_issued() < barrier.epoch.prev
                &&& !self.actors()[a].stopping()
            } by {
                let m = choose|m: int| 0 <= m < elems.len() && elems[m] == a;
            }
        }
        true
    }

    /// Reports the next completion of some partial graph, polling the graphs in order.
    /// The barrier's stopped actors are handed back so that they can be dropped.
    ///
    /// When no graph has a completion ready nothing changes, so asking again later
    /// gives the same answer until an event arrives.
    pub fn next_completed_epoch(&mut self) -> (r: Option<CompletedEpoch>)
        requires
            old(self).wf(),
        ensures
            final(self).wf(),
            final(self).actors() == old(self).actors(),
            final(self).graph_order() == old(self).graph_order(),
            match r {
                Some(c) => {
                    let gv = old(self).graphs()[c.partial_graph_id];
                    &&& old(self).graphs().contains_key(c.partial_graph_id)
                    &&& gv.head_ready()
                    &&& exists|i: int|
                        0 <= i < old(self).graph_order().len() && old(self).graph_order()[i]
                            == c.partial_graph_id && forall|k: int|
                            0 <= k < i ==> !(#[trigger] old(self).graphs()[old(self).graph_order()[k]]).head_ready()
                    &&& c.prev_epoch == gv.queue[0].prev_epoch
                    &&& match c.stop_actors {
                        Some(s) => s.wf() && gv.entries[gv.n_completed as int].barrier.stop_actors == Some(s@),
                        None => gv.entries[gv.n_completed as int].barrier.stop_actors is None,
                    }
                    &&& final(self).graphs() == old(self).graphs().insert(c.partial_graph_id, gv.complete_head())
                },
                None => {
                    &&& forall|g: PartialGraphId| #[trigger] old(self).graphs().contains_key(g) ==> !old(self).graphs()[g].head_ready()
                    &&& *final(self) == *old(self)
                },
            },
    {
        proof {
            self.lemma_wf();
        }
        let mut i: usize = 0;
        let mut found = false;
        while i < self.graph_states.len() && !found
            invariant
                self.wf(),
                *self == *old(self),
                i <= self.graph_states@.len(),
                found ==> i < self.graph_states@.len() && self.graph_states@[i as int].state@.head_ready(),
                forall|k: int| 0 <= k < i ==> !(#[trigger] self.graph_states@[k]).state@.head_ready(),
            decreases self.graph_states@.len() - i + if found { 0int } else { 1int },
        {
            if self.graph_states[i].state.has_completed_head() {
                found = true;
            } else {
                i = i + 1;
            }
        }
        if !found {
            proof {
                assert forall|g: PartialGraphId| #[trigger] old(self).graphs().contains_key(g) implies !old(self).graphs()[g].head_ready() by {
                    let k = index_of_key(self.graph_states@, slot_key(), g);
                    lemma_keyed_index(self.graph_states@, slot_key(), k);
                }
            }
            return None;
        }
        let ghost gs0 = self.graph_states@;
        let mut slot = self.graph_states.remove(i);
        let polled = slot.state.poll_next_completed_barrier();
        let id = slot.partial_graph_id;
        self.graph_states.insert(i, slot);
        proof {
            lemma_keyed_index(gs0, slot_key(), i as int);
            assert(self.graph_states@ =~= gs0.update(i as int, slot));
            lemma_keyed_update(gs0, slot_key(), i as int, slot);
            assert(self.graphs() =~= old(self).graphs().insert(id, slot.state@));
            assert forall|j: int| 0 <= j < self.graph_states@.len() implies (#[trigger] self.graph_states@[j]).state.wf() by {
                if j != i {
                    assert(self.graph_states@[j] == gs0[j]);
                }
            }
            assert(self.graph_order() =~= old(self).graph_order());
            assert(old(self).graph_order()[i as int] == id);
            assert forall|k: int| 0 <= k < i implies !(#[trigger] old(self).graphs()[old(self).graph_order()[k]]).head_ready() by {
                lemma_keyed_index(gs0, slot_key(), k);
            }
        }
        match polled {
            Some(barrier) => {
                let stop_actors = match &barrier.stop_actors {
                    Some(s) => Some(s.clone_set()),
                    None => None,
                };
                Some(CompletedEpoch { partial_graph_id: id, prev_epoch: barrier.epoch.prev, stop_actors })
            },
            None => {
                proof {
                    assert(false);
                }
                None
            },
        }
    }

    /// Takes out the outcome of the completed epoch `prev_epoch` of partial graph
    /// `partial_graph_id` (see `PartialGraphManagedBarrierState::pop_completed_epoch`).
    pub fn pop_completed_epoch(&mut self, partial_graph_id: PartialGraphId, prev_epoch: u64) -> (r: Result<
        Option<Result<crate::barrier::BarrierCompleteResult, StreamError>>,
        StreamError,
    >)
        requires
            old(self).wf(),
        ensures
            final(self).wf(),
            final(self).actors() == old(self).actors(),
            final(self).graph_order() == old(self).graph_order(),
            !old(self).graphs().contains_key(partial_graph_id) ==> r == Err::<
                Option<Result<crate::barrier::BarrierCompleteResult, StreamError>>,
                StreamError,
            >(StreamError::PartialGraphNotFound { partial_graph_id }) && final(self).graphs() == old(self).graphs(),
            old(self).graphs().contains_key(partial_graph_id) ==> {
                let gv = old(self).graphs()[partial_graph_id];
                &&& final(self).graphs().dom() == old(self).graphs().dom()
                &&& forall|g: PartialGraphId| g != partial_graph_id ==> #[trigger] final(self).graphs()[g] == old(self).graphs()[g]
                &&& !gv.has_epoch(prev_epoch) ==> r == Err::<
                    Option<Result<crate::barrier::BarrierCompleteResult, StreamError>>,
                    StreamError,
                >(StreamError::EpochNotFound { prev_epoch }) && final(self).graphs()[partial_graph_id] == gv
                &&& gv.has_epoch(prev_epoch) ==> match gv.entries[gv.index_of(prev_epoch)].status {
                    crate::model::EpochStatus::Completed(o) => {
                        &&& r is Ok
                        &&& r->Ok_0 is Some
                        &&& crate::graph::outcome_view(r->Ok_0->Some_0) == o
                        &&& final(self).graphs()[partial_graph_id] == gv.remove_at(gv.index_of(prev_epoch))
                    },
                    _ => r is Ok && r->Ok_0 is None && final(self).graphs()[partial_graph_id] == gv,
                }
            },
    {
        let gi = match self.find_graph(partial_graph_id) {
            Some(gi) => gi,
            None => return Err(StreamError::PartialGraphNotFound { partial_graph_id }),
        };
        let ghost gs0 = self.graph_states@;
        let mut slot = self.graph_states.remove(gi);
        let r = slot.state.pop_completed_epoch(prev_epoch);
        self.graph_states.insert(gi, slot);
        proof {
            assert(self.graph_states@ =~= gs0.update(gi as int, slot));
            lemma_keyed_update(gs0, slot_key(), gi as int, slot);
            assert(self.graphs() =~= old(self).graphs().insert(partial_graph_id, slot.state@));
            assert forall|j: int| 0 <= j < self.graph_states@.len() implies (#[trigger] self.graph_states@[j]).state.wf() by {
                if j != gi {
                    assert(self.graph_states@[j] == gs0[j]);
                }
            }
            assert(self.graph_order() =~= old(self).graph_order());
        }
        r
    }

    /// Records the outcome of the state-store sync of `prev_epoch` in partial graph
    /// `partial_graph_id`. Returns whether the epoch's completion was waiting for it;
    /// if not, nothing changes.
    pub fn complete_sync(
        &mut self,
        partial_graph_id: PartialGraphId,
        prev_epoch: u64,
        outcome: Result<crate::barrier::SyncResult, StreamError>,
    ) -> (r: bool)
        requires
            old(self).wf(),
        ensures
            final(self).wf(),
            final(self).actors() == old(self).actors(),
            final(self).graph_order() == old(self).graph_order(),
            r == (old(self).graphs().contains_key(partial_graph_id) && old(self).graphs()[partial_graph_id].awaiting_sync(prev_epoch)),
            r ==> final(self).graphs() == old(self).graphs().insert(
                partial_graph_id,
                old(self).graphs()[partial_graph_id].finish_sync(
                    old(self).graphs()[partial_graph_id].queue_index(prev_epoch),
                    outcome,
                ),
            ),
            !r ==> final(self).graphs() == old(self).graphs(),
    {
        let gi = match self.find_graph(partial_graph_id) {
            Some(gi) => gi,
            None => return false,
        };
        let ghost gs0 = self.graph_states@;
        let mut slot = self.graph_states.remove(gi);
        let r = slot.state.complete_sync(prev_epoch, outcome);
        self.graph_states.insert(gi, slot);
        proof {
            assert(self.graph_states@ =~= gs0.update(gi as int, slot));
            lemma_keyed_update(gs0, slot_key(), gi as int, slot);
            assert(self.graphs() =~= old(self).graphs().insert(partial_graph_id, slot.state@));
            assert forall|j: int| 0 <= j < self.graph_states@.len() implies (#[trigger] self.graph_states@[j]).state.wf() by {
                if j != gi {
                    assert(self.graph_states@[j] == gs0[j]);
                }
            }
            assert(self.graph_order() =~= old(self).graph_order());
            if !r {
                assert(self.graphs() =~= old(self).graphs());
            }
        }
        r
    }

    /// Cancels every actor's tasks and forgets the actors. Returns the actors' task
    /// handles, one per actor, so that their ends can be awaited.
    pub fn abort_actors(&mut self) -> (r: Vec<JoinHandle<()>>)
        requires
            old(self).wf(),
        ensures
            final(self).wf(),
            final(self).actors() == Map::<ActorId, InflightActorState>::empty(),
            final(self).graphs() == old(self).graphs(),
            final(self).graph_order() == old(self).graph_order(),
            r@.len() == old(self).actors().dom().len(),
    {
        proof {
            crate::keyed::lemma_keyed_len(self.actor_states@, actor_key());
        }
        let mut handles: Vec<JoinHandle<()>> = Vec::new();
        while self.actor_states.len() > 0
            invariant
                self.wf(),
                self.graph_states == old(self).graph_states,
                handles@.len() + self.actor_states@.len() == old(self).actor_states@.len(),
            decreases self.actor_states@.len(),
        {
            let ghost s0 = self.actor_states@;
            let last = self.actor_states.len() - 1;
            let st = self.actor_states.remove(last);
            proof {
                assert(self.actor_states@ =~= s0.remove(last as int));
                lemma_keyed_remove(s0, actor_key(), last as int);
                assert forall|j: int| 0 <= j < self.actor_states@.len() implies (#[trigger] self.actor_states@[j]).wf() by {
                    assert(self.actor_states@[j] == s0[j]);
                }
            }
            handles.push(st.abort());
        }
        assert(self.actors() =~= Map::<ActorId, InflightActorState>::empty());
        handles
    }

    /// The subscriptions of partial graph `partial_graph_id`, per upstream
    /// materialized view, to hand to the actors spawned for it.
    pub fn subscriptions_snapshot(&self, partial_graph_id: PartialGraphId) -> (r: Option<Vec<(crate::barrier::TableId, Vec<u32>)>>)
        requires
            self.wf(),
        ensures
            r is Some <==> self.graphs().contains_key(partial_graph_id),
            r is Some ==> {
                let s = self.graphs()[partial_graph_id].subscriptions;
                &&& r->Some_0@.len() == s.len()
                &&& forall|i: int|
                    0 <= i < s.len() ==> (#[trigger] r->Some_0@[i]).0 == s[i].0 && r->Some_0@[i].1@.to_set() == s[i].1
            },
    {
        match self.find_graph(partial_graph_id) {
            Some(gi) => {
                proof {
                    assert(self.graph_states@[gi as int].state.wf());
                }
                Some(self.graph_states[gi].state.subscriptions_snapshot())
            },
            None => None,
        }
    }

    /// Applies the subscription changes an injected barrier carries to partial graph
    /// `partial_graph_id`: first the additions, then the removals. Returns whether every
    /// addition was new, and whether every removal was present once the additions were
    /// made (each named once).
    pub fn update_subscriptions(
        &mut self,
        partial_graph_id: PartialGraphId,
        subscriptions_to_add: Vec<SubscriptionUpstreamInfo>,
        subscriptions_to_remove: Vec<SubscriptionUpstreamInfo>,
    ) -> (r: (bool, bool))
        requires
            old(self).wf(),
            old(self).graphs().contains_key(partial_graph_id),
        ensures
            final(self).wf(),
            final(self).actors() == old(self).actors(),
            final(self).graph_order() == old(self).graph_order(),
            final(self).graphs().dom() == old(self).graphs().dom(),
            forall|g: PartialGraphId| g != partial_graph_id ==> #[trigger] final(self).graphs()[g] == old(self).graphs()[g],
            ({
                let before = old(self).graphs()[partial_graph_id];
                let after = final(self).graphs()[partial_graph_id];
                let added = subscription_pairs(subscriptions_to_add@);
                let removed = subscription_pairs(subscriptions_to_remove@);
                &&& after == (GraphView { subscriptions: after.subscriptions, ..before })
                &&& forall|t: TableId| #[trigger] after.subscribers(t) == before.subscribers(t).union(
                    listed_subscribers(added, added.len() as int, t),
                ).difference(listed_subscribers(removed, removed.len() as int, t))
                &&& r.0 == before.all_new_subscriptions(added)
                &&& r.1 == forall|i: int|
                    0 <= i < removed.len() ==> before.subscribers(removed[i].1).union(
                        listed_subscribers(added, added.len() as int, removed[i].1),
                    ).contains(removed[i].0) && !(exists|j: int| 0 <= j < i && removed[j] == removed[i])
            }),
    {
        let gi = match self.find_graph(partial_graph_id) {
            Some(gi) => gi,
            None => {
                proof {
                    assert(false);
                }
                return (false, false);
            },
        };
        let ghost gs0 = self.graph_states@;
        let mut slot = self.graph_states.remove(gi);
        let ghost before = slot.state@;
        let added = slot.state.add_subscriptions(subscriptions_to_add);
        let ghost mid = slot.state@;
        let removed = slot.state.remove_subscriptions(subscriptions_to_remove);
        self.graph_states.insert(gi, slot);
        proof {
            assert(self.graph_states@ =~= gs0.update(gi as int, slot));
            lemma_keyed_update(gs0, slot_key(), gi as int, slot);
            assert(self.graphs() =~= old(self).graphs().insert(partial_graph_id, slot.state@));
            assert forall|j: int| 0 <= j < self.graph_states@.len() implies (#[trigger] self.graph_states@[j]).state.wf() by {
                if j != gi {
                    assert(self.graph_states@[j] == gs0[j]);
                }
            }
            assert(self.graph_order() =~= old(self).graph_order());
            assert forall|t: TableId| #[trigger] slot.state@.subscribers(t) == before.subscribers(t).union(
                listed_subscribers(subscription_pairs(subscriptions_to_add@), subscriptions_to_add@.len() as int, t),
            ).difference(listed_subscribers(subscription_pairs(subscriptions_to_remove@), subscriptions_to_remove@.len() as int, t)) by {
                assert(mid.subscribers(t) == before.subscribers(t).union(
                    listed_subscribers(subscription_pairs(subscriptions_to_add@), subscriptions_to_add@.len() as int, t)));
            }
            let added_items = subscription_pairs(subscriptions_to_add@);
            let removed_items = subscription_pairs(subscriptions_to_remove@);
            assert forall|i: int| 0 <= i < removed_items.len() implies mid.subscribers(removed_items[i].1)
                == before.subscribers(removed_items[i].1).union(
                listed_subscribers(added_items, added_items.len() as int, removed_items[i].1)) by {
                let t = removed_items[i].1;
                assert(mid.subscribers(t) == before.subscribers(t).union(
                    listed_subscribers(added_items, added_items.len() as int, t)));
            }
        }
        (added, removed)
    }

    pub fn has_actor(&self, actor_id: ActorId) -> (r: bool)
        requires
            self.wf(),
        ensures
            r == self.actors().contains_key(actor_id),
    {
        self.find_actor(actor_id).is_some()
    }

    /// The state of partial graph `partial_graph_id`, if there is one.
    pub fn graph_state(&self, partial_graph_id: PartialGraphId) -> (r: Option<&PartialGraphManagedBarrierState>)
        requires
            self.wf(),
        ensures
            r is Some <==> self.graphs().contains_key(partial_graph_id),
            r is Some ==> r->Some_0@ == self.graphs()[partial_graph_id] && r->Some_0.wf(),
    {
        match self.find_graph(partial_graph_id) {
            Some(gi) => {
                proof {
                    assert(self.graph_states@[gi as int].state.wf());
                }
                Some(&self.graph_states[gi].state)
            },
            None => None,
        }
    }

    /// The epochs of every partial graph, in polling order, for a debug listing.
    pub fn to_debug_info(&self) -> (r: Vec<(PartialGraphId, Vec<EpochDebugInfo>)>)
        requires
            self.wf(),
        ensures
            r@.len() == self.graph_order().len(),
            forall|i: int|
                0 <= i < r@.len() ==> (#[trigger] r@[i]).0 == self.graph_order()[i] && debug_info_of(
                    self.graphs()[self.graph_order()[i]],
                    r@[i].1@,
                ),
    {
        let mut out: Vec<(PartialGraphId, Vec<EpochDebugInfo>)> = Vec::new();
        let mut i: usize = 0;
        while i < self.graph_states.len()
            invariant
                self.wf(),
                i <= self.graph_states@.len(),
                out@.len() == i,
                forall|j: int|
                    0 <= j < i ==> (#[trigger] out@[j]).0 == self.graph_order()[j] && debug_info_of(
                        self.graphs()[self.graph_order()[j]],
                        out@[j].1@,
                    ),
            decreases self.graph_states@.len() - i,
        {
            proof {
                assert(self.graph_states@[i as int].state.wf());
                lemma_keyed_index(self.graph_states@, slot_key(), i as int);
            }
            let info = self.graph_states[i].state.to_debug_info();
            out.push((self.graph_states[i].partial_graph_id, info));
            i = i + 1;
        }
        out
    }

    /// Records backfill progress for curr epoch `epoch` of partial graph
    /// `partial_graph_id` (see `report_create_mview_progress` of the graph). Returns
    /// whether the graph exists; if not, nothing changes.
    pub fn report_create_mview_progress(
        &mut self,
        partial_graph_id: PartialGraphId,
        epoch: u64,
        progress: crate::barrier::CreateMviewProgress,
    ) -> (r: bool)
        requires
            old(self).wf(),
        ensures
            final(self).wf(),
            final(self).actors() == old(self).actors(),
            final(self).graph_order() == old(self).graph_order(),
            r == old(self).graphs().contains_key(partial_graph_id),
            r ==> final(self).graphs() == old(self).graphs().insert(
                partial_graph_id,
                GraphView {
                    progress: crate::model::record_progress(
                        old(self).graphs()[partial_graph_id].progress,
                        epoch,
                        progress,
                    ),
                    ..old(self).graphs()[partial_graph_id]
                },
            ),
            !r ==> final(self).graphs() == old(self).graphs(),
    {
        let gi = match self.find_graph(partial_graph_id) {
            Some(gi) => gi,
            None => return false,
        };
        let ghost gs0 = self.graph_states@;
        let mut slot = self.graph_states.remove(gi);
        slot.state.report_create_mview_progress(epoch, progress);
        self.graph_states.insert(gi, slot);
        proof {
            assert(self.graph_states@ =~= gs0.update(gi as int, slot));
            lemma_keyed_update(gs0, slot_key(), gi as int, slot);
            assert(self.graphs() =~= old(self).graphs().insert(partial_graph_id, slot.state@));
            assert forall|j: int| 0 <= j < self.graph_states@.len() implies (#[trigger] self.graph_states@[j]).state.wf() by {
                if j != gi {
                    assert(self.graph_states@[j] == gs0[j]);
                }
            }
            assert(self.graph_order() =~= old(self).graph_order());
        }
        true
    }

    /// The backfill progress recorded in partial graph `partial_graph_id` and not yet
    /// handed back, per curr epoch.
    pub fn create_mview_progress(&self, partial_graph_id: PartialGraphId) -> (r: Option<
        Vec<(u64, Vec<crate::barrier::CreateMviewProgress>)>,
    >)
        requires
            self.wf(),
        ensures
            r is Some <==> self.graphs().contains_key(partial_graph_id),
            r is Some ==> {
                let p = self.graphs()[partial_graph_id].progress;
                &&& r->Some_0@.len() == p.len()
                &&& forall|i: int|
                    0 <= i < p.len() ==> (#[trigger] r->Some_0@[i]).0 == p[i].0 && r->Some_0@[i].1@ == p[i].1
            },
    {
        match self.find_graph(partial_graph_id) {
            Some(gi) => Some(self.graph_states[gi].state.create_mview_progress_snapshot()),
            None => None,
        }
    }
}

} // verus!