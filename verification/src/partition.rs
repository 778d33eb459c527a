//! One partition of the engine: its graph store, its two stashes, and the
//! step that processes the lowest pending epoch once its barrier has fired.

use crate::barrier::{barrier, barrier_holds, channels};
use crate::contribution::{delta_views, emits, Portion, RankDelta};
use crate::graph::{GraphStore, NodeView};
use crate::passes::{aggregated, aggregation_pass, edge_views, structural_pass, with_edges};
use crate::rank::RANK_ONE;
use crate::stash::{pending, EpochStash};
use vstd::prelude::*;

verus! {

/// The state that one partition owns.
pub struct Partition {
    store: GraphStore,
    edges: EpochStash<(String, String)>,
    deltas: EpochStash<RankDelta>,
    damping: u64,
}

/// What a partition sends out for one epoch.
pub struct Emission {
    pub epoch: u64,
    pub deltas: Vec<RankDelta>,
}

/// Whether `epoch` is the lowest epoch pending in either stash.
pub open spec fn lowest_pending<A, B>(
    edges: Map<u64, Seq<A>>,
    deltas: Map<u64, Seq<B>>,
    epoch: u64,
) -> bool {
    &&& edges.dom().contains(epoch) || deltas.dom().contains(epoch)
    &&& forall|e: u64| edges.dom().contains(e) || deltas.dom().contains(e) ==> epoch <= e
}

/// The store after the structural pass of an epoch with these edges.
pub open spec fn after_structural(
    nodes: Seq<NodeView>,
    edges: Seq<(String, String)>,
    default_rank: u64,
) -> Seq<NodeView> {
    with_edges(nodes, edge_views(edges), default_rank)
}

/// What the structural pass sends: the seeding, if any edge was pending.
pub open spec fn seeding(after: Seq<NodeView>, edges: Seq<(String, String)>) -> Seq<
    (Seq<char>, u64),
> {
    if edges.len() > 0 {
        emits(after, Portion::Whole)
    } else {
        Seq::empty()
    }
}

/// The store after the aggregation pass of an epoch with these deltas: as it
/// was, if none was pending.
pub open spec fn after_aggregation(
    nodes: Seq<NodeView>,
    deltas: Seq<RankDelta>,
    default_rank: u64,
    damping: u64,
) -> Seq<NodeView> {
    if deltas.len() > 0 {
        aggregated(nodes, delta_views(deltas), default_rank, damping)
    } else {
        nodes
    }
}

/// What the aggregation pass sends: the even split of the new ranks, if any
/// delta was pending.
pub open spec fn splitting(after: Seq<NodeView>, deltas: Seq<RankDelta>) -> Seq<
    (Seq<char>, u64),
> {
    if deltas.len() > 0 {
        emits(after, Portion::Even)
    } else {
        Seq::empty()
    }
}

/// Epochs are processed in rising order: once the lowest pending epoch has
/// been processed, whatever is still pending is of a later epoch.
pub proof fn lemma_epochs_in_order<A, B>(
    edges: Map<u64, Seq<A>>,
    deltas: Map<u64, Seq<B>>,
    epoch: u64,
)
    requires
        lowest_pending(edges, deltas, epoch),
    ensures
        forall|e: u64|
            edges.remove(epoch).dom().contains(e) || deltas.remove(epoch).dom().contains(e)
                ==> epoch < e,
        forall|other: u64| lowest_pending(edges, deltas, other) ==> other == epoch,
{
}

impl Partition {
    /// The partition's invariant.
    pub closed spec fn wf(&self) -> bool {
        &&& self.store.wf()
        &&& self.edges.wf()
        &&& self.deltas.wf()
        &&& self.damping <= RANK_ONE
    }

    /// The nodes of the graph store.
    pub closed spec fn nodes(&self) -> Seq<NodeView> {
        self.store@
    }

    /// The pending edges by epoch.
    pub closed spec fn pending_edges(&self) -> Map<u64, Seq<(String, String)>> {
        self.edges@
    }

    /// The pending rank deltas by epoch.
    pub closed spec fn pending_deltas(&self) -> Map<u64, Seq<RankDelta>> {
        self.deltas@
    }

    /// The damping factor, in billionths.
    pub closed spec fn spec_damping(&self) -> u64 {
        self.damping
    }

    /// The rank of a node that no round has updated.
    pub closed spec fn spec_default_rank(&self) -> u64 {
        self.store.spec_default_rank()
    }

    /// A partition with nothing in it. A damping factor above one whole is
    /// refused.
    pub fn new(default_rank: u64, damping: u64) -> (r: Option<Partition>)
        ensures
            r is Some <==> damping <= RANK_ONE,
            r matches Some(p) ==> p.wf() && p.nodes() == Seq::<NodeView>::empty()
                && p.pending_edges() == Map::<u64, Seq<(String, String)>>::empty()
                && p.pending_deltas() == Map::<u64, Seq<RankDelta>>::empty()
                && p.spec_default_rank() == default_rank && p.spec_damping() == damping,
    {
        if damping > RANK_ONE {
            None
        } else {
            Some(
                Partition {
                    store: GraphStore::new(default_rank),
                    edges: EpochStash::new(),
                    deltas: EpochStash::new(),
                    damping,
                },
            )
        }
    }

    /// The graph store, with the current ranks.
    pub fn store(&self) -> (s: &GraphStore)
        requires
            self.wf(),
        ensures
            s.wf(),
            s@ == self.nodes(),
            s.spec_default_rank() == self.spec_default_rank(),
    {
        &self.store
    }

    /// Stashes edges that arrived with `epoch`.
    pub fn receive_edges(&mut self, epoch: u64, edges: Vec<(String, String)>)
        requires
            old(self).wf(),
        ensures
            final(self).wf(),
            final(self).pending_edges() == if edges@.len() == 0 {
                old(self).pending_edges()
            } else {
                old(self).pending_edges().insert(
                    epoch,
                    pending(old(self).pending_edges(), epoch) + edges@,
                )
            },
            final(self).pending_deltas() == old(self).pending_deltas(),
            final(self).nodes() == old(self).nodes(),
            final(self).spec_default_rank() == old(self).spec_default_rank(),
            final(self).spec_damping() == old(self).spec_damping(),
    {
        self.edges.push(epoch, edges);
    }

    /// Stashes rank deltas that arrived with `epoch`.
    pub fn receive_deltas(&mut self, epoch: u64, deltas: Vec<RankDelta>)
        requires
            old(self).wf(),
        ensures
            final(self).wf(),
            final(self).pending_deltas() == if deltas@.len() == 0 {
                old(self).pending_deltas()
            } else {
                old(self).pending_deltas().insert(
                    epoch,
                    pending(old(self).pending_deltas(), epoch) + deltas@,
                )
            },
            final(self).pending_edges() == old(self).pending_edges(),
            final(self).nodes() == old(self).nodes(),
            final(self).spec_default_rank() == old(self).spec_default_rank(),
            final(self).spec_damping() == old(self).spec_damping(),
    {
        self.deltas.push(epoch, deltas);
    }

    /// The lowest epoch for which anything is pending.
    pub fn next_epoch(&self) -> (r: Option<u64>)
        requires
            self.wf(),
        ensures
            match r {
                Some(e) => lowest_pending(self.pending_edges(), self.pending_deltas(), e),
                None => self.pending_edges() == Map::<u64, Seq<(String, String)>>::empty()
                    && self.pending_deltas() == Map::<u64, Seq<RankDelta>>::empty(),
            },
    {
        match (self.edges.lowest(), self.deltas.lowest()) {
            (Some(a), Some(b)) => if a <= b {
                Some(a)
            } else {
                Some(b)
            },
            (Some(a), None) => Some(a),
            (None, Some(b)) => Some(b),
            (None, None) => None,
        }
    }

    /// Processes the lowest pending epoch, if its barrier holds: first the
    /// structural pass over its edges, then the aggregation pass over its
    /// deltas. What was pending for the epoch is gone afterwards. Where
    /// nothing is pending, or the barrier of the lowest pending epoch does
    /// not hold yet, nothing changes.
    pub fn step(&mut self, frontiers: &Vec<Vec<u64>>) -> (r: Option<Emission>)
        requires
            old(self).wf(),
        ensures
            final(self).wf(),
            final(self).spec_default_rank() == old(self).spec_default_rank(),
            final(self).spec_damping() == old(self).spec_damping(),
            match r {
                Some(out) => {
                    let edges = pending(old(self).pending_edges(), out.epoch);
                    let deltas = pending(old(self).pending_deltas(), out.epoch);
                    let mid = after_structural(
                        old(self).nodes(),
                        edges,
                        old(self).spec_default_rank(),
                    );
                    &&& lowest_pending(
                        old(self).pending_edges(),
                        old(self).pending_deltas(),
                        out.epoch,
                    )
                    &&& barrier(channels(frontiers@), out.epoch)
                    &&& final(self).pending_edges() == old(self).pending_edges().remove(
                        out.epoch,
                    )
                    &&& final(self).pending_deltas() == old(self).pending_deltas().remove(
                        out.epoch,
                    )
                    &&& final(self).nodes() == after_aggregation(
                        mid,
                        deltas,
                        old(self).spec_default_rank(),
                        old(self).spec_damping(),
                    )
                    &&& delta_views(out.deltas@) == seeding(mid, edges) + splitting(
                        final(self).nodes(),
                        deltas,
                    )
                },
                None => {
                    &&& final(self).nodes() == old(self).nodes()
                    &&& final(self).pending_edges() == old(self).pending_edges()
                    &&& final(self).pending_deltas() == old(self).pending_deltas()
                    &&& forall|e: u64|
                        lowest_pending(old(self).pending_edges(), old(self).pending_deltas(), e)
                            ==> !barrier(channels(frontiers@), e)
                },
            },
    {
        let epoch = match self.next_epoch() {
            Some(e) => e,
            None => {
                return None;
            },
        };
        if !barrier_holds(frontiers, epoch) {
            return None;
        }
        let edges = self.edges.take(epoch);
        let mut out: Vec<RankDelta> = Vec::new();
        if edges.len() > 0 {
            out = structural_pass(&mut self.store, &edges);
        } else {
            assert(edge_views(edges@) =~= Seq::<(Seq<char>, Seq<char>)>::empty());
        }
        let ghost seeds = delta_views(out@);
        let deltas = self.deltas.take(epoch);
        if deltas.len() > 0 {
            let mut more = aggregation_pass(&mut self.store, &deltas, self.damping);
            let ghost splits = delta_views(more@);
            out.append(&mut more);
            assert(delta_views(out@) =~= seeds + splits);
        } else {
            assert(delta_views(out@) =~= seeds + Seq::<(Seq<char>, u64)>::empty());
        }
        Some(Emission { epoch, deltas: out })
    }
}

} // verus!
