//! The iteration controller: it feeds what a round sends out back as the
//! input of the next epoch, for a bounded number of rounds, and drives the
//! partitions of a whole computation round by round.

use crate::barrier::{barrier, can_arrive, channels};
use crate::contribution::{delta_views, emits, inflow, Portion, RankDelta};
use crate::graph::NodeView;
use crate::partition::{after_aggregation, after_structural, lowest_pending, Partition};
use crate::passes::{aggregated, edge_views, with_edges};
use crate::rank::RANK_ONE;
use crate::router::{owner, route};
use crate::stash::pending;
use crate::timestamp::{advanced, not_after};
use vstd::prelude::*;

verus! {

/// The stores of all partitions and what is on its way between them.
pub struct ClusterView {
    pub stores: Seq<Seq<NodeView>>,
    pub inflight: Seq<(Seq<char>, u64)>,
}

/// The partitions at the end of a computation.
pub struct Report {
    pub partitions: Vec<Partition>,
    /// The number of rounds in which the feedback fired.
    pub rounds: u64,
    /// What the last round sent out: it is past the limit and not fed back.
    pub dropped: Vec<RankDelta>,
}

/// The epoch in which a record sent in `epoch` comes back: `step` later,
/// unless that is after `limit`; then the record is dropped.
pub open spec fn fed_back(epoch: u64, step: u64, limit: u64) -> Option<u64> {
    if epoch + step <= limit {
        Some((epoch + step) as u64)
    } else {
        None
    }
}

/// How often the feedback fires for what starts in `epoch`.
pub open spec fn firings(epoch: u64, step: u64, limit: u64) -> nat
    decreases limit - epoch,
{
    match fed_back(epoch, step, limit) {
        Some(next) => if step > 0 {
            1 + firings(next, step, limit)
        } else {
            0
        },
        None => 0,
    }
}

/// The edges whose source the partition `p` of `peers` owns.
pub open spec fn edges_for(edges: Seq<(Seq<char>, Seq<char>)>, peers: nat, p: nat) -> Seq<
    (Seq<char>, Seq<char>),
>
    decreases edges.len(),
{
    if edges.len() == 0 {
        Seq::empty()
    } else if owner(edges.last().0, peers) == p {
        edges_for(edges.drop_last(), peers, p).push(edges.last())
    } else {
        edges_for(edges.drop_last(), peers, p)
    }
}

/// The deltas whose destination the partition `p` of `peers` owns.
pub open spec fn deltas_for(deltas: Seq<(Seq<char>, u64)>, peers: nat, p: nat) -> Seq<
    (Seq<char>, u64),
>
    decreases deltas.len(),
{
    if deltas.len() == 0 {
        Seq::empty()
    } else if owner(deltas.last().0, peers) == p {
        deltas_for(deltas.drop_last(), peers, p).push(deltas.last())
    } else {
        deltas_for(deltas.drop_last(), peers, p)
    }
}

/// What the partitions send, partition after partition.
pub open spec fn gathered(parts: Seq<Seq<(Seq<char>, u64)>>) -> Seq<(Seq<char>, u64)>
    decreases parts.len(),
{
    if parts.len() == 0 {
        Seq::empty()
    } else {
        gathered(parts.drop_last()) + parts.last()
    }
}

/// The store of partition `p` after the structural pass of the first epoch.
pub open spec fn seeded_store(
    edges: Seq<(Seq<char>, Seq<char>)>,
    peers: nat,
    p: nat,
    default_rank: u64,
) -> Seq<NodeView> {
    with_edges(Seq::empty(), edges_for(edges, peers, p), default_rank)
}

/// What partition `p` sends in the first epoch: nothing, if it got no edge.
pub open spec fn seeded_out(
    edges: Seq<(Seq<char>, Seq<char>)>,
    peers: nat,
    p: nat,
    default_rank: u64,
) -> Seq<(Seq<char>, u64)> {
    if edges_for(edges, peers, p).len() > 0 {
        emits(seeded_store(edges, peers, p, default_rank), Portion::Whole)
    } else {
        Seq::empty()
    }
}

/// The store of partition `p` after a round in which `inflight` was
/// delivered: unchanged, if nothing was for this partition.
pub open spec fn round_store(
    nodes: Seq<NodeView>,
    inflight: Seq<(Seq<char>, u64)>,
    peers: nat,
    p: nat,
    default_rank: u64,
    damping: u64,
) -> Seq<NodeView> {
    if deltas_for(inflight, peers, p).len() > 0 {
        aggregated(nodes, deltas_for(inflight, peers, p), default_rank, damping)
    } else {
        nodes
    }
}

/// What partition `p` sends at the end of such a round.
pub open spec fn round_out(
    after: Seq<NodeView>,
    inflight: Seq<(Seq<char>, u64)>,
    peers: nat,
    p: nat,
) -> Seq<(Seq<char>, u64)> {
    if deltas_for(inflight, peers, p).len() > 0 {
        emits(after, Portion::Even)
    } else {
        Seq::empty()
    }
}

/// The cluster after the first epoch: every partition has taken in the
/// edges whose source it owns and has seeded the propagation.
pub open spec fn start(edges: Seq<(Seq<char>, Seq<char>)>, peers: nat, default_rank: u64)
    -> ClusterView {
    ClusterView {
        stores: Seq::new(peers, |p: int| seeded_store(edges, peers, p as nat, default_rank)),
        inflight: gathered(
            Seq::new(peers, |p: int| seeded_out(edges, peers, p as nat, default_rank)),
        ),
    }
}

/// The cluster one round later: what was in flight has been delivered to the
/// owners of its destinations, and every partition that got something has
/// aggregated it and sent its new ranks on.
pub open spec fn next_round(c: ClusterView, default_rank: u64, damping: u64) -> ClusterView {
    let peers = c.stores.len();
    let stores = Seq::new(
        peers,
        |p: int| round_store(c.stores[p], c.inflight, peers, p as nat, default_rank, damping),
    );
    ClusterView {
        stores,
        inflight: gathered(
            Seq::new(peers, |p: int| round_out(stores[p], c.inflight, peers, p as nat)),
        ),
    }
}

/// The cluster `rounds` rounds later.
pub open spec fn after_rounds(c: ClusterView, rounds: nat, default_rank: u64, damping: u64)
    -> ClusterView
    decreases rounds,
{
    if rounds == 0 {
        c
    } else {
        next_round(after_rounds(c, (rounds - 1) as nat, default_rank, damping), default_rank, damping)
    }
}

/// The stores that a vector of partitions holds.
pub open spec fn stores_of(parts: Seq<Partition>) -> Seq<Seq<NodeView>> {
    Seq::new(parts.len(), |p: int| parts[p].nodes())
}

/// The stores of `parts` with `inflight` on its way between them.
pub open spec fn cluster(parts: Seq<Partition>, inflight: Seq<RankDelta>) -> ClusterView {
    ClusterView { stores: stores_of(parts), inflight: delta_views(inflight) }
}

/// The default rank of the first partition.
pub open spec fn default_of(parts: Seq<Partition>) -> u64 {
    parts[0].spec_default_rank()
}

/// The damping factor of the first partition.
pub open spec fn damping_of(parts: Seq<Partition>) -> u64 {
    parts[0].spec_damping()
}

/// Whether there is a partition, and all are settled with the same default
/// rank and the same damping factor.
pub open spec fn uniform(parts: Seq<Partition>) -> bool {
    parts.len() > 0 && settled(parts, default_of(parts), damping_of(parts))
}

/// Whether every partition is well formed, has nothing pending, and has
/// these two parameters.
pub open spec fn settled(parts: Seq<Partition>, default_rank: u64, damping: u64) -> bool {
    forall|p: int|
        0 <= p < parts.len() ==> {
            &&& (#[trigger] parts[p]).wf()
            &&& parts[p].pending_edges() == Map::<u64, Seq<(String, String)>>::empty()
            &&& parts[p].pending_deltas() == Map::<u64, Seq<RankDelta>>::empty()
            &&& parts[p].spec_default_rank() == default_rank
            &&& parts[p].spec_damping() == damping
        }
}

/// All that is on its way to a node reaches the partition that owns the
/// node, and nothing of it reaches another partition: the owner adds up the
/// node's whole inflow.
pub proof fn lemma_owner_gets_the_inflow(
    deltas: Seq<(Seq<char>, u64)>,
    peers: nat,
    p: nat,
    id: Seq<char>,
)
    requires
        peers > 0,
    ensures
        p == owner(id, peers) ==> inflow(deltas_for(deltas, peers, p), id) == inflow(deltas, id),
        p != owner(id, peers) ==> inflow(deltas_for(deltas, peers, p), id) == 0,
        deltas_for(deltas, peers, p).len() <= deltas.len(),
    decreases deltas.len(),
{
    if deltas.len() > 0 {
        let rest = deltas.drop_last();
        lemma_owner_gets_the_inflow(rest, peers, p, id);
        if owner(deltas.last().0, peers) == p {
            let mine = deltas_for(rest, peers, p).push(deltas.last());
            assert(mine.drop_last() =~= deltas_for(rest, peers, p));
            assert(mine.last() == deltas.last());
        }
    }
}

/// With a step of one epoch the feedback fires in every epoch before the
/// limit and in none from the limit on, so from `epoch` on it fires
/// `limit - epoch` times: a computation that starts in epoch 0 has exactly
/// `limit` rounds of feedback.
pub proof fn lemma_feedback_rounds(epoch: u64, limit: u64)
    ensures
        fed_back(epoch, 1, limit) is Some <==> epoch < limit,
        epoch < limit ==> fed_back(epoch, 1, limit) == Some((epoch + 1) as u64),
        epoch <= limit ==> firings(epoch, 1, limit) == limit - epoch,
        epoch >= limit ==> firings(epoch, 1, limit) == 0,
    decreases limit - epoch,
{
    if epoch < limit {
        lemma_feedback_rounds((epoch + 1) as u64, limit);
    }
}

/// The epoch in which a record sent in `epoch` comes back, if it does.
pub fn feedback(epoch: u64, step: u64, limit: u64) -> (r: Option<u64>)
    ensures
        r == fed_back(epoch, step, limit),
{
    match advanced(epoch, step) {
        Some(next) => if not_after(next, limit) {
            Some(next)
        } else {
            None
        },
        None => None,
    }
}


/// Sorts `edges` by the partition that owns their source.
pub fn route_edges(edges: &Vec<(String, String)>, peers: usize) -> (boxes: Vec<
    Vec<(String, String)>,
>)
    requires
        peers > 0,
    ensures
        boxes@.len() == peers,
        forall|p: int|
            0 <= p < peers ==> edge_views((#[trigger] boxes@[p])@) == edges_for(
                edge_views(edges@),
                peers as nat,
                p as nat,
            ),
{
    let ghost all = edge_views(edges@);
    let mut boxes: Vec<Vec<(String, String)>> = Vec::new();
    let mut p: usize = 0;
    while p < peers
        invariant
            p <= peers,
            boxes@.len() == p,
            forall|q: int| 0 <= q < p ==> (#[trigger] boxes@[q])@.len() == 0,
        decreases peers - p,
    {
        boxes.push(Vec::new());
        p += 1;
    }
    let mut k: usize = 0;
    assert(all.take(0) =~= Seq::<(Seq<char>, Seq<char>)>::empty());
    assert forall|q: int| 0 <= q < peers implies edge_views((#[trigger] boxes@[q])@) == edges_for(
        all.take(0),
        peers as nat,
        q as nat,
    ) by {
        assert(edge_views(boxes@[q]@) =~= Seq::<(Seq<char>, Seq<char>)>::empty());
    }
    while k < edges.len()
        invariant
            k <= edges.len(),
            peers > 0,
            all == edge_views(edges@),
            boxes@.len() == peers,
            forall|q: int|
                0 <= q < peers ==> edge_views((#[trigger] boxes@[q])@) == edges_for(
                    all.take(k as int),
                    peers as nat,
                    q as nat,
                ),
        decreases edges.len() - k,
    {
        let to = route(&edges[k].0, peers);
        let ghost before = boxes@;
        let ghost edge = (edges@[k as int].0@, edges@[k as int].1@);
        proof {
            assert(all.take(k as int + 1).drop_last() =~= all.take(k as int));
            assert(all.take(k as int + 1).last() == edge);
        }
        boxes[to].push((edges[k].0.clone(), edges[k].1.clone()));
        proof {
            assert forall|q: int| 0 <= q < peers implies edge_views((#[trigger] boxes@[q])@)
                == edges_for(all.take(k as int + 1), peers as nat, q as nat) by {
                if q == to {
                    assert(edge_views(boxes@[q]@) =~= edge_views(before[q]@).push(edge));
                } else {
                    assert(boxes@[q] == before[q]);
                }
            }
        }
        k += 1;
    }
    assert(all.take(edges.len() as int) =~= all);
    boxes
}

/// Sorts `deltas` by the partition that owns their destination.
pub fn route_deltas(deltas: &Vec<RankDelta>, peers: usize) -> (boxes: Vec<Vec<RankDelta>>)
    requires
        peers > 0,
    ensures
        boxes@.len() == peers,
        forall|p: int|
            0 <= p < peers ==> delta_views((#[trigger] boxes@[p])@) == deltas_for(
                delta_views(deltas@),
                peers as nat,
                p as nat,
            ),
{
    let ghost all = delta_views(deltas@);
    let mut boxes: Vec<Vec<RankDelta>> = Vec::new();
    let mut p: usize = 0;
    while p < peers
        invariant
            p <= peers,
            boxes@.len() == p,
            forall|q: int| 0 <= q < p ==> (#[trigger] boxes@[q])@.len() == 0,
        decreases peers - p,
    {
        boxes.push(Vec::new());
        p += 1;
    }
    let mut k: usize = 0;
    assert(all.take(0) =~= Seq::<(Seq<char>, u64)>::empty());
    assert forall|q: int| 0 <= q < peers implies delta_views((#[trigger] boxes@[q])@)
        == deltas_for(all.take(0), peers as nat, q as nat) by {
        assert(delta_views(boxes@[q]@) =~= Seq::<(Seq<char>, u64)>::empty());
    }
    while k < deltas.len()
        invariant
            k <= deltas.len(),
            peers > 0,
            all == delta_views(deltas@),
            boxes@.len() == peers,
            forall|q: int|
                0 <= q < peers ==> delta_views((#[trigger] boxes@[q])@) == deltas_for(
                    all.take(k as int),
                    peers as nat,
                    q as nat,
                ),
        decreases deltas.len() - k,
    {
        let to = route(&deltas[k].node, peers);
        let ghost before = boxes@;
        let ghost delta = deltas@[k as int]@;
        proof {
            assert(all.take(k as int + 1).drop_last() =~= all.take(k as int));
            assert(all.take(k as int + 1).last() == delta);
        }
        boxes[to].push(RankDelta { node: deltas[k].node.clone(), amount: deltas[k].amount });
        proof {
            assert forall|q: int| 0 <= q < peers implies delta_views((#[trigger] boxes@[q])@)
                == deltas_for(all.take(k as int + 1), peers as nat, q as nat) by {
                if q == to {
                    assert(delta_views(boxes@[q]@) =~= delta_views(before[q]@).push(delta));
                } else {
                    assert(boxes@[q] == before[q]);
                }
            }
        }
        k += 1;
    }
    assert(all.take(deltas.len() as int) =~= all);
    boxes
}

/// Hands a partition with nothing pending the edges of `epoch` and has it
/// process them, all channels being past that epoch.
fn seed(
    part: &mut Partition,
    epoch: u64,
    edges: Vec<(String, String)>,
    frontiers: &Vec<Vec<u64>>,
) -> (out: Vec<RankDelta>)
    requires
        old(part).wf(),
        old(part).pending_edges() == Map::<u64, Seq<(String, String)>>::empty(),
        old(part).pending_deltas() == Map::<u64, Seq<RankDelta>>::empty(),
        barrier(channels(frontiers@), epoch),
    ensures
        final(part).wf(),
        final(part).pending_edges() == Map::<u64, Seq<(String, String)>>::empty(),
        final(part).pending_deltas() == Map::<u64, Seq<RankDelta>>::empty(),
        final(part).spec_default_rank() == old(part).spec_default_rank(),
        final(part).spec_damping() == old(part).spec_damping(),
        final(part).nodes() == after_structural(
            old(part).nodes(),
            edges@,
            old(part).spec_default_rank(),
        ),
        delta_views(out@) == if edges@.len() > 0 {
            emits(final(part).nodes(), Portion::Whole)
        } else {
            Seq::empty()
        },
{
    let ghost given = edges@;
    let ghost none = Map::<u64, Seq<(String, String)>>::empty();
    part.receive_edges(epoch, edges);
    proof {
        if given.len() > 0 {
            assert(pending(none, epoch) + given =~= given);
            assert(part.pending_edges().dom().contains(epoch));
            assert(lowest_pending(part.pending_edges(), part.pending_deltas(), epoch));
            assert(part.pending_edges().remove(epoch) =~= none);
        } else {
            assert(edge_views(given) =~= Seq::<(Seq<char>, Seq<char>)>::empty());
        }
    }
    let ghost stashed = part.pending_edges();
    match part.step(frontiers) {
        Some(sent) => {
            proof {
                assert(stashed.dom().contains(sent.epoch));
                assert(sent.epoch == epoch);
                assert(delta_views(sent.deltas@) =~= emits(part.nodes(), Portion::Whole));
            }
            sent.deltas
        },
        None => {
            let out: Vec<RankDelta> = Vec::new();
            assert(delta_views(out@) =~= Seq::<(Seq<char>, u64)>::empty());
            out
        },
    }
}

/// Hands a partition with nothing pending the deltas of `epoch` and has it
/// process them, all channels being past that epoch.
fn deliver(
    part: &mut Partition,
    epoch: u64,
    deltas: Vec<RankDelta>,
    frontiers: &Vec<Vec<u64>>,
) -> (out: Vec<RankDelta>)
    requires
        old(part).wf(),
        old(part).pending_edges() == Map::<u64, Seq<(String, String)>>::empty(),
        old(part).pending_deltas() == Map::<u64, Seq<RankDelta>>::empty(),
        barrier(channels(frontiers@), epoch),
    ensures
        final(part).wf(),
        final(part).pending_edges() == Map::<u64, Seq<(String, String)>>::empty(),
        final(part).pending_deltas() == Map::<u64, Seq<RankDelta>>::empty(),
        final(part).spec_default_rank() == old(part).spec_default_rank(),
        final(part).spec_damping() == old(part).spec_damping(),
        final(part).nodes() == after_aggregation(
            old(part).nodes(),
            deltas@,
            old(part).spec_default_rank(),
            old(part).spec_damping(),
        ),
        delta_views(out@) == if deltas@.len() > 0 {
            emits(final(part).nodes(), Portion::Even)
        } else {
            Seq::empty()
        },
{
    let ghost given = deltas@;
    let ghost none = Map::<u64, Seq<RankDelta>>::empty();
    part.receive_deltas(epoch, deltas);
    proof {
        if given.len() > 0 {
            assert(pending(none, epoch) + given =~= given);
            assert(part.pending_deltas().dom().contains(epoch));
            assert(lowest_pending(part.pending_edges(), part.pending_deltas(), epoch));
            assert(part.pending_deltas().remove(epoch) =~= none);
        }
        assert(edge_views(Seq::<(String, String)>::empty()) =~= Seq::<
            (Seq<char>, Seq<char>),
        >::empty());
    }
    let ghost stashed = part.pending_deltas();
    match part.step(frontiers) {
        Some(sent) => {
            proof {
                assert(stashed.dom().contains(sent.epoch));
                assert(sent.epoch == epoch);
                assert(part.pending_edges() =~= Map::<u64, Seq<(String, String)>>::empty());
                assert(delta_views(sent.deltas@) =~= emits(part.nodes(), Portion::Even));
            }
            sent.deltas
        },
        None => {
            let out: Vec<RankDelta> = Vec::new();
            assert(delta_views(out@) =~= Seq::<(Seq<char>, u64)>::empty());
            out
        },
    }
}


/// The frontiers of the two input channels of a partition once everything
/// of the current epoch has been delivered: no more edges come, and deltas
/// come again in the epoch `ahead`, if the feedback fires once more.
fn frontiers_after(ahead: Option<u64>) -> (frontiers: Vec<Vec<u64>>)
    ensures
        channels(frontiers@) == match ahead {
            Some(e) => seq![Seq::<u64>::empty(), seq![e]],
            None => seq![Seq::<u64>::empty(), Seq::<u64>::empty()],
        },
{
    let mut frontiers: Vec<Vec<u64>> = Vec::new();
    frontiers.push(Vec::new());
    let mut deltas: Vec<u64> = Vec::new();
    match ahead {
        Some(e) => {
            deltas.push(e);
            assert(deltas@ =~= seq![e]);
        },
        None => {},
    }
    frontiers.push(deltas);
    proof {
        assert(channels(frontiers@) =~= match ahead {
            Some(e) => seq![Seq::<u64>::empty(), seq![e]],
            None => seq![Seq::<u64>::empty(), Seq::<u64>::empty()],
        });
    }
    frontiers
}

/// Once everything of an epoch has been delivered, its barrier holds.
proof fn lemma_barrier_after(epoch: u64, limit: u64, frontiers: Seq<Seq<u64>>)
    requires
        frontiers == match fed_back(epoch, 1, limit) {
            Some(e) => seq![Seq::<u64>::empty(), seq![e]],
            None => seq![Seq::<u64>::empty(), Seq::<u64>::empty()],
        },
    ensures
        barrier(frontiers, epoch),
{
    assert forall|c: int| 0 <= c < frontiers.len() implies !can_arrive(
        #[trigger] frontiers[c],
        epoch,
    ) by {}
}

/// The first epoch of a computation: every partition takes in the edges
/// whose source it owns and seeds the propagation.
pub fn first_epoch(
    parts: &mut Vec<Partition>,
    edges: &Vec<(String, String)>,
    limit: u64,
) -> (inflight: Vec<RankDelta>)
    requires
        uniform(old(parts)@),
        forall|p: int|
            0 <= p < old(parts)@.len() ==> (#[trigger] old(parts)@[p]).nodes() == Seq::<
                NodeView,
            >::empty(),
    ensures
        final(parts)@.len() == old(parts)@.len(),
        uniform(final(parts)@),
        default_of(final(parts)@) == default_of(old(parts)@),
        damping_of(final(parts)@) == damping_of(old(parts)@),
        cluster(final(parts)@, inflight@) == start(
            edge_views(edges@),
            old(parts)@.len(),
            default_of(old(parts)@),
        ),
{
    let peers = parts.len();
    let ghost default_rank = default_of(old(parts)@);
    let ghost damping = damping_of(old(parts)@);
    let ghost all = edge_views(edges@);
    let frontiers = frontiers_after(feedback(0, 1, limit));
    proof {
        lemma_barrier_after(0, limit, channels(frontiers@));
    }
    let mut boxes = route_edges(edges, peers);
    let mut inflight: Vec<RankDelta> = Vec::new();
    let ghost sent = Seq::new(
        peers as nat,
        |q: int| seeded_out(all, peers as nat, q as nat, default_rank),
    );
    let mut p: usize = 0;
    assert(sent.take(0) =~= Seq::<Seq<(Seq<char>, u64)>>::empty());
    assert(delta_views(inflight@) =~= gathered(sent.take(0)));
    while p < peers
        invariant
            p <= peers,
            peers == parts@.len(),
            peers == boxes@.len(),
            peers > 0,
            all == edge_views(edges@),
            barrier(channels(frontiers@), 0),
            settled(parts@, default_rank, damping),
            sent == Seq::new(
                peers as nat,
                |q: int| seeded_out(all, peers as nat, q as nat, default_rank),
            ),
            forall|q: int|
                p <= q < peers ==> edge_views((#[trigger] boxes@[q])@) == edges_for(
                    all,
                    peers as nat,
                    q as nat,
                ),
            forall|q: int|
                p <= q < peers ==> (#[trigger] parts@[q]).nodes() == Seq::<NodeView>::empty(),
            forall|q: int|
                0 <= q < p ==> (#[trigger] parts@[q]).nodes() == seeded_store(
                    all,
                    peers as nat,
                    q as nat,
                    default_rank,
                ),
            delta_views(inflight@) == gathered(sent.take(p as int)),
        decreases peers - p,
    {
        let mut mine: Vec<(String, String)> = Vec::new();
        let ghost before_boxes = boxes@;
        std::mem::swap(&mut mine, &mut boxes[p]);
        let ghost given = mine@;
        let ghost before = parts@;
        let ghost so_far = delta_views(inflight@);
        assert(before[p as int].wf());
        let mut out = seed(&mut parts[p], 0, mine, &frontiers);
        let ghost fresh = delta_views(out@);
        inflight.append(&mut out);
        proof {
            assert(edge_views(given) == edges_for(all, peers as nat, p as nat));
            assert(edge_views(given).len() == given.len());
            assert(delta_views(inflight@) =~= so_far + fresh);
            assert(fresh == sent[p as int]);
            assert(sent.take(p as int + 1).drop_last() =~= sent.take(p as int));
            assert(sent.take(p as int + 1).last() == sent[p as int]);
            assert forall|q: int| 0 <= q < peers implies {
                &&& (#[trigger] parts@[q]).wf()
                &&& parts@[q].pending_edges() == Map::<u64, Seq<(String, String)>>::empty()
                &&& parts@[q].pending_deltas() == Map::<u64, Seq<RankDelta>>::empty()
                &&& parts@[q].spec_default_rank() == default_rank
                &&& parts@[q].spec_damping() == damping
            } by {
                if q != p {
                    assert(parts@[q] == before[q]);
                }
            }
            assert forall|q: int| p < q < peers implies edge_views((#[trigger] boxes@[q])@)
                == edges_for(all, peers as nat, q as nat) by {
                assert(boxes@[q] == before_boxes[q]);
            }
            assert forall|q: int| p < q < peers implies (#[trigger] parts@[q]).nodes() == Seq::<
                NodeView,
            >::empty() by {
                assert(parts@[q] == before[q]);
            }
            assert forall|q: int| 0 <= q < p + 1 implies (#[trigger] parts@[q]).nodes()
                == seeded_store(all, peers as nat, q as nat, default_rank) by {
                if q != p {
                    assert(parts@[q] == before[q]);
                }
            }
        }
        p += 1;
    }
    proof {
        assert(sent.take(peers as int) =~= sent);
        assert(stores_of(parts@) =~= start(all, peers as nat, default_rank).stores);
    }
    inflight
}

/// One round of feedback: what is in flight is delivered, in `epoch`, to the
/// owners of its destinations; every partition that gets something
/// aggregates it and sends its new ranks on.
pub fn round(
    parts: &mut Vec<Partition>,
    inflight: &Vec<RankDelta>,
    epoch: u64,
    limit: u64,
) -> (sent_on: Vec<RankDelta>)
    requires
        uniform(old(parts)@),
    ensures
        final(parts)@.len() == old(parts)@.len(),
        uniform(final(parts)@),
        default_of(final(parts)@) == default_of(old(parts)@),
        damping_of(final(parts)@) == damping_of(old(parts)@),
        cluster(final(parts)@, sent_on@) == next_round(
            cluster(old(parts)@, inflight@),
            default_of(old(parts)@),
            damping_of(old(parts)@),
        ),
{
    let peers = parts.len();
    let ghost default_rank = default_of(old(parts)@);
    let ghost damping = damping_of(old(parts)@);
    let ghost all = delta_views(inflight@);
    let ghost base = stores_of(old(parts)@);
    let ghost goal = next_round(cluster(old(parts)@, inflight@), default_rank, damping);
    let frontiers = frontiers_after(feedback(epoch, 1, limit));
    proof {
        lemma_barrier_after(epoch, limit, channels(frontiers@));
    }
    let mut boxes = route_deltas(inflight, peers);
    let mut sent_on: Vec<RankDelta> = Vec::new();
    let ghost sent = Seq::new(
        peers as nat,
        |q: int| round_out(goal.stores[q], all, peers as nat, q as nat),
    );
    let mut p: usize = 0;
    assert(sent.take(0) =~= Seq::<Seq<(Seq<char>, u64)>>::empty());
    assert(delta_views(sent_on@) =~= gathered(sent.take(0)));
    while p < peers
        invariant
            p <= peers,
            peers == parts@.len(),
            peers == boxes@.len(),
            peers == base.len(),
            peers > 0,
            all == delta_views(inflight@),
            barrier(channels(frontiers@), epoch),
            settled(parts@, default_rank, damping),
            goal.stores == Seq::new(
                peers as nat,
                |q: int| round_store(base[q], all, peers as nat, q as nat, default_rank, damping),
            ),
            sent == Seq::new(
                peers as nat,
                |q: int| round_out(goal.stores[q], all, peers as nat, q as nat),
            ),
            forall|q: int|
                p <= q < peers ==> delta_views((#[trigger] boxes@[q])@) == deltas_for(
                    all,
                    peers as nat,
                    q as nat,
                ),
            forall|q: int| p <= q < peers ==> (#[trigger] parts@[q]).nodes() == base[q],
            forall|q: int| 0 <= q < p ==> (#[trigger] parts@[q]).nodes() == goal.stores[q],
            delta_views(sent_on@) == gathered(sent.take(p as int)),
        decreases peers - p,
    {
        let mut mine: Vec<RankDelta> = Vec::new();
        let ghost before_boxes = boxes@;
        std::mem::swap(&mut mine, &mut boxes[p]);
        let ghost given = mine@;
        let ghost before = parts@;
        let ghost so_far = delta_views(sent_on@);
        assert(before[p as int].wf());
        let mut out = deliver(&mut parts[p], epoch, mine, &frontiers);
        let ghost fresh = delta_views(out@);
        sent_on.append(&mut out);
        proof {
            assert(delta_views(given) == deltas_for(all, peers as nat, p as nat));
            assert(delta_views(given).len() == given.len());
            assert(parts@[p as int].nodes() == goal.stores[p as int]);
            assert(delta_views(sent_on@) =~= so_far + fresh);
            assert(fresh == sent[p as int]);
            assert(sent.take(p as int + 1).drop_last() =~= sent.take(p as int));
            assert(sent.take(p as int + 1).last() == sent[p as int]);
            assert forall|q: int| 0 <= q < peers implies {
                &&& (#[trigger] parts@[q]).wf()
                &&& parts@[q].pending_edges() == Map::<u64, Seq<(String, String)>>::empty()
                &&& parts@[q].pending_deltas() == Map::<u64, Seq<RankDelta>>::empty()
                &&& parts@[q].spec_default_rank() == default_rank
                &&& parts@[q].spec_damping() == damping
            } by {
                if q != p {
                    assert(parts@[q] == before[q]);
                }
            }
            assert forall|q: int| p < q < peers implies delta_views((#[trigger] boxes@[q])@)
                == deltas_for(all, peers as nat, q as nat) by {
                assert(boxes@[q] == before_boxes[q]);
            }
            assert forall|q: int| p < q < peers implies (#[trigger] parts@[q]).nodes()
                == base[q] by {
                assert(parts@[q] == before[q]);
            }
            assert forall|q: int| 0 <= q < p + 1 implies (#[trigger] parts@[q]).nodes()
                == goal.stores[q] by {
                if q != p {
                    assert(parts@[q] == before[q]);
                }
            }
        }
        p += 1;
    }
    proof {
        assert(sent.take(peers as int) =~= sent);
        assert(stores_of(parts@) =~= goal.stores);
    }
    sent_on
}

/// A whole computation on `peers` partitions: the first epoch takes in
/// `edges`, and then the feedback fires `max_iterations` times. It is
/// refused where there is no partition or the damping factor is above one
/// whole.
pub fn run(
    edges: &Vec<(String, String)>,
    peers: usize,
    default_rank: u64,
    damping: u64,
    max_iterations: u64,
) -> (r: Option<Report>)
    ensures
        r is Some <==> peers > 0 && damping <= RANK_ONE,
        r matches Some(report) ==> {
            &&& report.rounds == max_iterations
            &&& report.rounds == firings(0, 1, max_iterations)
            &&& report.partitions@.len() == peers
            &&& settled(report.partitions@, default_rank, damping)
            &&& cluster(report.partitions@, report.dropped@) == after_rounds(
                start(edge_views(edges@), peers as nat, default_rank),
                max_iterations as nat,
                default_rank,
                damping,
            )
        },
{
    if peers == 0 || damping > RANK_ONE {
        return None;
    }
    let mut parts: Vec<Partition> = Vec::new();
    let mut p: usize = 0;
    while p < peers
        invariant
            p <= peers,
            damping <= RANK_ONE,
            parts@.len() == p,
            settled(parts@, default_rank, damping),
            forall|q: int| 0 <= q < p ==> (#[trigger] parts@[q]).nodes() == Seq::<NodeView>::empty(),
        decreases peers - p,
    {
        match Partition::new(default_rank, damping) {
            Some(part) => {
                parts.push(part);
            },
            None => {},
        }
        p += 1;
    }
    let ghost begin = start(edge_views(edges@), peers as nat, default_rank);
    let mut inflight = first_epoch(&mut parts, edges, max_iterations);
    let mut epoch: u64 = 0;
    let mut next = feedback(epoch, 1, max_iterations);
    proof {
        lemma_feedback_rounds(0, max_iterations);
    }
    while next.is_some()
        invariant
            peers > 0,
            parts@.len() == peers,
            epoch <= max_iterations,
            next == fed_back(epoch, 1, max_iterations),
            settled(parts@, default_rank, damping),
            begin == start(edge_views(edges@), peers as nat, default_rank),
            cluster(parts@, inflight@) == after_rounds(
                begin,
                epoch as nat,
                default_rank,
                damping,
            ),
        decreases max_iterations - epoch,
    {
        let at = next.unwrap();
        inflight = round(&mut parts, &inflight, at, max_iterations);
        epoch = at;
        next = feedback(epoch, 1, max_iterations);
    }
    proof {
        lemma_feedback_rounds(epoch, max_iterations);
    }
    Some(Report { partitions: parts, rounds: epoch, dropped: inflight })
}

} // verus!
