//! The two passes of a round: the structural pass takes in edges and seeds
//! the propagation, the aggregation pass turns what reached each node into
//! its new rank and sends the new rank on.

use crate::contribution::{
    contributions, delta_views, emits, inflow, lemma_inflow_bounds, raw_sum, Portion, RankDelta,
};
use crate::graph::{
    has_node, lemma_with_edge, lemma_with_node, rank_in, well_formed, with_edge, with_node,
    GraphStore, NodeView,
};
use crate::rank::{accumulate, capped, damped, lemma_damped_bounds, new_rank, RANK_ONE};
use vstd::prelude::*;

verus! {

/// The edges that a vector of pairs of identifiers holds, source first.
pub open spec fn edge_views(v: Seq<(String, String)>) -> Seq<(Seq<char>, Seq<char>)> {
    Seq::new(v.len(), |i: int| (v[i].0@, v[i].1@))
}

/// `nodes` after `edges` have been inserted, one after the other.
pub open spec fn with_edges(
    nodes: Seq<NodeView>,
    edges: Seq<(Seq<char>, Seq<char>)>,
    default_rank: u64,
) -> Seq<NodeView>
    decreases edges.len(),
{
    if edges.len() == 0 {
        nodes
    } else {
        with_edge(
            with_edges(nodes, edges.drop_last(), default_rank),
            edges.last().0,
            edges.last().1,
            default_rank,
        )
    }
}

/// `nodes` with an entry for every node that `deltas` are on their way to.
pub open spec fn with_destinations(
    nodes: Seq<NodeView>,
    deltas: Seq<(Seq<char>, u64)>,
    default_rank: u64,
) -> Seq<NodeView>
    decreases deltas.len(),
{
    if deltas.len() == 0 {
        nodes
    } else {
        with_node(
            with_destinations(nodes, deltas.drop_last(), default_rank),
            deltas.last().0,
            default_rank,
        )
    }
}

/// `nodes` with every rank replaced by the damped sum of what `deltas`
/// bring to that node; a node that nothing reaches has the sum 0.
pub open spec fn reranked(
    nodes: Seq<NodeView>,
    deltas: Seq<(Seq<char>, u64)>,
    default_rank: u64,
    damping: u64,
) -> Seq<NodeView> {
    Seq::new(
        nodes.len(),
        |i: int|
            NodeView {
                rank: damped(
                    raw_sum(deltas, nodes[i].id) as int,
                    default_rank as int,
                    damping as int,
                ) as u64,
                ..nodes[i]
            },
    )
}

/// `nodes` after an aggregation pass over `deltas`.
pub open spec fn aggregated(
    nodes: Seq<NodeView>,
    deltas: Seq<(Seq<char>, u64)>,
    default_rank: u64,
    damping: u64,
) -> Seq<NodeView> {
    reranked(with_destinations(nodes, deltas, default_rank), deltas, default_rank, damping)
}

/// The sum of the ranks of `nodes`.
pub open spec fn rank_total(nodes: Seq<NodeView>) -> int
    decreases nodes.len(),
{
    if nodes.len() == 0 {
        0
    } else {
        rank_total(nodes.drop_last()) + nodes.last().rank
    }
}

/// The sum, over `nodes`, of what `deltas` add up to for each.
pub open spec fn raw_total(nodes: Seq<NodeView>, deltas: Seq<(Seq<char>, u64)>) -> int
    decreases nodes.len(),
{
    if nodes.len() == 0 {
        0
    } else {
        raw_total(nodes.drop_last(), deltas) + raw_sum(deltas, nodes.last().id)
    }
}

/// After a structural pass every node that one of its edges names has an
/// entry. No entry is lost, and no rank changes: a node that had no entry
/// has the default rank, before and after.
pub proof fn lemma_with_edges(
    nodes: Seq<NodeView>,
    edges: Seq<(Seq<char>, Seq<char>)>,
    default_rank: u64,
)
    requires
        well_formed(nodes),
    ensures
        well_formed(with_edges(nodes, edges, default_rank)),
        forall|k: int|
            0 <= k < edges.len() ==> has_node(
                with_edges(nodes, edges, default_rank),
                (#[trigger] edges[k]).0,
            ) && has_node(with_edges(nodes, edges, default_rank), edges[k].1),
        forall|x: Seq<char>|
            has_node(nodes, x) ==> has_node(with_edges(nodes, edges, default_rank), x),
        forall|x: Seq<char>|
            rank_in(with_edges(nodes, edges, default_rank), x, default_rank) == rank_in(
                nodes,
                x,
                default_rank,
            ),
    decreases edges.len(),
{
    if edges.len() > 0 {
        let rest = with_edges(nodes, edges.drop_last(), default_rank);
        lemma_with_edges(nodes, edges.drop_last(), default_rank);
        lemma_with_edge(rest, edges.last().0, edges.last().1, default_rank);
        let after = with_edges(nodes, edges, default_rank);
        assert forall|k: int| 0 <= k < edges.len() implies has_node(after, (#[trigger] edges[k]).0)
            && has_node(after, edges[k].1) by {
            if k < edges.len() - 1 {
                assert(edges.drop_last()[k] == edges[k]);
            }
        }
    }
}

/// Making the entries for the destinations keeps the store well formed and
/// every entry as it was, and afterwards every destination has one.
pub proof fn lemma_with_destinations(
    nodes: Seq<NodeView>,
    deltas: Seq<(Seq<char>, u64)>,
    default_rank: u64,
)
    requires
        well_formed(nodes),
    ensures
        well_formed(with_destinations(nodes, deltas, default_rank)),
        nodes.len() <= with_destinations(nodes, deltas, default_rank).len(),
        forall|i: int|
            0 <= i < nodes.len() ==> (#[trigger] with_destinations(
                nodes,
                deltas,
                default_rank,
            )[i]) == nodes[i],
        forall|k: int|
            0 <= k < deltas.len() ==> has_node(
                with_destinations(nodes, deltas, default_rank),
                (#[trigger] deltas[k]).0,
            ),
        forall|x: Seq<char>|
            has_node(nodes, x) ==> has_node(with_destinations(nodes, deltas, default_rank), x),
    decreases deltas.len(),
{
    if deltas.len() > 0 {
        let rest = with_destinations(nodes, deltas.drop_last(), default_rank);
        lemma_with_destinations(nodes, deltas.drop_last(), default_rank);
        lemma_with_node(rest, deltas.last().0, default_rank);
        let after = with_destinations(nodes, deltas, default_rank);
        assert forall|k: int| 0 <= k < deltas.len() implies has_node(
            after,
            (#[trigger] deltas[k]).0,
        ) by {
            if k < deltas.len() - 1 {
                assert(deltas.drop_last()[k] == deltas[k]);
            }
        }
        assert forall|i: int| 0 <= i < nodes.len() implies (#[trigger] after[i]) == nodes[i] by {
            assert(after[i] == rest[i]);
        }
    }
}

/// A new rank lies between what reached the node and the default rank, and a
/// node that nothing reached has the undamped part of the default rank.
pub proof fn lemma_reranked(
    nodes: Seq<NodeView>,
    deltas: Seq<(Seq<char>, u64)>,
    default_rank: u64,
    damping: u64,
    i: int,
)
    requires
        damping <= RANK_ONE,
        0 <= i < nodes.len(),
    ensures
        reranked(nodes, deltas, default_rank, damping)[i].id == nodes[i].id,
        reranked(nodes, deltas, default_rank, damping)[i].neighbors == nodes[i].neighbors,
        reranked(nodes, deltas, default_rank, damping)[i].rank == damped(
            raw_sum(deltas, nodes[i].id) as int,
            default_rank as int,
            damping as int,
        ),
        raw_sum(deltas, nodes[i].id) == 0 ==> reranked(
            nodes,
            deltas,
            default_rank,
            damping,
        )[i].rank == ((RANK_ONE - damping) * default_rank) / (RANK_ONE as int),
{
    lemma_damped_bounds(raw_sum(deltas, nodes[i].id) as int, default_rank as int, damping as int);
    assert(damping * 0 == 0) by (nonlinear_arith);
}

/// A node that has no entry and that no delta is on its way to has none
/// after the aggregation pass either: its rank stays the default rank.
pub proof fn lemma_untouched_node(
    nodes: Seq<NodeView>,
    deltas: Seq<(Seq<char>, u64)>,
    default_rank: u64,
    damping: u64,
    id: Seq<char>,
)
    requires
        well_formed(nodes),
        !has_node(nodes, id),
        forall|k: int| 0 <= k < deltas.len() ==> (#[trigger] deltas[k]).0 != id,
    ensures
        !has_node(aggregated(nodes, deltas, default_rank, damping), id),
        rank_in(aggregated(nodes, deltas, default_rank, damping), id, default_rank)
            == default_rank,
    decreases deltas.len(),
{
    lemma_no_entry_for(nodes, deltas, default_rank, id);
    let present = with_destinations(nodes, deltas, default_rank);
    let after = aggregated(nodes, deltas, default_rank, damping);
    if has_node(after, id) {
        let i = choose|i: int| 0 <= i < after.len() && (#[trigger] after[i]).id == id;
        assert(present[i].id == id);
    }
}

proof fn lemma_no_entry_for(
    nodes: Seq<NodeView>,
    deltas: Seq<(Seq<char>, u64)>,
    default_rank: u64,
    id: Seq<char>,
)
    requires
        well_formed(nodes),
        !has_node(nodes, id),
        forall|k: int| 0 <= k < deltas.len() ==> (#[trigger] deltas[k]).0 != id,
    ensures
        !has_node(with_destinations(nodes, deltas, default_rank), id),
    decreases deltas.len(),
{
    if deltas.len() > 0 {
        let rest = deltas.drop_last();
        assert forall|k: int| 0 <= k < rest.len() implies (#[trigger] rest[k]).0 != id by {
            assert(rest[k] == deltas[k]);
        }
        lemma_no_entry_for(nodes, rest, default_rank, id);
        lemma_with_destinations(nodes, rest, default_rank);
        lemma_with_node(with_destinations(nodes, rest, default_rank), deltas.last().0, default_rank);
        assert(deltas[deltas.len() - 1].0 != id);
    }
}

/// Ranks are conserved up to rounding: over any nodes, the new ranks add up
/// to the damped sum of what reached them plus the undamped part of the
/// default rank for each, less what rounding down takes: under one
/// billionth a node.
pub proof fn lemma_conservation(
    nodes: Seq<NodeView>,
    deltas: Seq<(Seq<char>, u64)>,
    default_rank: u64,
    damping: u64,
)
    requires
        damping <= RANK_ONE,
    ensures
        RANK_ONE * rank_total(reranked(nodes, deltas, default_rank, damping)) <= damping
            * raw_total(nodes, deltas) + (RANK_ONE - damping) * default_rank * nodes.len(),
        damping * raw_total(nodes, deltas) + (RANK_ONE - damping) * default_rank * nodes.len()
            <= RANK_ONE * rank_total(reranked(nodes, deltas, default_rank, damping)) + (RANK_ONE
            - 1) * nodes.len(),
    decreases nodes.len(),
{
    let one = RANK_ONE as int;
    let d = damping as int;
    let base = default_rank as int;
    if nodes.len() == 0 {
        assert(reranked(nodes, deltas, default_rank, damping) =~= Seq::<NodeView>::empty());
        assert((one - d) * base * 0 == 0) by (nonlinear_arith);
        assert(d * 0 == 0 && one * 0 == 0 && (one - 1) * 0 == 0) by (nonlinear_arith);
    } else {
        let rest = nodes.drop_last();
        let n = nodes.len() as int;
        lemma_conservation(rest, deltas, default_rank, damping);
        let all = reranked(nodes, deltas, default_rank, damping);
        assert(all.drop_last() =~= reranked(rest, deltas, default_rank, damping));
        lemma_reranked(nodes, deltas, default_rank, damping, n - 1);
        let raw = raw_sum(deltas, nodes.last().id) as int;
        let fresh = all.last().rank as int;
        let num = d * raw + (one - d) * base;
        assert(fresh == num / one);
        assert(one * fresh <= num <= one * fresh + (one - 1)) by (nonlinear_arith)
            requires
                fresh == num / one,
                one > 0,
        ;
        let sum_new = rank_total(all.drop_last());
        let sum_raw = raw_total(rest, deltas);
        assert(one * (sum_new + fresh) == one * sum_new + one * fresh) by (nonlinear_arith);
        assert(d * (sum_raw + raw) == d * sum_raw + d * raw) by (nonlinear_arith);
        assert((one - d) * base * n == (one - d) * base * (n - 1) + (one - d) * base)
            by (nonlinear_arith);
        assert((one - 1) * n == (one - 1) * (n - 1) + (one - 1)) by (nonlinear_arith);
    }
}

/// Inserts `edges` into `store`, one after the other.
pub fn apply_edges(store: &mut GraphStore, edges: &Vec<(String, String)>)
    requires
        old(store).wf(),
    ensures
        final(store).wf(),
        final(store)@ == with_edges(
            old(store)@,
            edge_views(edges@),
            old(store).spec_default_rank(),
        ),
        final(store).spec_default_rank() == old(store).spec_default_rank(),
{
    let ghost all = edge_views(edges@);
    let mut k: usize = 0;
    assert(all.take(0) =~= Seq::<(Seq<char>, Seq<char>)>::empty());
    while k < edges.len()
        invariant
            k <= edges.len(),
            all == edge_views(edges@),
            store.wf(),
            store.spec_default_rank() == old(store).spec_default_rank(),
            store@ == with_edges(old(store)@, all.take(k as int), old(store).spec_default_rank()),
        decreases edges.len() - k,
    {
        proof {
            assert(all.take(k as int + 1).drop_last() =~= all.take(k as int));
            assert(all.take(k as int + 1).last() == (edges@[k as int].0@, edges@[k as int].1@));
        }
        store.insert_edge(&edges[k].0, &edges[k].1);
        k += 1;
    }
    assert(all.take(edges.len() as int) =~= all);
}

/// The structural pass of a round: inserts `edges`, then has every node send
/// its whole rank to each of its neighbours.
pub fn structural_pass(store: &mut GraphStore, edges: &Vec<(String, String)>) -> (out: Vec<
    RankDelta,
>)
    requires
        old(store).wf(),
    ensures
        final(store).wf(),
        final(store)@ == with_edges(
            old(store)@,
            edge_views(edges@),
            old(store).spec_default_rank(),
        ),
        final(store).spec_default_rank() == old(store).spec_default_rank(),
        delta_views(out@) == emits(final(store)@, Portion::Whole),
{
    apply_edges(store, edges);
    contributions(store, Portion::Whole)
}

/// Makes an entry for every node that `deltas` are on their way to.
pub fn register_destinations(store: &mut GraphStore, deltas: &Vec<RankDelta>)
    requires
        old(store).wf(),
    ensures
        final(store).wf(),
        final(store)@ == with_destinations(
            old(store)@,
            delta_views(deltas@),
            old(store).spec_default_rank(),
        ),
        final(store).spec_default_rank() == old(store).spec_default_rank(),
{
    let ghost all = delta_views(deltas@);
    let mut k: usize = 0;
    assert(all.take(0) =~= Seq::<(Seq<char>, u64)>::empty());
    while k < deltas.len()
        invariant
            k <= deltas.len(),
            all == delta_views(deltas@),
            store.wf(),
            store.spec_default_rank() == old(store).spec_default_rank(),
            store@ == with_destinations(
                old(store)@,
                all.take(k as int),
                old(store).spec_default_rank(),
            ),
        decreases deltas.len() - k,
    {
        proof {
            assert(all.take(k as int + 1).drop_last() =~= all.take(k as int));
            assert(all.take(k as int + 1).last() == deltas@[k as int]@);
        }
        let _ = store.ensure_node(&deltas[k].node);
        k += 1;
    }
    assert(all.take(deltas.len() as int) =~= all);
}

/// What `deltas` add up to for every node of `store`, stopping at
/// `u64::MAX`: one sum for each entry, in the order of the entries.
pub fn raw_sums(store: &GraphStore, deltas: &Vec<RankDelta>) -> (sums: Vec<u64>)
    requires
        store.wf(),
    ensures
        sums@.len() == store@.len(),
        forall|i: int|
            0 <= i < store@.len() ==> (#[trigger] sums@[i]) == raw_sum(
                delta_views(deltas@),
                store@[i].id,
            ),
{
    let ghost all = delta_views(deltas@);
    let n = store.len();
    let mut sums: Vec<u64> = Vec::new();
    let mut i: usize = 0;
    while i < n
        invariant
            i <= n,
            sums@.len() == i,
            forall|j: int| 0 <= j < i ==> (#[trigger] sums@[j]) == 0,
        decreases n - i,
    {
        sums.push(0);
        i += 1;
    }
    let mut k: usize = 0;
    assert(all.take(0) =~= Seq::<(Seq<char>, u64)>::empty());
    while k < deltas.len()
        invariant
            k <= deltas.len(),
            store.wf(),
            n == store@.len(),
            sums@.len() == n,
            all == delta_views(deltas@),
            forall|j: int|
                0 <= j < n ==> (#[trigger] sums@[j]) == capped(
                    inflow(all.take(k as int), store@[j].id),
                ),
        decreases deltas.len() - k,
    {
        let ghost before = sums@;
        let ghost to = deltas@[k as int].node@;
        proof {
            assert(all.take(k as int + 1).drop_last() =~= all.take(k as int));
            assert(all.take(k as int + 1).last() == deltas@[k as int]@);
        }
        match store.find(&deltas[k].node) {
            Some(at) => {
                let sum = accumulate(sums[at], deltas[k].amount);
                sums[at] = sum;
                proof {
                    assert forall|j: int| 0 <= j < n implies (#[trigger] sums@[j]) == capped(
                        inflow(all.take(k as int + 1), store@[j].id),
                    ) by {
                        lemma_inflow_bounds(all.take(k as int), store@[j].id);
                        assert(before[j] == capped(inflow(all.take(k as int), store@[j].id)));
                        if j != at {
                            if j < at {
                                assert(store@[j].id != store@[at as int].id);
                            } else {
                                assert(store@[at as int].id != store@[j].id);
                            }
                        }
                    }
                }
            },
            None => {
                proof {
                    assert forall|j: int| 0 <= j < n implies (#[trigger] sums@[j]) == capped(
                        inflow(all.take(k as int + 1), store@[j].id),
                    ) by {
                        assert(before[j] == capped(inflow(all.take(k as int), store@[j].id)));
                        if store@[j].id == to {
                            assert(has_node(store@, to));
                        }
                    }
                }
            },
        }
        k += 1;
    }
    assert(all.take(deltas.len() as int) =~= all);
    sums
}

/// Gives every node of `store` its new rank: the damped sum of what `deltas`
/// bring to it.
pub fn rerank(store: &mut GraphStore, deltas: &Vec<RankDelta>, damping: u64)
    requires
        old(store).wf(),
        damping <= RANK_ONE,
    ensures
        final(store).wf(),
        final(store)@ == reranked(
            old(store)@,
            delta_views(deltas@),
            old(store).spec_default_rank(),
            damping,
        ),
        final(store).spec_default_rank() == old(store).spec_default_rank(),
{
    let ghost base = store@;
    let ghost goal = reranked(base, delta_views(deltas@), store.spec_default_rank(), damping);
    let n = store.len();
    let default_rank = store.default_rank();
    let sums = raw_sums(store, deltas);
    let mut i: usize = 0;
    while i < n
        invariant
            i <= n,
            n == base.len(),
            store@.len() == n,
            sums@.len() == n,
            store.wf(),
            damping <= RANK_ONE,
            default_rank == store.spec_default_rank(),
            store.spec_default_rank() == old(store).spec_default_rank(),
            goal == reranked(base, delta_views(deltas@), default_rank, damping),
            forall|k: int|
                0 <= k < n ==> (#[trigger] sums@[k]) == raw_sum(delta_views(deltas@), base[k].id),
            forall|k: int| 0 <= k < i ==> (#[trigger] store@[k]) == goal[k],
            forall|k: int| i <= k < n ==> (#[trigger] store@[k]) == base[k],
        decreases n - i,
    {
        let fresh = new_rank(sums[i], default_rank, damping);
        store.set_rank_at(i, fresh);
        i += 1;
    }
    assert(store@ =~= goal);
}

/// The aggregation pass of a round. Every destination of `deltas` gets an
/// entry; every node of the store gets its new rank; then every node sends
/// its new rank, evenly split, to its neighbours. A node without neighbours
/// sends nothing.
pub fn aggregation_pass(store: &mut GraphStore, deltas: &Vec<RankDelta>, damping: u64) -> (out:
    Vec<RankDelta>)
    requires
        old(store).wf(),
        damping <= RANK_ONE,
    ensures
        final(store).wf(),
        final(store)@ == aggregated(
            old(store)@,
            delta_views(deltas@),
            old(store).spec_default_rank(),
            damping,
        ),
        final(store).spec_default_rank() == old(store).spec_default_rank(),
        delta_views(out@) == emits(final(store)@, Portion::Even),
{
    register_destinations(store, deltas);
    rerank(store, deltas, damping);
    contributions(store, Portion::Even)
}

} // verus!
