//! Rank contributions: what a node sends along its outgoing edges, and what
//! reaches a node.

use crate::graph::{GraphStore, NodeView};
use crate::name_set::names;
use crate::rank::{accumulate, capped, even_share, lemma_even_split, share};
use vstd::prelude::*;

verus! {

/// A contribution of rank on its way to `node`.
#[derive(Debug, PartialEq, Eq)]
pub struct RankDelta {
    pub node: String,
    pub amount: u64,
}

impl View for RankDelta {
    type V = (Seq<char>, u64);

    open spec fn view(&self) -> (Seq<char>, u64) {
        (self.node@, self.amount)
    }
}

/// How a node's rank is put on its outgoing edges.
#[derive(Clone, Copy, Debug, PartialEq, Eq, Structural)]
pub enum Portion {
    /// Every edge carries the whole rank: the seeding of the first round.
    Whole,
    /// Every edge carries the rank divided by the out-degree.
    Even,
}

/// The contributions that a vector of deltas holds.
pub open spec fn delta_views(v: Seq<RankDelta>) -> Seq<(Seq<char>, u64)> {
    Seq::new(v.len(), |i: int| v[i]@)
}

/// What one edge of a node of rank `rank` and out-degree `out_degree` carries.
pub open spec fn portion_of(rank: u64, out_degree: nat, portion: Portion) -> u64 {
    match portion {
        Portion::Whole => rank,
        Portion::Even => even_share(rank as int, out_degree as int) as u64,
    }
}

/// The contributions of one node: one for each neighbour, in the order of
/// the neighbour list.
pub open spec fn node_emits(n: NodeView, portion: Portion) -> Seq<(Seq<char>, u64)> {
    Seq::new(
        n.neighbors.len(),
        |j: int| (n.neighbors[j], portion_of(n.rank, n.neighbors.len(), portion)),
    )
}

/// The contributions of all nodes, node after node.
pub open spec fn emits(nodes: Seq<NodeView>, portion: Portion) -> Seq<(Seq<char>, u64)>
    decreases nodes.len(),
{
    if nodes.len() == 0 {
        Seq::empty()
    } else {
        emits(nodes.drop_last(), portion) + node_emits(nodes.last(), portion)
    }
}

/// The sum of all amounts.
pub open spec fn total(deltas: Seq<(Seq<char>, u64)>) -> int
    decreases deltas.len(),
{
    if deltas.len() == 0 {
        0
    } else {
        total(deltas.drop_last()) + deltas.last().1
    }
}

/// The sum of the amounts on their way to `id`.
pub open spec fn inflow(deltas: Seq<(Seq<char>, u64)>, id: Seq<char>) -> int
    decreases deltas.len(),
{
    if deltas.len() == 0 {
        0
    } else {
        inflow(deltas.drop_last(), id) + if deltas.last().0 == id {
            deltas.last().1 as int
        } else {
            0
        }
    }
}

/// What a round adds up for `id`: its inflow, stopping at `u64::MAX`.
pub open spec fn raw_sum(deltas: Seq<(Seq<char>, u64)>, id: Seq<char>) -> u64 {
    capped(inflow(deltas, id)) as u64
}

/// Nothing that is sent is negative.
pub proof fn lemma_inflow_bounds(deltas: Seq<(Seq<char>, u64)>, id: Seq<char>)
    ensures
        0 <= inflow(deltas, id) <= total(deltas),
    decreases deltas.len(),
{
    if deltas.len() > 0 {
        lemma_inflow_bounds(deltas.drop_last(), id);
    }
}

/// `k` contributions of the same amount add up to `k` times the amount.
proof fn lemma_total_uniform(deltas: Seq<(Seq<char>, u64)>, amount: u64)
    requires
        forall|j: int| 0 <= j < deltas.len() ==> (#[trigger] deltas[j]).1 == amount,
    ensures
        total(deltas) == deltas.len() * amount,
    decreases deltas.len(),
{
    if deltas.len() > 0 {
        let rest = deltas.drop_last();
        assert forall|j: int| 0 <= j < rest.len() implies (#[trigger] rest[j]).1 == amount by {
            assert(rest[j] == deltas[j]);
        }
        lemma_total_uniform(rest, amount);
        assert(deltas.last() == deltas[deltas.len() - 1]);
        assert((deltas.len() - 1) * amount + amount == deltas.len() * amount)
            by (nonlinear_arith);
    }
}

/// What a node sends in the seeding is its whole rank on every edge.
pub proof fn lemma_seed_total(n: NodeView)
    ensures
        node_emits(n, Portion::Whole).len() == n.neighbors.len(),
        total(node_emits(n, Portion::Whole)) == n.neighbors.len() * n.rank,
{
    lemma_total_uniform(node_emits(n, Portion::Whole), n.rank);
}

/// What a node with outgoing edges sends in an even split adds up to its
/// rank, less what rounding down leaves over: fewer billionths than it has
/// edges, and none where the out-degree divides the rank.
pub proof fn lemma_split_total(n: NodeView)
    requires
        n.neighbors.len() > 0,
    ensures
        node_emits(n, Portion::Even).len() == n.neighbors.len(),
        total(node_emits(n, Portion::Even)) == n.neighbors.len() * even_share(
            n.rank as int,
            n.neighbors.len() as int,
        ),
        total(node_emits(n, Portion::Even)) == n.rank - (n.rank as int) % (n.neighbors.len() as int),
        n.rank - n.neighbors.len() < total(node_emits(n, Portion::Even)) <= n.rank,
{
    let k = n.neighbors.len() as int;
    lemma_even_split(n.rank as int, k);
    let each = even_share(n.rank as int, k);
    assert(0 <= each <= n.rank) by (nonlinear_arith)
        requires
            each == n.rank as int / k,
            k > 0,
            n.rank >= 0,
    ;
    lemma_total_uniform(node_emits(n, Portion::Even), each as u64);
}

/// A node without outgoing edges sends nothing.
pub proof fn lemma_sink_emits_nothing(n: NodeView, portion: Portion)
    requires
        n.neighbors.len() == 0,
    ensures
        node_emits(n, portion) == Seq::<(Seq<char>, u64)>::empty(),
{
    assert(node_emits(n, portion) =~= Seq::<(Seq<char>, u64)>::empty());
}

/// The contributions of every node of `store`: for each node in turn, one
/// for each of its neighbours.
pub fn contributions(store: &GraphStore, portion: Portion) -> (out: Vec<RankDelta>)
    requires
        store.wf(),
    ensures
        delta_views(out@) == emits(store@, portion),
{
    let mut out: Vec<RankDelta> = Vec::new();
    let n = store.len();
    let mut i: usize = 0;
    assert(store@.take(0) =~= Seq::<NodeView>::empty());
    assert(delta_views(out@) =~= emits(store@.take(0), portion));
    while i < n
        invariant
            i <= n,
            n == store@.len(),
            store.wf(),
            delta_views(out@) == emits(store@.take(i as int), portion),
        decreases n - i,
    {
        let neighbors = store.neighbors_at(i);
        let k = neighbors.len();
        let rank = store.rank_at(i);
        let ghost node = store@[i as int];
        let ghost before = delta_views(out@);
        assert(names(neighbors@).len() == neighbors@.len());
        let amount = match portion {
            Portion::Whole => rank,
            Portion::Even => if k == 0 {
                0
            } else {
                share(rank, k)
            },
        };
        let mut j: usize = 0;
        assert(delta_views(out@) =~= before + node_emits(node, portion).take(0));
        while j < k
            invariant
                j <= k,
                k == neighbors@.len(),
                k == node.neighbors.len(),
                names(neighbors@) == node.neighbors,
                k > 0 ==> amount == portion_of(node.rank, node.neighbors.len(), portion),
                delta_views(out@) == before + node_emits(node, portion).take(j as int),
            decreases k - j,
        {
            let ghost so_far = delta_views(out@);
            out.push(RankDelta { node: neighbors[j].clone(), amount });
            proof {
                assert(names(neighbors@)[j as int] == neighbors@[j as int]@);
                assert(delta_views(out@) =~= so_far.push((node.neighbors[j as int], amount)));
                assert(node_emits(node, portion).take(j as int + 1) =~= node_emits(
                    node,
                    portion,
                ).take(j as int).push((node.neighbors[j as int], amount)));
                assert(delta_views(out@) =~= before + node_emits(node, portion).take(
                    j as int + 1,
                ));
            }
            j += 1;
        }
        proof {
            assert(node_emits(node, portion).take(k as int) =~= node_emits(node, portion));
            assert(store@.take(i as int + 1).drop_last() =~= store@.take(i as int));
            assert(store@.take(i as int + 1).last() == node);
        }
        i += 1;
    }
    assert(store@.take(n as int) =~= store@);
    out
}

/// What `deltas` add up to for `id`, stopping at `u64::MAX`.
pub fn sum_for(deltas: &Vec<RankDelta>, id: &String) -> (sum: u64)
    ensures
        sum == raw_sum(delta_views(deltas@), id@),
{
    let ghost all = delta_views(deltas@);
    let mut sum: u64 = 0;
    let mut j: usize = 0;
    assert(all.take(0) =~= Seq::<(Seq<char>, u64)>::empty());
    while j < deltas.len()
        invariant
            j <= deltas.len(),
            all == delta_views(deltas@),
            sum == capped(inflow(all.take(j as int), id@)),
        decreases deltas.len() - j,
    {
        proof {
            assert(all.take(j as int + 1).drop_last() =~= all.take(j as int));
            assert(all.take(j as int + 1).last() == deltas@[j as int]@);
            lemma_inflow_bounds(all.take(j as int), id@);
        }
        if deltas[j].node == *id {
            sum = accumulate(sum, deltas[j].amount);
        }
        j += 1;
    }
    assert(all.take(deltas.len() as int) =~= all);
    sum
}

} // verus!
