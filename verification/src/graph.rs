//! The graph store of one partition: for each node it has seen, the node's
//! outgoing neighbours and its current rank.

use crate::name_set::{names, NameSet};
use vstd::prelude::*;

verus! {

/// What the store knows of one node.
pub struct NodeView {
    pub id: Seq<char>,
    pub neighbors: Seq<Seq<char>>,
    pub rank: u64,
}

/// The nodes of one partition, in the order in which they were first seen.
pub struct GraphStore {
    ids: NameSet,
    /// The outgoing neighbours of each node.
    links: Vec<NameSet>,
    /// The rank of each node.
    ranks: Vec<u64>,
    default_rank: u64,
}

/// Whether `nodes` has an entry for `id`.
pub open spec fn has_node(nodes: Seq<NodeView>, id: Seq<char>) -> bool {
    exists|i: int| 0 <= i < nodes.len() && (#[trigger] nodes[i]).id == id
}

/// The place of the entry for `id`, where there is one.
pub open spec fn node_index(nodes: Seq<NodeView>, id: Seq<char>) -> int {
    choose|i: int| 0 <= i < nodes.len() && (#[trigger] nodes[i]).id == id
}

/// No node has two entries, and no neighbour is listed twice.
pub open spec fn well_formed(nodes: Seq<NodeView>) -> bool {
    &&& forall|i: int, j: int|
        0 <= i < j < nodes.len() ==> (#[trigger] nodes[i]).id != (#[trigger] nodes[j]).id
    &&& forall|i: int| 0 <= i < nodes.len() ==> (#[trigger] nodes[i]).neighbors.no_duplicates()
}

/// The rank of `id`: the default until the node has an entry.
pub open spec fn rank_in(nodes: Seq<NodeView>, id: Seq<char>, default_rank: u64) -> u64 {
    if has_node(nodes, id) {
        nodes[node_index(nodes, id)].rank
    } else {
        default_rank
    }
}

/// The outgoing neighbours of `id`: none until the node has an entry.
pub open spec fn neighbors_in(nodes: Seq<NodeView>, id: Seq<char>) -> Seq<Seq<char>> {
    if has_node(nodes, id) {
        nodes[node_index(nodes, id)].neighbors
    } else {
        Seq::empty()
    }
}

/// `nodes` with an entry for `id`: a new one has no neighbours and the
/// default rank.
pub open spec fn with_node(nodes: Seq<NodeView>, id: Seq<char>, default_rank: u64) -> Seq<
    NodeView,
> {
    if has_node(nodes, id) {
        nodes
    } else {
        nodes.push(NodeView { id, neighbors: Seq::empty(), rank: default_rank })
    }
}

/// `nodes` with `dst` among the neighbours of `src`, which has an entry.
pub open spec fn with_neighbor(nodes: Seq<NodeView>, src: Seq<char>, dst: Seq<char>) -> Seq<
    NodeView,
> {
    let i = node_index(nodes, src);
    if nodes[i].neighbors.contains(dst) {
        nodes
    } else {
        nodes.update(i, NodeView { neighbors: nodes[i].neighbors.push(dst), ..nodes[i] })
    }
}

/// `nodes` after the edge from `src` to `dst` has been inserted.
pub open spec fn with_edge(
    nodes: Seq<NodeView>,
    src: Seq<char>,
    dst: Seq<char>,
    default_rank: u64,
) -> Seq<NodeView> {
    with_node(with_neighbor(with_node(nodes, src, default_rank), src, dst), dst, default_rank)
}

/// `nodes` with the rank of `id` set to `value`; the entry is made if it is
/// not there.
pub open spec fn with_rank(
    nodes: Seq<NodeView>,
    id: Seq<char>,
    value: u64,
    default_rank: u64,
) -> Seq<NodeView> {
    let present = with_node(nodes, id, default_rank);
    let i = node_index(present, id);
    present.update(i, NodeView { rank: value, ..present[i] })
}

/// The rank table of `nodes`: each node with its rank, in the order of the
/// entries.
pub open spec fn rank_table(nodes: Seq<NodeView>) -> Seq<(Seq<char>, u64)> {
    Seq::new(nodes.len(), |i: int| (nodes[i].id, nodes[i].rank))
}

/// The rows that a vector of identifiers with their ranks holds.
pub open spec fn rows(v: Seq<(String, u64)>) -> Seq<(Seq<char>, u64)> {
    Seq::new(v.len(), |i: int| (v[i].0@, v[i].1))
}

/// In a well-formed store an identifier has one place only.
pub proof fn lemma_node_index(nodes: Seq<NodeView>, id: Seq<char>, i: int)
    requires
        well_formed(nodes),
        0 <= i < nodes.len(),
        nodes[i].id == id,
    ensures
        has_node(nodes, id),
        node_index(nodes, id) == i,
{
    let j = node_index(nodes, id);
    assert(0 <= j < nodes.len() && nodes[j].id == id);
    if j < i {
        assert(nodes[j].id != nodes[i].id);
    } else if i < j {
        assert(nodes[i].id != nodes[j].id);
    }
}

/// Making an entry keeps the store well formed and every entry that was
/// there; afterwards exactly the old identifiers and `id` have one.
pub proof fn lemma_with_node(nodes: Seq<NodeView>, id: Seq<char>, default_rank: u64)
    requires
        well_formed(nodes),
    ensures
        well_formed(with_node(nodes, id, default_rank)),
        has_node(with_node(nodes, id, default_rank), id),
        nodes.len() <= with_node(nodes, id, default_rank).len(),
        forall|i: int|
            0 <= i < nodes.len() ==> (#[trigger] with_node(nodes, id, default_rank)[i])
                == nodes[i],
        forall|x: Seq<char>|
            has_node(with_node(nodes, id, default_rank), x) <==> (has_node(nodes, x) || x
                == id),
        !has_node(nodes, id) ==> rank_in(with_node(nodes, id, default_rank), id, default_rank)
            == default_rank && neighbors_in(with_node(nodes, id, default_rank), id)
            == Seq::<Seq<char>>::empty(),
{
    let after = with_node(nodes, id, default_rank);
    if has_node(nodes, id) {
    } else {
        let last = nodes.len() as int;
        assert(after[last].id == id);
        assert forall|a: int, b: int| 0 <= a < b < after.len() implies (#[trigger] after[a]).id
            != (#[trigger] after[b]).id by {
            if b < nodes.len() {
                assert(nodes[a].id != nodes[b].id);
            } else {
                assert(nodes[a].id != id);
            }
        }
        assert forall|a: int| 0 <= a < after.len() implies (
        #[trigger] after[a]).neighbors.no_duplicates() by {
            if a < nodes.len() {
                assert(nodes[a].neighbors.no_duplicates());
            }
        }
        lemma_node_index(after, id, last);
        assert forall|x: Seq<char>| has_node(after, x) <==> (has_node(nodes, x) || x == id) by {
            if has_node(after, x) {
                let k = node_index(after, x);
                if k < nodes.len() {
                    assert(nodes[k].id == x);
                }
            }
            if has_node(nodes, x) {
                let k = node_index(nodes, x);
                assert(after[k].id == x);
            }
        }
    }
}

/// Listing a neighbour changes one neighbour list and nothing else: the
/// identifiers, their places and the ranks stay.
pub proof fn lemma_with_neighbor(nodes: Seq<NodeView>, src: Seq<char>, dst: Seq<char>)
    requires
        well_formed(nodes),
        has_node(nodes, src),
    ensures
        well_formed(with_neighbor(nodes, src, dst)),
        with_neighbor(nodes, src, dst).len() == nodes.len(),
        forall|i: int|
            0 <= i < nodes.len() ==> (#[trigger] with_neighbor(nodes, src, dst)[i]).id
                == nodes[i].id && with_neighbor(nodes, src, dst)[i].rank == nodes[i].rank,
        forall|i: int|
            0 <= i < nodes.len() && i != node_index(nodes, src) ==> (#[trigger] with_neighbor(
                nodes,
                src,
                dst,
            )[i]) == nodes[i],
        forall|x: Seq<char>| has_node(with_neighbor(nodes, src, dst), x) <==> has_node(nodes, x),
        with_neighbor(nodes, src, dst)[node_index(nodes, src)].neighbors.contains(dst),
        nodes[node_index(nodes, src)].neighbors.contains(dst) ==> with_neighbor(nodes, src, dst)
            == nodes,
        !nodes[node_index(nodes, src)].neighbors.contains(dst) ==> with_neighbor(
            nodes,
            src,
            dst,
        )[node_index(nodes, src)].neighbors == nodes[node_index(nodes, src)].neighbors.push(dst),
{
    let after = with_neighbor(nodes, src, dst);
    let i = node_index(nodes, src);
    assert(0 <= i < nodes.len() && nodes[i].id == src);
    if !nodes[i].neighbors.contains(dst) {
        let grown = nodes[i].neighbors.push(dst);
        assert(grown[grown.len() - 1] == dst);
        assert(nodes[i].neighbors.no_duplicates());
        assert forall|a: int, b: int| 0 <= a < grown.len() && 0 <= b < grown.len() && a
            != b implies grown[a] != grown[b] by {
            if a < nodes[i].neighbors.len() {
                assert(nodes[i].neighbors.contains(grown[a]));
            }
            if b < nodes[i].neighbors.len() {
                assert(nodes[i].neighbors.contains(grown[b]));
            }
        }
        assert forall|a: int| 0 <= a < after.len() implies (
        #[trigger] after[a]).neighbors.no_duplicates() by {
            if a != i {
                assert(nodes[a].neighbors.no_duplicates());
            }
        }
        assert forall|a: int, b: int| 0 <= a < b < after.len() implies (#[trigger] after[a]).id
            != (#[trigger] after[b]).id by {
            assert(nodes[a].id != nodes[b].id);
        }
    }
    assert forall|x: Seq<char>| has_node(after, x) <==> has_node(nodes, x) by {
        if has_node(after, x) {
            let k = node_index(after, x);
            assert(nodes[k].id == x);
        }
        if has_node(nodes, x) {
            let k = node_index(nodes, x);
            assert(after[k].id == x);
        }
    }
}

/// After an edge has been inserted both its ends have an entry. An end that
/// had none before has the default rank; every node that had an entry keeps
/// its rank; and the destination is among the source's neighbours.
pub proof fn lemma_with_edge(
    nodes: Seq<NodeView>,
    src: Seq<char>,
    dst: Seq<char>,
    default_rank: u64,
)
    requires
        well_formed(nodes),
    ensures
        well_formed(with_edge(nodes, src, dst, default_rank)),
        has_node(with_edge(nodes, src, dst, default_rank), src),
        has_node(with_edge(nodes, src, dst, default_rank), dst),
        neighbors_in(with_edge(nodes, src, dst, default_rank), src).contains(dst),
        forall|x: Seq<char>|
            has_node(with_edge(nodes, src, dst, default_rank), x) <==> (has_node(nodes, x) || x
                == src || x == dst),
        forall|x: Seq<char>|
            rank_in(with_edge(nodes, src, dst, default_rank), x, default_rank) == rank_in(
                nodes,
                x,
                default_rank,
            ),
        nodes.len() <= with_edge(nodes, src, dst, default_rank).len(),
        forall|i: int|
            0 <= i < nodes.len() ==> (#[trigger] with_edge(nodes, src, dst, default_rank)[i]).id
                == nodes[i].id && with_edge(nodes, src, dst, default_rank)[i].rank
                == nodes[i].rank,
{
    let a = with_node(nodes, src, default_rank);
    lemma_with_node(nodes, src, default_rank);
    let b = with_neighbor(a, src, dst);
    lemma_with_neighbor(a, src, dst);
    let c = with_node(b, dst, default_rank);
    lemma_with_node(b, dst, default_rank);
    let i = node_index(a, src);
    assert(0 <= i < a.len() && a[i].id == src);
    assert(c[i] == b[i]);
    lemma_node_index(c, src, i);
    assert forall|x: Seq<char>| rank_in(c, x, default_rank) == rank_in(
        nodes,
        x,
        default_rank,
    ) by {
        if has_node(c, x) {
            let k = node_index(c, x);
            assert(0 <= k < c.len() && c[k].id == x);
            if k < nodes.len() {
                assert(c[k] == b[k]);
                assert(b[k].rank == a[k].rank && b[k].id == a[k].id);
                assert(a[k] == nodes[k]);
                lemma_node_index(nodes, x, k);
            } else if k < a.len() {
                assert(c[k] == b[k]);
                assert(b[k].rank == a[k].rank && b[k].id == a[k].id);
                assert(!has_node(nodes, src));
                assert(a[k].rank == default_rank);
                if has_node(nodes, x) {
                    let m = node_index(nodes, x);
                    assert(a[m] == nodes[m]);
                    lemma_node_index(a, x, m);
                    lemma_node_index(a, x, k);
                }
            } else {
                assert(!has_node(b, dst));
                assert(c[k].rank == default_rank);
                assert(x == dst);
            }
        }
    }
    assert forall|k: int| 0 <= k < nodes.len() implies (#[trigger] c[k]).id == nodes[k].id
        && c[k].rank == nodes[k].rank by {
        assert(c[k] == b[k]);
        assert(b[k].id == a[k].id && b[k].rank == a[k].rank);
        assert(a[k] == nodes[k]);
    }
}

/// Inserting an edge that is already there changes nothing, so no neighbour
/// set grows.
pub proof fn lemma_insert_edge_idempotent(
    nodes: Seq<NodeView>,
    src: Seq<char>,
    dst: Seq<char>,
    default_rank: u64,
)
    requires
        well_formed(nodes),
    ensures
        with_edge(with_edge(nodes, src, dst, default_rank), src, dst, default_rank) == with_edge(
            nodes,
            src,
            dst,
            default_rank,
        ),
        has_node(nodes, src) && has_node(nodes, dst) && neighbors_in(nodes, src).contains(dst)
            ==> with_edge(nodes, src, dst, default_rank) == nodes,
{
    let once = with_edge(nodes, src, dst, default_rank);
    lemma_with_edge(nodes, src, dst, default_rank);
    lemma_with_node(once, src, default_rank);
    lemma_with_neighbor(once, src, dst);
    lemma_with_node(once, dst, default_rank);
    if has_node(nodes, src) && has_node(nodes, dst) && neighbors_in(nodes, src).contains(dst) {
        lemma_with_node(nodes, src, default_rank);
        lemma_with_neighbor(nodes, src, dst);
        lemma_with_node(nodes, dst, default_rank);
    }
}

impl View for GraphStore {
    type V = Seq<NodeView>;

    closed spec fn view(&self) -> Seq<NodeView> {
        Seq::new(
            self.ids@.len(),
            |i: int| NodeView { id: self.ids@[i], neighbors: self.links@[i]@, rank: self.ranks@[i] },
        )
    }
}

impl GraphStore {
    /// The rank that a node has when its entry is made.
    pub closed spec fn spec_default_rank(&self) -> u64 {
        self.default_rank
    }

    /// What holds of the store's own parts.
    pub closed spec fn inv(&self) -> bool {
        &&& self.ids.wf()
        &&& self.links@.len() == self.ids@.len()
        &&& self.ranks@.len() == self.ids@.len()
        &&& forall|i: int| 0 <= i < self.links@.len() ==> (#[trigger] self.links@[i]).wf()
    }

    /// The store's invariant.
    pub open spec fn wf(&self) -> bool {
        well_formed(self@) && self.inv()
    }

    proof fn lemma_inv(&self)
        requires
            self.inv(),
        ensures
            well_formed(self@),
    {
        assert forall|i: int, j: int| 0 <= i < j < self@.len() implies (#[trigger] self@[i]).id != (
        #[trigger] self@[j]).id by {
            assert(self.ids@[i] != self.ids@[j]);
        }
        assert forall|i: int| 0 <= i < self@.len() implies (
        #[trigger] self@[i]).neighbors.no_duplicates() by {
            assert(self.links@[i].wf());
        }
    }

    /// An empty store.
    pub fn new(default_rank: u64) -> (s: GraphStore)
        ensures
            s.wf(),
            s@ == Seq::<NodeView>::empty(),
            s.spec_default_rank() == default_rank,
    {
        let s = GraphStore {
            ids: NameSet::new(),
            links: Vec::new(),
            ranks: Vec::new(),
            default_rank,
        };
        assert(s@ =~= Seq::<NodeView>::empty());
        s
    }

    /// The rank that a node has when its entry is made.
    pub fn default_rank(&self) -> (r: u64)
        ensures
            r == self.spec_default_rank(),
    {
        self.default_rank
    }

    /// The number of nodes with an entry.
    pub fn len(&self) -> (n: usize)
        ensures
            n == self@.len(),
    {
        self.ids.len()
    }

    /// The identifier of the node at place `i`.
    pub fn node_id(&self, i: usize) -> (id: &String)
        requires
            i < self@.len(),
        ensures
            id@ == self@[i as int].id,
    {
        self.ids.get(i)
    }

    /// The outgoing neighbours of the node at place `i`.
    pub fn neighbors_at(&self, i: usize) -> (out: &Vec<String>)
        requires
            self.wf(),
            i < self@.len(),
        ensures
            names(out@) == self@[i as int].neighbors,
    {
        self.links[i].as_vec()
    }

    /// The rank of the node at place `i`.
    pub fn rank_at(&self, i: usize) -> (r: u64)
        requires
            self.wf(),
            i < self@.len(),
        ensures
            r == self@[i as int].rank,
    {
        self.ranks[i]
    }

    /// Where the entry for `id` is, if there is one.
    pub fn find(&self, id: &String) -> (r: Option<usize>)
        requires
            self.wf(),
        ensures
            match r {
                Some(i) => i < self@.len() && self@[i as int].id == id@ && i == node_index(
                    self@,
                    id@,
                ),
                None => !has_node(self@, id@),
            },
            r is Some <==> has_node(self@, id@),
    {
        let r = self.ids.find(id);
        proof {
            match r {
                Some(i) => {
                    assert(self@[i as int].id == id@);
                    lemma_node_index(self@, id@, i as int);
                },
                None => {
                    if has_node(self@, id@) {
                        let i = node_index(self@, id@);
                        assert(self@[i].id == id@);
                        assert(self.ids@[i] == id@);
                    }
                },
            }
        }
        r
    }

    /// Whether `node` has an entry.
    pub fn contains(&self, node: &String) -> (b: bool)
        requires
            self.wf(),
        ensures
            b == has_node(self@, node@),
    {
        self.find(node).is_some()
    }

    /// The current rank of `node`: the default rank until it has an entry.
    pub fn current_rank(&self, node: &String) -> (r: u64)
        requires
            self.wf(),
        ensures
            r == rank_in(self@, node@, self.spec_default_rank()),
    {
        match self.find(node) {
            Some(i) => self.ranks[i],
            None => self.default_rank,
        }
    }

    /// The number of outgoing neighbours of `node`.
    pub fn out_degree(&self, node: &String) -> (k: usize)
        requires
            self.wf(),
        ensures
            k == neighbors_in(self@, node@).len(),
    {
        match self.find(node) {
            Some(i) => self.links[i].len(),
            None => 0,
        }
    }

    /// The rank of every node of the store, in the order of the entries.
    pub fn ranks(&self) -> (table: Vec<(String, u64)>)
        requires
            self.wf(),
        ensures
            rows(table@) == rank_table(self@),
    {
        let mut table: Vec<(String, u64)> = Vec::new();
        let n = self.ids.len();
        let mut i: usize = 0;
        assert(rows(table@) =~= rank_table(self@.take(0)));
        while i < n
            invariant
                i <= n,
                n == self@.len(),
                self.wf(),
                rows(table@) == rank_table(self@.take(i as int)),
            decreases n - i,
        {
            let ghost before = rows(table@);
            table.push((self.ids.get(i).clone(), self.ranks[i]));
            proof {
                assert(rows(table@) =~= before.push((self@[i as int].id, self@[i as int].rank)));
                assert(rank_table(self@.take(i as int + 1)) =~= rank_table(
                    self@.take(i as int),
                ).push((self@[i as int].id, self@[i as int].rank)));
            }
            i += 1;
        }
        assert(self@.take(n as int) =~= self@);
        table
    }

    /// Makes the entry for `id` if it is not there, and says where it is.
    pub fn ensure_node(&mut self, id: &String) -> (i: usize)
        requires
            old(self).wf(),
        ensures
            final(self).wf(),
            final(self)@ == with_node(old(self)@, id@, old(self).spec_default_rank()),
            final(self).spec_default_rank() == old(self).spec_default_rank(),
            i < final(self)@.len(),
            i == node_index(final(self)@, id@),
            final(self)@[i as int].id == id@,
    {
        match self.find(id) {
            Some(i) => i,
            None => {
                let i = self.ids.len();
                let ghost before = self@;
                proof {
                    if old(self).ids@.contains(id@) {
                        let k = choose|k: int|
                            0 <= k < old(self).ids@.len() && old(self).ids@[k] == id@;
                        assert(before[k].id == id@);
                    }
                }
                self.ids.push(id.clone());
                self.links.push(NameSet::new());
                self.ranks.push(self.default_rank);
                proof {
                    assert(self@ =~= before.push(
                        NodeView { id: id@, neighbors: Seq::empty(), rank: self.default_rank },
                    ));
                    assert forall|a: int| 0 <= a < self.links@.len() implies (
                    #[trigger] self.links@[a]).wf() by {
                        if a < old(self).links@.len() {
                            assert(self.links@[a] == old(self).links@[a]);
                        }
                    }
                    self.lemma_inv();
                    lemma_node_index(self@, id@, i as int);
                }
                i
            },
        }
    }

    /// Lists `dst` among the neighbours of the node at place `i`, once.
    pub fn add_neighbor(&mut self, i: usize, dst: &String)
        requires
            old(self).wf(),
            i < old(self)@.len(),
        ensures
            final(self).wf(),
            final(self)@ == with_neighbor(old(self)@, old(self)@[i as int].id, dst@),
            final(self).spec_default_rank() == old(self).spec_default_rank(),
    {
        let ghost before = self@;
        proof {
            lemma_node_index(before, before[i as int].id, i as int);
            assert(self.links@[i as int].wf());
        }
        if self.links[i].find(dst).is_some() {
            return ;
        }
        let ghost old_links = self.links@;
        self.links[i].push(dst.clone());
        proof {
            let grown = NodeView {
                neighbors: before[i as int].neighbors.push(dst@),
                ..before[i as int]
            };
            assert(self@ =~= before.update(i as int, grown));
            assert forall|a: int| 0 <= a < self.links@.len() implies (
            #[trigger] self.links@[a]).wf() by {
                if a != i {
                    assert(self.links@[a] == old_links[a]);
                }
            }
            self.lemma_inv();
        }
    }

    /// Adds `dst` to the outgoing neighbours of `src`. Both nodes get an
    /// entry, with the default rank, if they had none. An edge that is
    /// already there changes nothing.
    pub fn insert_edge(&mut self, src: &String, dst: &String)
        requires
            old(self).wf(),
        ensures
            final(self).wf(),
            final(self)@ == with_edge(old(self)@, src@, dst@, old(self).spec_default_rank()),
            final(self).spec_default_rank() == old(self).spec_default_rank(),
    {
        let i = self.ensure_node(src);
        self.add_neighbor(i, dst);
        let _ = self.ensure_node(dst);
    }

    /// Overwrites the rank of the node at place `i`.
    pub fn set_rank_at(&mut self, i: usize, value: u64)
        requires
            old(self).wf(),
            i < old(self)@.len(),
        ensures
            final(self).wf(),
            final(self)@ == old(self)@.update(
                i as int,
                NodeView { rank: value, ..old(self)@[i as int] },
            ),
            final(self).spec_default_rank() == old(self).spec_default_rank(),
    {
        let ghost before = self@;
        self.ranks[i] = value;
        proof {
            assert(self@ =~= before.update(i as int, NodeView { rank: value, ..before[i as int] }));
            self.lemma_inv();
        }
    }

    /// Overwrites the rank of `node`, making its entry if it had none.
    pub fn set_rank(&mut self, node: &String, value: u64)
        requires
            old(self).wf(),
        ensures
            final(self).wf(),
            final(self)@ == with_rank(old(self)@, node@, value, old(self).spec_default_rank()),
            final(self).spec_default_rank() == old(self).spec_default_rank(),
    {
        let i = self.ensure_node(node);
        self.set_rank_at(i, value);
    }
}

} // verus!
