use pagerank::contribution::{contributions, sum_for, Portion, RankDelta};
use pagerank::graph::GraphStore;
use pagerank::passes::{
    aggregation_pass, apply_edges, raw_sums, register_destinations, rerank, structural_pass,
};
use pagerank::rank::{DAMPING_FACTOR, RANK_ONE};

fn s(text: &str) -> String {
    text.to_string()
}

fn edge(src: &str, dst: &str) -> (String, String) {
    (s(src), s(dst))
}

fn delta(node: &str, amount: u64) -> RankDelta {
    RankDelta { node: s(node), amount }
}

#[test]
fn structural_pass_seeds_the_whole_rank_on_every_edge() {
    let mut store = GraphStore::new(500_000_000);
    let out = structural_pass(&mut store, &vec![edge("a", "b"), edge("a", "c"), edge("b", "c")]);
    assert_eq!(
        out,
        vec![delta("b", 500_000_000), delta("c", 500_000_000), delta("c", 500_000_000)]
    );
    assert_eq!(store.len(), 3);
    for node in ["a", "b", "c"] {
        assert!(store.contains(&s(node)));
        assert_eq!(store.current_rank(&s(node)), 500_000_000);
    }
}

#[test]
fn structural_pass_takes_a_repeated_edge_once() {
    let mut store = GraphStore::new(10);
    let out = structural_pass(&mut store, &vec![edge("a", "b"), edge("a", "b")]);
    assert_eq!(out, vec![delta("b", 10)]);
    assert_eq!(store.out_degree(&s("a")), 1);
}

#[test]
fn structural_pass_seeds_the_edges_of_earlier_epochs_too() {
    let mut store = GraphStore::new(10);
    apply_edges(&mut store, &vec![edge("a", "b")]);
    store.set_rank(&s("a"), 4);
    let out = structural_pass(&mut store, &vec![edge("c", "a")]);
    assert_eq!(out, vec![delta("b", 4), delta("a", 10)]);
}

#[test]
fn two_nodes_one_edge_after_the_first_round() {
    let mut store = GraphStore::new(500_000_000);
    let seeds = structural_pass(&mut store, &vec![edge("A", "B")]);
    assert_eq!(seeds, vec![delta("B", 500_000_000)]);
    assert_eq!(sum_for(&seeds, &s("B")), 500_000_000);
    assert_eq!(sum_for(&seeds, &s("A")), 0);
    let out = aggregation_pass(&mut store, &seeds, DAMPING_FACTOR);
    assert_eq!(store.current_rank(&s("B")), 500_000_000);
    assert_eq!(store.current_rank(&s("A")), 75_000_000);
    assert_eq!(out, vec![delta("B", 75_000_000)]);
}

#[test]
fn an_isolated_node_keeps_the_default_rank() {
    let mut store = GraphStore::new(333_333_333);
    let mut inflight = structural_pass(&mut store, &vec![edge("A", "B")]);
    for _ in 0..5 {
        inflight = aggregation_pass(&mut store, &inflight, DAMPING_FACTOR);
        assert!(!store.contains(&s("C")));
        assert_eq!(store.current_rank(&s("C")), 333_333_333);
    }
}

#[test]
fn a_self_loop_moves_toward_the_default_rank() {
    let mut store = GraphStore::new(RANK_ONE);
    apply_edges(&mut store, &vec![edge("A", "A")]);
    store.set_rank(&s("A"), 0);
    let mut inflight = contributions(&store, Portion::Whole);
    assert_eq!(inflight, vec![delta("A", 0)]);
    let expected: [u64; 4] = [150_000_000, 277_500_000, 385_875_000, 477_993_750];
    let mut last_gap = RANK_ONE;
    for want in expected {
        inflight = aggregation_pass(&mut store, &inflight, DAMPING_FACTOR);
        let rank = store.current_rank(&s("A"));
        assert_eq!(rank, want);
        assert_eq!(inflight, vec![delta("A", want)]);
        let gap = RANK_ONE - rank;
        assert_eq!(gap, last_gap / 100 * 85);
        last_gap = gap;
    }
}

#[test]
fn a_self_loop_at_the_default_rank_stays_there() {
    let mut store = GraphStore::new(RANK_ONE);
    let mut inflight = structural_pass(&mut store, &vec![edge("A", "A")]);
    assert_eq!(inflight, vec![delta("A", RANK_ONE)]);
    for _ in 0..3 {
        inflight = aggregation_pass(&mut store, &inflight, DAMPING_FACTOR);
        assert_eq!(store.current_rank(&s("A")), RANK_ONE);
    }
}

#[test]
fn aggregation_splits_the_new_rank_evenly() {
    let mut store = GraphStore::new(300);
    apply_edges(&mut store, &vec![edge("a", "x"), edge("a", "y"), edge("a", "z")]);
    // a is reached by 1000: 0.85 * 1000 + 0.15 * 300 = 895
    let out = aggregation_pass(&mut store, &vec![delta("a", 400), delta("a", 600)], DAMPING_FACTOR);
    assert_eq!(store.current_rank(&s("a")), 895);
    // nothing reached the others: 0.15 * 300 = 45
    assert_eq!(store.current_rank(&s("x")), 45);
    assert_eq!(out, vec![delta("x", 298), delta("y", 298), delta("z", 298)]);
    let total: u64 = out.iter().map(|d| d.amount).sum();
    assert_eq!(total, 895 - 895 % 3);
}

#[test]
fn a_node_without_neighbours_sends_nothing() {
    let mut store = GraphStore::new(100);
    apply_edges(&mut store, &vec![edge("a", "b")]);
    let out = aggregation_pass(&mut store, &vec![delta("b", 1000)], DAMPING_FACTOR);
    assert_eq!(store.current_rank(&s("b")), 865);
    assert_eq!(out, vec![delta("b", 15)]);
    assert!(contributions(&GraphStore::new(1), Portion::Even).is_empty());
}

#[test]
fn aggregation_makes_an_entry_for_an_unknown_destination() {
    let mut store = GraphStore::new(100);
    let out = aggregation_pass(&mut store, &vec![delta("q", 200)], DAMPING_FACTOR);
    assert!(out.is_empty());
    assert!(store.contains(&s("q")));
    assert_eq!(store.out_degree(&s("q")), 0);
    assert_eq!(store.current_rank(&s("q")), 185);
}

#[test]
fn register_destinations_then_rerank_is_the_aggregation() {
    let deltas = vec![delta("b", 40), delta("c", 60), delta("b", 2)];
    let mut one = GraphStore::new(100);
    apply_edges(&mut one, &vec![edge("a", "b")]);
    let mut two = GraphStore::new(100);
    apply_edges(&mut two, &vec![edge("a", "b")]);
    register_destinations(&mut one, &deltas);
    assert_eq!(one.ranks(), vec![(s("a"), 100), (s("b"), 100), (s("c"), 100)]);
    rerank(&mut one, &deltas, DAMPING_FACTOR);
    let _ = aggregation_pass(&mut two, &deltas, DAMPING_FACTOR);
    assert_eq!(one.ranks(), two.ranks());
    // b: 0.85 * 42 + 15 = 50.7; c: 0.85 * 60 + 15 = 66; a: 15
    assert_eq!(one.ranks(), vec![(s("a"), 15), (s("b"), 50), (s("c"), 66)]);
}

#[test]
fn the_sum_for_a_node_stops_at_the_largest_rank() {
    let deltas = vec![delta("a", u64::MAX - 1), delta("b", 5), delta("a", 7)];
    assert_eq!(sum_for(&deltas, &s("a")), u64::MAX);
    assert_eq!(sum_for(&deltas, &s("b")), 5);
    assert_eq!(sum_for(&deltas, &s("c")), 0);
    assert_eq!(sum_for(&Vec::new(), &s("a")), 0);
}

#[test]
fn new_ranks_conserve_the_damped_inflow_up_to_rounding() {
    let mut store = GraphStore::new(333_333_333);
    let seeds = structural_pass(
        &mut store,
        &vec![edge("a", "b"), edge("b", "c"), edge("c", "a"), edge("a", "c")],
    );
    let mut raw: u128 = 0;
    for (node, _) in store.ranks() {
        raw += sum_for(&seeds, &node) as u128;
    }
    let _ = aggregation_pass(&mut store, &seeds, DAMPING_FACTOR);
    let n = store.len() as u128;
    let new: u128 = store.ranks().iter().map(|(_, r)| *r as u128).sum();
    let one = RANK_ONE as u128;
    let d = DAMPING_FACTOR as u128;
    let exact = d * raw + (one - d) * 333_333_333 * n;
    assert!(one * new <= exact);
    assert!(exact <= one * new + (one - 1) * n);
}

#[test]
fn whole_and_even_portions_of_the_same_store() {
    let mut store = GraphStore::new(10);
    apply_edges(&mut store, &vec![edge("a", "b"), edge("a", "c"), edge("b", "a")]);
    store.set_rank(&s("a"), 7);
    assert_eq!(
        contributions(&store, Portion::Whole),
        vec![delta("b", 7), delta("c", 7), delta("a", 10)]
    );
    assert_eq!(
        contributions(&store, Portion::Even),
        vec![delta("b", 3), delta("c", 3), delta("a", 10)]
    );
}

#[test]
fn raw_sums_has_one_sum_for_each_node() {
    let mut store = GraphStore::new(10);
    apply_edges(&mut store, &vec![edge("a", "b"), edge("c", "a")]);
    let deltas = vec![delta("b", 4), delta("zz", 9), delta("a", 1), delta("b", u64::MAX)];
    assert_eq!(raw_sums(&store, &deltas), vec![1, u64::MAX, 0]);
    for (i, (node, _)) in store.ranks().iter().enumerate() {
        assert_eq!(raw_sums(&store, &deltas)[i], sum_for(&deltas, node));
    }
    assert!(raw_sums(&GraphStore::new(1), &deltas).is_empty());
}

#[test]
fn many_nodes_are_found_again() {
    let mut store = GraphStore::new(7);
    let edges: Vec<(String, String)> =
        (0..300).map(|i| (format!("n{}", i), format!("n{}", (i * 7 + 1) % 300))).collect();
    apply_edges(&mut store, &edges);
    assert_eq!(store.len(), 300);
    for i in 0..300 {
        let id = format!("n{}", i);
        assert!(store.contains(&id));
        assert_eq!(store.out_degree(&id), 1);
        assert_eq!(store.node_id(store.find(&id).unwrap()), &id);
    }
    apply_edges(&mut store, &edges);
    assert_eq!(store.len(), 300);
    assert_eq!(contributions(&store, Portion::Whole).len(), 300);
}
