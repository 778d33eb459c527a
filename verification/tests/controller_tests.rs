use pagerank::contribution::RankDelta;
use pagerank::controller::{feedback, first_epoch, round, route_deltas, route_edges, run};
use pagerank::partition::Partition;
use pagerank::rank::{DAMPING_FACTOR, RANK_ONE};
use pagerank::router::route;

fn s(text: &str) -> String {
    text.to_string()
}

fn edge(src: &str, dst: &str) -> (String, String) {
    (s(src), s(dst))
}

fn delta(node: &str, amount: u64) -> RankDelta {
    RankDelta { node: s(node), amount }
}

#[test]
fn the_feedback_adds_the_step_up_to_the_limit() {
    assert_eq!(feedback(0, 1, 50), Some(1));
    assert_eq!(feedback(49, 1, 50), Some(50));
    assert_eq!(feedback(50, 1, 50), None);
    assert_eq!(feedback(3, 5, 8), Some(8));
    assert_eq!(feedback(3, 5, 7), None);
    assert_eq!(feedback(0, 1, 0), None);
    assert_eq!(feedback(u64::MAX, 1, u64::MAX), None);
    assert_eq!(feedback(u64::MAX - 1, 1, u64::MAX), Some(u64::MAX));
}

#[test]
fn the_feedback_fires_as_often_as_the_limit_says() {
    for limit in [0u64, 1, 2, 50] {
        let mut epoch = 0;
        let mut fired = 0;
        while let Some(next) = feedback(epoch, 1, limit) {
            assert_eq!(next, epoch + 1);
            epoch = next;
            fired += 1;
        }
        assert_eq!(fired, limit);
    }
}

#[test]
fn run_is_refused_without_partitions_or_with_a_damping_above_one() {
    let edges = vec![edge("A", "B")];
    assert!(run(&edges, 0, 1, DAMPING_FACTOR, 3).is_none());
    assert!(run(&edges, 1, 1, RANK_ONE + 1, 3).is_none());
    assert!(run(&edges, 1, 1, RANK_ONE, 3).is_some());
}

#[test]
fn run_without_rounds_leaves_the_default_ranks() {
    let report = run(&vec![edge("A", "B")], 1, 500_000_000, DAMPING_FACTOR, 0).unwrap();
    assert_eq!(report.rounds, 0);
    assert_eq!(report.dropped, vec![delta("B", 500_000_000)]);
    assert_eq!(
        report.partitions[0].store().ranks(),
        vec![(s("A"), 500_000_000), (s("B"), 500_000_000)]
    );
}

#[test]
fn run_two_nodes_one_edge_one_round() {
    let report = run(&vec![edge("A", "B")], 1, 500_000_000, DAMPING_FACTOR, 1).unwrap();
    assert_eq!(report.rounds, 1);
    assert_eq!(report.partitions.len(), 1);
    assert_eq!(report.dropped, vec![delta("B", 75_000_000)]);
    assert_eq!(
        report.partitions[0].store().ranks(),
        vec![(s("A"), 75_000_000), (s("B"), 500_000_000)]
    );
}

#[test]
fn run_performs_the_rounds_it_is_given() {
    let edges = vec![edge("A", "B"), edge("B", "A")];
    for rounds in [1u64, 2, 7, 50] {
        let report = run(&edges, 1, 500_000_000, DAMPING_FACTOR, rounds).unwrap();
        assert_eq!(report.rounds, rounds);
        // a cycle of two nodes at the default rank stays there
        assert_eq!(
            report.partitions[0].store().ranks(),
            vec![(s("A"), 500_000_000), (s("B"), 500_000_000)]
        );
        assert_eq!(report.partitions[0].next_epoch(), None);
    }
}

#[test]
fn run_on_one_partition_is_the_passes_one_after_the_other() {
    let edges = vec![edge("a", "b"), edge("a", "c"), edge("b", "c"), edge("c", "a")];
    let report = run(&edges, 1, 333_333_333, DAMPING_FACTOR, 3).unwrap();
    let mut store = pagerank::graph::GraphStore::new(333_333_333);
    let mut inflight = pagerank::passes::structural_pass(&mut store, &edges);
    for _ in 0..3 {
        inflight = pagerank::passes::aggregation_pass(&mut store, &inflight, DAMPING_FACTOR);
    }
    assert_eq!(report.partitions[0].store().ranks(), store.ranks());
}

#[test]
fn run_with_an_empty_graph() {
    let report = run(&Vec::new(), 3, 1, DAMPING_FACTOR, 4).unwrap();
    assert_eq!(report.rounds, 4);
    assert_eq!(report.partitions.len(), 3);
    for part in &report.partitions {
        assert_eq!(part.store().len(), 0);
    }
}

#[test]
fn edges_go_to_the_owner_of_their_source() {
    let edges = vec![edge("a", "b"), edge("b", "c"), edge("c", "a"), edge("a", "c")];
    for peers in [1usize, 2, 3, 5] {
        let boxes = route_edges(&edges, peers);
        assert_eq!(boxes.len(), peers);
        let mut seen = 0;
        for (p, bucket) in boxes.iter().enumerate() {
            for e in bucket {
                assert_eq!(route(&e.0, peers), p);
            }
            let want: Vec<(String, String)> =
                edges.iter().filter(|e| route(&e.0, peers) == p).cloned().collect();
            assert_eq!(bucket, &want);
            seen += bucket.len();
        }
        assert_eq!(seen, edges.len());
    }
}

#[test]
fn deltas_go_to_the_owner_of_their_destination() {
    let deltas = vec![delta("a", 1), delta("b", 2), delta("c", 3), delta("a", 4)];
    for peers in [1usize, 2, 4] {
        let boxes = route_deltas(&deltas, peers);
        assert_eq!(boxes.len(), peers);
        for (p, bucket) in boxes.iter().enumerate() {
            let want: Vec<RankDelta> = deltas
                .iter()
                .filter(|d| route(&d.node, peers) == p)
                .map(|d| delta(&d.node, d.amount))
                .collect();
            assert_eq!(bucket, &want);
        }
    }
}

#[test]
fn on_several_partitions_a_node_is_ranked_by_its_owner() {
    let edges = vec![edge("a", "b"), edge("b", "c"), edge("c", "a"), edge("d", "a")];
    let peers = 3;
    let report = run(&edges, peers, 250_000_000, DAMPING_FACTOR, 4).unwrap();
    assert_eq!(report.rounds, 4);
    for node in ["a", "b", "c"] {
        // every node here is reached in every round, so its owner has ranked it
        let own = &report.partitions[route(&s(node), peers)];
        assert!(own.store().contains(&s(node)));
    }
    for (p, part) in report.partitions.iter().enumerate() {
        let store = part.store();
        for i in 0..store.len() {
            if !store.neighbors_at(i).is_empty() {
                assert_eq!(route(store.node_id(i), peers), p);
            }
        }
        assert_eq!(part.next_epoch(), None);
    }
}

#[test]
fn first_epoch_and_round_drive_all_partitions() {
    let mut parts = vec![Partition::new(500_000_000, DAMPING_FACTOR).unwrap()];
    let inflight = first_epoch(&mut parts, &vec![edge("A", "B")], 2);
    assert_eq!(inflight, vec![delta("B", 500_000_000)]);
    let inflight = round(&mut parts, &inflight, 1, 2);
    assert_eq!(inflight, vec![delta("B", 75_000_000)]);
    let inflight = round(&mut parts, &inflight, 2, 2);
    // B: 0.85 * 0.075 + 0.075 = 0.13875; A: 0.075
    assert_eq!(
        parts[0].store().ranks(),
        vec![(s("A"), 75_000_000), (s("B"), 138_750_000)]
    );
    assert_eq!(inflight, vec![delta("B", 75_000_000)]);
}
