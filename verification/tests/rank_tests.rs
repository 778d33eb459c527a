use pagerank::rank::{accumulate, default_rank, new_rank, share, DAMPING_FACTOR, RANK_ONE};

#[test]
fn default_rank_shares_one_unit() {
    assert_eq!(default_rank(2), Some(500_000_000));
    assert_eq!(default_rank(3), Some(333_333_333));
    assert_eq!(default_rank(1), Some(RANK_ONE));
    assert_eq!(default_rank(u64::MAX), Some(0));
}

#[test]
fn default_rank_of_an_empty_graph_is_none() {
    assert_eq!(default_rank(0), None);
}

#[test]
fn new_rank_damps_the_inflow() {
    assert_eq!(new_rank(500_000_000, 500_000_000, DAMPING_FACTOR), 500_000_000);
    assert_eq!(new_rank(0, 500_000_000, DAMPING_FACTOR), 75_000_000);
    assert_eq!(new_rank(1_000_000_000, 0, DAMPING_FACTOR), 850_000_000);
    // 0.85 * 3 + 0.15 * 1 = 2.7, rounded down
    assert_eq!(new_rank(3, 1, DAMPING_FACTOR), 2);
}

#[test]
fn new_rank_at_the_ends_of_the_damping_range() {
    assert_eq!(new_rank(7, 11, 0), 11);
    assert_eq!(new_rank(7, 11, RANK_ONE), 7);
    assert_eq!(new_rank(u64::MAX, u64::MAX, DAMPING_FACTOR), u64::MAX);
    assert_eq!(new_rank(u64::MAX, 0, RANK_ONE), u64::MAX);
}

#[test]
fn new_rank_lies_between_inflow_and_default() {
    let cases: [(u64, u64); 4] = [(0, 10), (10, 0), (123_456, 654_321), (999, 999)];
    for (raw, base) in cases {
        let r = new_rank(raw, base, DAMPING_FACTOR);
        assert!(r >= raw.min(base) && r <= raw.max(base));
    }
}

#[test]
fn share_rounds_down() {
    assert_eq!(share(10, 3), 3);
    assert_eq!(share(9, 3), 3);
    assert_eq!(share(2, 3), 0);
    assert_eq!(share(75_000_000, 1), 75_000_000);
}

#[test]
fn shares_add_up_to_the_rank_less_the_remainder() {
    let cases: [(u64, usize); 4] = [(10, 3), (9, 3), (1_000_000_000, 7), (0, 5)];
    for (rank, k) in cases {
        let total = share(rank, k) * k as u64;
        assert_eq!(total, rank - rank % k as u64);
        assert!(total <= rank && rank - total < k as u64);
    }
}

#[test]
fn accumulate_stops_at_the_largest_rank() {
    assert_eq!(accumulate(1, 2), 3);
    assert_eq!(accumulate(u64::MAX, 1), u64::MAX);
    assert_eq!(accumulate(u64::MAX - 1, 1), u64::MAX);
    assert_eq!(accumulate(u64::MAX - 1, 5), u64::MAX);
}
