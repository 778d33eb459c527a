use pagerank::barrier::{barrier_holds, can_still_arrive};
use pagerank::contribution::RankDelta;
use pagerank::partition::Partition;
use pagerank::rank::{DAMPING_FACTOR, RANK_ONE};
use pagerank::stash::EpochStash;

fn s(text: &str) -> String {
    text.to_string()
}

fn delta(node: &str, amount: u64) -> RankDelta {
    RankDelta { node: s(node), amount }
}

#[test]
fn a_new_stash_is_empty() {
    let stash: EpochStash<u8> = EpochStash::new();
    assert!(stash.is_empty());
    assert_eq!(stash.len(), 0);
    assert_eq!(stash.lowest(), None);
    assert!(!stash.contains(0));
}

#[test]
fn the_stash_keeps_records_by_epoch_in_the_order_of_arrival() {
    let mut stash: EpochStash<u8> = EpochStash::new();
    stash.push(4, vec![1, 2]);
    stash.push(2, vec![9]);
    stash.push(4, vec![3]);
    assert_eq!(stash.len(), 2);
    assert!(stash.contains(2) && stash.contains(4) && !stash.contains(3));
    assert_eq!(stash.lowest(), Some(2));
    assert_eq!(stash.take(4), vec![1, 2, 3]);
    assert!(!stash.contains(4));
    assert_eq!(stash.len(), 1);
    assert_eq!(stash.take(4), Vec::<u8>::new());
    assert_eq!(stash.take(2), vec![9]);
    assert!(stash.is_empty());
}

#[test]
fn pushing_nothing_makes_no_entry() {
    let mut stash: EpochStash<u8> = EpochStash::new();
    stash.push(1, Vec::new());
    assert!(stash.is_empty());
    stash.push(1, vec![5]);
    stash.push(1, Vec::new());
    assert_eq!(stash.take(1), vec![5]);
}

#[test]
fn a_channel_can_deliver_from_its_frontier_on() {
    assert!(!can_still_arrive(&vec![3], 2));
    assert!(can_still_arrive(&vec![3], 3));
    assert!(can_still_arrive(&vec![3], 4));
    assert!(can_still_arrive(&vec![9, 3], 4));
    assert!(!can_still_arrive(&Vec::new(), 0));
    assert!(!can_still_arrive(&Vec::new(), u64::MAX));
}

#[test]
fn the_barrier_holds_once_every_channel_is_past_the_epoch() {
    assert!(barrier_holds(&vec![vec![3], vec![5]], 2));
    assert!(!barrier_holds(&vec![vec![3], vec![5]], 3));
    assert!(!barrier_holds(&vec![vec![5], vec![3]], 4));
    assert!(barrier_holds(&vec![Vec::new(), vec![1]], 0));
    assert!(barrier_holds(&vec![Vec::new(), Vec::new()], u64::MAX));
    assert!(barrier_holds(&Vec::new(), 7));
}

#[test]
fn a_damping_factor_above_one_is_refused() {
    assert!(Partition::new(1, RANK_ONE + 1).is_none());
    assert!(Partition::new(1, RANK_ONE).is_some());
    assert!(Partition::new(1, 0).is_some());
}

#[test]
fn nothing_is_processed_before_the_barrier_holds() {
    let mut part = Partition::new(500_000_000, DAMPING_FACTOR).unwrap();
    part.receive_edges(0, vec![(s("A"), s("B"))]);
    assert_eq!(part.next_epoch(), Some(0));
    assert!(part.step(&vec![vec![0], vec![1]]).is_none());
    assert!(part.step(&vec![vec![1], vec![0]]).is_none());
    assert_eq!(part.store().len(), 0);
    assert_eq!(part.next_epoch(), Some(0));
    let out = part.step(&vec![vec![1], vec![1]]).unwrap();
    assert_eq!(out.epoch, 0);
    assert_eq!(out.deltas, vec![delta("B", 500_000_000)]);
    assert_eq!(part.next_epoch(), None);
    assert!(part.step(&vec![vec![1], vec![1]]).is_none());
}

#[test]
fn an_epoch_is_processed_once_with_all_that_arrived_for_it() {
    let mut part = Partition::new(500_000_000, DAMPING_FACTOR).unwrap();
    part.receive_edges(0, vec![(s("A"), s("B"))]);
    let seeds = part.step(&vec![vec![2], vec![1]]).unwrap();
    part.receive_deltas(1, seeds.deltas);
    part.receive_deltas(1, Vec::new());
    let out = part.step(&vec![vec![2], vec![2]]).unwrap();
    assert_eq!(out.epoch, 1);
    assert_eq!(out.deltas, vec![delta("B", 75_000_000)]);
    assert_eq!(
        part.store().ranks(),
        vec![(s("A"), 75_000_000), (s("B"), 500_000_000)]
    );
    assert!(part.step(&vec![Vec::new(), Vec::new()]).is_none());
}

#[test]
fn epochs_are_processed_in_rising_order() {
    let mut part = Partition::new(100, DAMPING_FACTOR).unwrap();
    part.receive_deltas(3, vec![delta("a", 10)]);
    part.receive_deltas(1, vec![delta("a", 20)]);
    part.receive_edges(2, vec![(s("a"), s("b"))]);
    let closed = vec![Vec::new(), Vec::new()];
    let first = part.step(&closed).unwrap();
    assert_eq!(first.epoch, 1);
    assert!(first.deltas.is_empty());
    assert_eq!(part.store().current_rank(&s("a")), 32);
    let second = part.step(&closed).unwrap();
    assert_eq!(second.epoch, 2);
    assert_eq!(second.deltas, vec![delta("b", 32)]);
    let third = part.step(&closed).unwrap();
    assert_eq!(third.epoch, 3);
    // a: 0.85 * 10 + 15 = 23.5; b: 15
    assert_eq!(part.store().ranks(), vec![(s("a"), 23), (s("b"), 15)]);
    assert_eq!(third.deltas, vec![delta("b", 23)]);
    assert!(part.step(&closed).is_none());
}

#[test]
fn a_later_epoch_waits_while_an_earlier_one_is_open() {
    let mut part = Partition::new(100, DAMPING_FACTOR).unwrap();
    part.receive_deltas(1, vec![delta("a", 20)]);
    part.receive_deltas(5, vec![delta("a", 20)]);
    let frontiers = vec![vec![3], vec![4]];
    assert_eq!(part.step(&frontiers).unwrap().epoch, 1);
    assert!(part.step(&frontiers).is_none());
    assert_eq!(part.next_epoch(), Some(5));
}

#[test]
fn edges_and_deltas_of_one_epoch_are_taken_in_two_passes() {
    let mut part = Partition::new(100, DAMPING_FACTOR).unwrap();
    part.receive_edges(0, vec![(s("a"), s("b"))]);
    part.receive_deltas(0, vec![delta("a", 1000)]);
    let out = part.step(&Vec::new()).unwrap();
    assert_eq!(out.epoch, 0);
    // the seeding with the rank of before, then the split of the new rank
    assert_eq!(out.deltas, vec![delta("b", 100), delta("b", 865)]);
    assert_eq!(part.store().ranks(), vec![(s("a"), 865), (s("b"), 15)]);
}
