use pagerank::graph::GraphStore;

fn s(text: &str) -> String {
    text.to_string()
}

#[test]
fn a_new_store_is_empty() {
    let store = GraphStore::new(500);
    assert_eq!(store.len(), 0);
    assert_eq!(store.default_rank(), 500);
    assert!(store.ranks().is_empty());
}

#[test]
fn insert_edge_makes_both_entries_with_the_default_rank() {
    let mut store = GraphStore::new(500);
    store.insert_edge(&s("a"), &s("b"));
    assert_eq!(store.len(), 2);
    assert!(store.contains(&s("a")));
    assert!(store.contains(&s("b")));
    assert_eq!(store.current_rank(&s("a")), 500);
    assert_eq!(store.current_rank(&s("b")), 500);
    assert_eq!(store.out_degree(&s("a")), 1);
    assert_eq!(store.out_degree(&s("b")), 0);
    assert_eq!(store.find(&s("a")), Some(0));
    assert_eq!(store.find(&s("b")), Some(1));
    assert_eq!(store.node_id(0), "a");
    assert_eq!(store.neighbors_at(0), &vec![s("b")]);
    assert!(store.neighbors_at(1).is_empty());
}

#[test]
fn inserting_an_edge_again_changes_nothing() {
    let mut store = GraphStore::new(500);
    store.insert_edge(&s("a"), &s("b"));
    store.insert_edge(&s("a"), &s("c"));
    let before = store.ranks();
    store.insert_edge(&s("a"), &s("b"));
    store.insert_edge(&s("a"), &s("c"));
    assert_eq!(store.out_degree(&s("a")), 2);
    assert_eq!(store.len(), 3);
    assert_eq!(store.ranks(), before);
    assert_eq!(store.neighbors_at(0), &vec![s("b"), s("c")]);
}

#[test]
fn a_self_loop_is_one_entry() {
    let mut store = GraphStore::new(500);
    store.insert_edge(&s("a"), &s("a"));
    assert_eq!(store.len(), 1);
    assert_eq!(store.out_degree(&s("a")), 1);
    assert_eq!(store.neighbors_at(0), &vec![s("a")]);
}

#[test]
fn an_unseen_node_has_the_default_rank() {
    let mut store = GraphStore::new(321);
    assert_eq!(store.current_rank(&s("c")), 321);
    store.insert_edge(&s("a"), &s("b"));
    store.set_rank(&s("a"), 7);
    assert_eq!(store.current_rank(&s("c")), 321);
    assert!(!store.contains(&s("c")));
    assert_eq!(store.find(&s("c")), None);
    assert_eq!(store.out_degree(&s("c")), 0);
}

#[test]
fn set_rank_overwrites_and_makes_the_entry() {
    let mut store = GraphStore::new(500);
    store.insert_edge(&s("a"), &s("b"));
    store.set_rank(&s("b"), 9);
    assert_eq!(store.current_rank(&s("b")), 9);
    assert_eq!(store.current_rank(&s("a")), 500);
    store.set_rank(&s("z"), 4);
    assert!(store.contains(&s("z")));
    assert_eq!(store.current_rank(&s("z")), 4);
    assert_eq!(store.out_degree(&s("z")), 0);
    store.set_rank_at(0, 1);
    assert_eq!(store.rank_at(0), 1);
    assert_eq!(store.ranks(), vec![(s("a"), 1), (s("b"), 9), (s("z"), 4)]);
}

#[test]
fn an_edge_to_a_known_node_keeps_its_rank() {
    let mut store = GraphStore::new(500);
    store.insert_edge(&s("a"), &s("b"));
    store.set_rank(&s("b"), 9);
    store.insert_edge(&s("c"), &s("b"));
    store.insert_edge(&s("b"), &s("a"));
    assert_eq!(store.current_rank(&s("b")), 9);
    assert_eq!(store.current_rank(&s("c")), 500);
    assert_eq!(store.ranks(), vec![(s("a"), 500), (s("b"), 9), (s("c"), 500)]);
}

#[test]
fn ensure_node_and_add_neighbor_build_an_edge() {
    let mut store = GraphStore::new(5);
    let i = store.ensure_node(&s("x"));
    assert_eq!(i, 0);
    assert_eq!(store.ensure_node(&s("x")), 0);
    store.add_neighbor(i, &s("y"));
    store.add_neighbor(i, &s("y"));
    assert_eq!(store.neighbors_at(0), &vec![s("y")]);
    // the neighbour has no entry until it is made
    assert!(!store.contains(&s("y")));
}
