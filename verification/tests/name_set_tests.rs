use pagerank::name_set::NameSet;

fn s(text: &str) -> String {
    text.to_string()
}

#[test]
fn a_new_name_set_is_empty() {
    let set = NameSet::new();
    assert_eq!(set.len(), 0);
    assert!(set.as_vec().is_empty());
    assert_eq!(set.find(&s("a")), None);
}

#[test]
fn names_keep_the_order_in_which_they_came() {
    let mut set = NameSet::new();
    for name in ["c", "a", "b"] {
        set.push(s(name));
    }
    assert_eq!(set.len(), 3);
    assert_eq!(set.as_vec(), &vec![s("c"), s("a"), s("b")]);
    assert_eq!(set.get(0), "c");
    assert_eq!(set.get(2), "b");
}

#[test]
fn find_gives_the_place_of_a_name() {
    let mut set = NameSet::new();
    for i in 0..200 {
        assert_eq!(set.find(&format!("node-{}", i)), None);
        set.push(format!("node-{}", i));
    }
    for i in 0..200 {
        assert_eq!(set.find(&format!("node-{}", i)), Some(i));
    }
    assert_eq!(set.find(&s("node-200")), None);
    assert_eq!(set.find(&s("")), None);
}
