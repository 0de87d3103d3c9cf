use phrase_trie::tree::Tree;

#[test]
fn tree_it_defaults() {
    let result = Tree::default();
    assert_eq!(result.name, "root".to_string());
    assert_eq!(result.children.len(), 0);
}

#[test]
fn tree_it_is_new() {
    let result = Tree::new("Gerald".to_string());
    assert_eq!(result.name, "Gerald".to_string());
    assert_eq!(result.children.len(), 0);
}

#[test]
fn tree_it_ingests_a_phrase_of_length_one() {
    let mut result = Tree::default();
    result.add_phrase(vec!["a".to_string()]);
    assert_eq!(result.name, "root".to_string());
    assert_eq!(result.children.len(), 1);
}

#[test]
fn tree_it_ingests_a_phrase_of_length_two() {
    let mut result = Tree::default();
    result.add_phrase(vec!["a".to_string(), "b".to_string()]);
    assert_eq!(result.name, "root".to_string());
    assert_eq!(result.children.len(), 1);
}

#[test]
fn tree_it_steps_down_a_word_that_is_there() {
    let mut result = Tree::default();
    result.add_phrase(vec!["a".to_string(), "b".to_string()]);
    let last = result.step_down("a".to_string());
    assert_eq!(last.unwrap().children_names(), vec!["b".to_string()]);
}

#[test]
fn tree_it_steps_down_a_word_that_is_not_there() {
    let mut result = Tree::default();
    result.add_phrase(vec!["a".to_string(), "b".to_string()]);
    let last = result.step_down("c".to_string());
    assert_eq!(last, None);
}

#[test]
fn tree_it_exposess_children_names() {
    let mut result = Tree::default();
    result.add_phrase(vec!["a".to_string()]);
    assert_eq!(result.children_names(), vec!["a".to_string()]);
}

#[test]
fn tree_it_ingests_multiple_phrases() {
    let mut result = Tree::default();
    result.add_phrase(vec!["a".to_string(), "b".to_string()]);
    result.add_phrase(vec!["a".to_string(), "c".to_string()]);
    assert_eq!(result.name, "root".to_string());
    assert_eq!(result.children_names(), vec!["a".to_string()]);
    let a_tree = result.step_down("a".to_string()).unwrap();
    assert_eq!(a_tree.children_names().len(), 2);
    assert!(a_tree.children_names().contains(&"b".to_string()));
    assert!(a_tree.children_names().contains(&"c".to_string()));
}

#[test]
fn tree_it_ingests_a_corpus() {
    let t = Tree::from_corpus("a b! c d. a, c? b: d;".to_string());

    //root has four children
    assert_eq!(t.children_names().len(), 4);
    assert!(t.children_names().contains(&"a".to_string()));
    assert!(t.children_names().contains(&"b".to_string()));
    assert!(t.children_names().contains(&"c".to_string()));
    assert!(t.children_names().contains(&"d".to_string()));

    // a has two children
    assert_eq!(
        t.step_down("a".to_string()).unwrap().children_names().len(),
        2
    );
    assert!(t
        .step_down("a".to_string())
        .unwrap()
        .children_names()
        .contains(&"b".to_string()));
    assert!(t
        .step_down("a".to_string())
        .unwrap()
        .children_names()
        .contains(&"c".to_string()));

    // b has one child
    assert_eq!(
        t.step_down("b".to_string()).unwrap().children_names().len(),
        1
    );
    assert!(t
        .step_down("b".to_string())
        .unwrap()
        .children_names()
        .contains(&"d".to_string()));

    // c has one child
    assert_eq!(
        t.step_down("c".to_string()).unwrap().children_names().len(),
        1
    );
    assert!(t
        .step_down("c".to_string())
        .unwrap()
        .children_names()
        .contains(&"d".to_string()));

    // d has no children
    assert_eq!(
        t.step_down("d".to_string()).unwrap().children_names().len(),
        0
    );

    // bad paths give back none
    assert!(t
        .step_down("a".to_string())
        .unwrap()
        .step_down("a".to_string())
        .is_none());
}

#[test]
fn tree_it_finds_names_at_a_path() {
    let t = Tree::from_corpus("a b c. a b d. a b e".to_string());

    let res = t
        .names_at_path(vec!["a".to_string(), "b".to_string()])
        .unwrap();
    assert_eq!(res.len(), 3);
    assert!(res.contains(&"c".to_string()));
    assert!(res.contains(&"d".to_string()));
    assert!(res.contains(&"e".to_string()));
}

#[test]
fn tree_it_returns_none_for_nonexistent_paths() {
    let t = Tree::from_corpus("a b c. a b d. a b e".to_string());

    let res = t.names_at_path(vec![
        "a".to_string(),
        "b".to_string(),
        "d".to_string(),
        "f".to_string(),
    ]);
    assert_eq!(res, None);
}

#[test]
fn tree_it_builds_a_span_map() {
    let t = Tree::from_corpus("a b c. a b d. a b e".to_string());

    let m = t.span_map();
    assert_eq!(*m.get("a").unwrap(), 1);
    assert_eq!(*m.get("b").unwrap(), 3);
    assert_eq!(*m.get("c").unwrap(), 0);
    assert_eq!(*m.get("d").unwrap(), 0);
    assert_eq!(*m.get("e").unwrap(), 0);
}

#[test]
fn tree_it_builds_a_depth_map() {
    let t = Tree::from_corpus("a. a b. b c d e.".to_string());

    let m = t.depth_map();
    assert_eq!(*m.get("a").unwrap(), 1);
    assert_eq!(*m.get("b").unwrap(), 3);
    assert_eq!(*m.get("c").unwrap(), 2);
    assert_eq!(*m.get("d").unwrap(), 1);
    assert_eq!(*m.get("e").unwrap(), 0);
}
