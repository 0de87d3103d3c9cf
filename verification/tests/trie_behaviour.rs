use phrase_trie::tree::Tree;

fn phrase(words: &[&str]) -> Vec<String> {
    words.iter().map(|w| w.to_string()).collect()
}

fn sorted(mut names: Vec<String>) -> Vec<String> {
    names.sort();
    names
}

#[test]
fn adding_a_phrase_twice_changes_nothing() {
    let mut once = Tree::default();
    once.add_phrase(phrase(&["a", "b", "c"]));
    let mut twice = Tree::default();
    twice.add_phrase(phrase(&["a", "b", "c"]));
    twice.add_phrase(phrase(&["a", "b", "c"]));
    assert_eq!(once, twice);
    assert_eq!(twice.children.len(), 1);
    assert_eq!(twice.children[0].children.len(), 1);
    assert_eq!(twice.children[0].children[0].children.len(), 1);
}

#[test]
fn adding_the_empty_phrase_changes_nothing() {
    let mut tree = Tree::default();
    tree.add_phrase(phrase(&["a", "b"]));
    let mut same = Tree::default();
    same.add_phrase(phrase(&["a", "b"]));
    same.add_phrase(Vec::new());
    assert_eq!(tree, same);
    let mut empty = Tree::default();
    empty.add_phrase(Vec::new());
    assert_eq!(empty.children.len(), 0);
    assert_eq!(empty.name, "root".to_string());
}

#[test]
fn adding_a_prefix_of_a_known_phrase_changes_nothing() {
    let mut tree = Tree::default();
    tree.add_phrase(phrase(&["a", "b", "c"]));
    let mut same = Tree::default();
    same.add_phrase(phrase(&["a", "b", "c"]));
    same.add_phrase(phrase(&["a", "b"]));
    assert_eq!(tree, same);
}

#[test]
fn equality_ignores_the_order_of_insertion() {
    let mut one = Tree::default();
    one.add_phrase(phrase(&["a", "b"]));
    one.add_phrase(phrase(&["c"]));
    one.add_phrase(phrase(&["a", "d"]));
    let mut other = Tree::default();
    other.add_phrase(phrase(&["a", "d"]));
    other.add_phrase(phrase(&["c"]));
    other.add_phrase(phrase(&["a", "b"]));
    assert_eq!(one, other);
    assert!(one.same_as(&other));
}

#[test]
fn equality_tells_different_tries_apart() {
    let mut one = Tree::default();
    one.add_phrase(phrase(&["a", "b"]));
    let mut other = Tree::default();
    other.add_phrase(phrase(&["a", "c"]));
    assert_ne!(one, other);
    let mut longer = Tree::default();
    longer.add_phrase(phrase(&["a", "b", "c"]));
    assert_ne!(one, longer);
    assert_ne!(Tree::new("x".to_string()), Tree::new("y".to_string()));
    assert_eq!(Tree::new("x".to_string()), Tree::new("x".to_string()));
}

#[test]
fn later_phrases_keep_earlier_children() {
    let mut tree = Tree::default();
    tree.add_phrase(phrase(&["a", "b"]));
    tree.add_phrase(phrase(&["c", "d"]));
    let before = tree.children_names();
    let below_a = tree.names_at_path(phrase(&["a"])).unwrap();
    tree.add_phrase(phrase(&["a", "e"]));
    tree.add_phrase(phrase(&["f"]));
    let after = tree.children_names();
    for name in before.iter() {
        assert!(after.contains(name));
    }
    let below_a_after = tree.names_at_path(phrase(&["a"])).unwrap();
    for name in below_a.iter() {
        assert!(below_a_after.contains(name));
    }
    assert_eq!(tree.name, "root".to_string());
    assert_eq!(sorted(after), phrase(&["a", "c", "f"]));
    assert_eq!(sorted(below_a_after), phrase(&["b", "e"]));
}

#[test]
fn the_last_token_follows_the_rest_of_an_added_phrase() {
    let mut tree = Tree::default();
    tree.add_phrase(phrase(&["t1", "t2", "t3", "t4"]));
    let names = tree.names_at_path(phrase(&["t1", "t2", "t3"])).unwrap();
    assert_eq!(names, phrase(&["t4"]));
    let first = tree.names_at_path(Vec::new()).unwrap();
    assert_eq!(first, phrase(&["t1"]));
    let last = tree.names_at_path(phrase(&["t1", "t2", "t3", "t4"])).unwrap();
    assert_eq!(last.len(), 0);
}

#[test]
fn the_empty_path_gives_the_children_of_the_root() {
    let tree = Tree::from_corpus("a b. c d".to_string());
    let names = tree.names_at_path(Vec::new()).unwrap();
    assert_eq!(sorted(names), phrase(&["a", "b", "c", "d"]));
    assert_eq!(sorted(tree.children_names()), phrase(&["a", "b", "c", "d"]));
}

#[test]
fn a_path_with_an_unknown_token_is_absent() {
    let mut tree = Tree::default();
    tree.add_phrase(phrase(&["a", "b", "c"]));
    assert_eq!(tree.names_at_path(phrase(&["x"])), None);
    assert_eq!(tree.names_at_path(phrase(&["a", "x"])), None);
    assert_eq!(tree.names_at_path(phrase(&["a", "b", "x"])), None);
    assert_eq!(tree.names_at_path(phrase(&["a", "x", "c"])), None);
    assert_eq!(tree.names_at_path(phrase(&["b"])), None);
    assert_eq!(tree.names_at_path(phrase(&["a", "b", "c", "d"])), None);
    assert!(tree.step_down("b".to_string()).is_none());
}

#[test]
fn a_childless_child_has_span_and_depth_zero() {
    let mut tree = Tree::default();
    tree.add_phrase(phrase(&["c"]));
    let spans = tree.span_map();
    let depths = tree.depth_map();
    assert_eq!(spans.len(), 1);
    assert_eq!(depths.len(), 1);
    assert_eq!(*spans.get("c").unwrap(), 0);
    assert_eq!(*depths.get("c").unwrap(), 0);
}

#[test]
fn a_chain_is_deeper_than_it_is_wide() {
    let mut tree = Tree::default();
    tree.add_phrase(phrase(&["c", "d", "e"]));
    let spans = tree.span_map();
    let depths = tree.depth_map();
    assert_eq!(*depths.get("c").unwrap(), 2);
    assert_eq!(*spans.get("c").unwrap(), 1);
    assert!(spans.get("d").is_none());
    assert!(depths.get("e").is_none());
}

#[test]
fn depth_follows_the_longest_branch() {
    let mut tree = Tree::default();
    tree.add_phrase(phrase(&["a", "b"]));
    tree.add_phrase(phrase(&["a", "c", "d", "e"]));
    tree.add_phrase(phrase(&["a", "f", "g"]));
    assert_eq!(tree.get_depth(), 4);
    assert_eq!(*tree.depth_map().get("a").unwrap(), 3);
    assert_eq!(*tree.span_map().get("a").unwrap(), 3);
    assert_eq!(Tree::default().get_depth(), 0);
}

#[test]
fn an_empty_trie_has_empty_maps() {
    let tree = Tree::default();
    assert_eq!(tree.span_map().len(), 0);
    assert_eq!(tree.depth_map().len(), 0);
    assert_eq!(tree.children_names().len(), 0);
    assert_eq!(tree.names_at_path(Vec::new()), Some(Vec::new()));
}

#[test]
fn an_empty_corpus_gives_a_bare_root() {
    let tree = Tree::from_corpus(String::new());
    assert_eq!(tree, Tree::default());
    let dots = Tree::from_corpus("...!?;".to_string());
    assert_eq!(dots, Tree::default());
}

#[test]
fn phrases_do_not_cross_sentences() {
    let tree = Tree::from_corpus("a b. c d".to_string());
    assert_eq!(tree.names_at_path(phrase(&["b"])), Some(Vec::new()));
    assert_eq!(tree.names_at_path(phrase(&["b", "c"])), None);
    assert_eq!(tree.names_at_path(phrase(&["a"])), Some(phrase(&["b"])));
    assert_eq!(tree.names_at_path(phrase(&["c"])), Some(phrase(&["d"])));
}

#[test]
fn a_corpus_gives_every_run_of_each_sentence() {
    let tree = Tree::from_corpus("a b c. a b d. a b e".to_string());
    let names = tree.names_at_path(phrase(&["a", "b"])).unwrap();
    assert_eq!(sorted(names), phrase(&["c", "d", "e"]));
    assert_eq!(*tree.span_map().get("b").unwrap(), 3);
    let mut by_hand = Tree::default();
    for sentence in [["a", "b", "c"], ["a", "b", "d"], ["a", "b", "e"]] {
        by_hand.add_sentence(phrase(&sentence));
    }
    assert_eq!(tree, by_hand);
    let mut by_suffix = Tree::default();
    for suffix in [
        vec!["a", "b", "c"],
        vec!["b", "c"],
        vec!["c"],
        vec!["a", "b", "d"],
        vec!["b", "d"],
        vec!["d"],
        vec!["a", "b", "e"],
        vec!["b", "e"],
        vec!["e"],
    ] {
        by_suffix.add_phrase(phrase(&suffix));
    }
    assert_eq!(tree, by_suffix);
}

#[test]
fn position_finds_the_first_child_of_a_name() {
    let mut tree = Tree::default();
    tree.add_phrase(phrase(&["a"]));
    tree.add_phrase(phrase(&["b"]));
    assert_eq!(tree.position(&"a".to_string()), Some(0));
    assert_eq!(tree.position(&"b".to_string()), Some(1));
    assert_eq!(tree.position(&"c".to_string()), None);
    assert_eq!(tree.step_down("b".to_string()).unwrap().name, "b".to_string());
}
