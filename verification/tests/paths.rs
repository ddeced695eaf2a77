use folio::paths::{
    corpus_root_from, db_path, enclosing_index, first_marked, join_path, nearest_declaration,
    root_or_dot, roots_or_enclosing,
    strip_under, subtree, vectors_path,
};

#[test]
fn a_prefix_names_a_subtree_and_not_the_names_it_starts() {
    let under = subtree("keep");
    assert!("keep/a.md".starts_with(&under));
    assert!("keep/deep/b.md".starts_with(&under));
    assert!(!"keeper.md".starts_with(&under));
    assert!(!"keep.md".starts_with(&under));
    // A caller who writes the separator means the same subtree.
    assert_eq!(subtree("keep/"), under);
    assert_eq!(subtree("/keep/"), under);
}

#[test]
fn an_index_lives_in_one_directory_beside_the_corpus() {
    assert_eq!(db_path("/srv/notes"), "/srv/notes/.folio/index.db");
    assert_eq!(vectors_path("/srv/notes"), "/srv/notes/.folio/vectors.f32");
    assert_eq!(db_path("/srv/notes/"), "/srv/notes/.folio/index.db");
    assert_eq!(join_path("a", "/b"), "/b");
    assert_eq!(join_path("", "b"), "b");
}

#[test]
fn roots_named_are_the_roots_used() {
    let named = vec!["a".to_string(), "b".to_string()];
    assert_eq!(roots_or_enclosing(named.clone(), None), named);
    assert_eq!(roots_or_enclosing(Vec::new(), None), vec![".".to_string()]);
}

#[test]
fn outside_any_corpus_there_is_nothing_to_find() {
    let nowhere = "/folio-test-nowhere/a/b";
    assert_eq!(corpus_root_from(nowhere), None);
    assert_eq!(nearest_declaration(nowhere), None);
    assert_eq!(enclosing_index(nowhere), None);
}

#[test]
fn a_path_under_a_subtree_is_named_relative_to_it() {
    let under = subtree("keep");
    assert_eq!(strip_under(&"keep/deep/b.md".to_string(), &under), Some("deep/b.md".to_string()));
    assert_eq!(strip_under(&"keeper.md".to_string(), &under), None);
}

#[test]
fn the_walk_stops_at_the_nearest_marked_directory() {
    let dirs = vec!["/a/b/c".to_string(), "/a/b".to_string(), "/a".to_string(), "/".to_string()];
    assert_eq!(first_marked(&dirs, &vec![false, true]), Some("/a/b".to_string()));
    assert_eq!(first_marked(&dirs, &vec![false, true, true, true]), Some("/a/b".to_string()));
    assert_eq!(first_marked(&dirs, &vec![false, false, false, false]), None);
    assert_eq!(first_marked(&dirs, &Vec::new()), None);
    assert_eq!(root_or_dot(Some("/a".to_string())), "/a");
    assert_eq!(root_or_dot(None), ".");
}
