use env_vars_struct::{build_tree, insert_path, Node};

fn names(node: &Node) -> Vec<String> {
    (0..node.child_count()).map(|i| node.child_name(i).to_string()).collect()
}

#[test]
fn new_node_is_empty() {
    let node = Node::new();
    assert_eq!(node.child_count(), 0);
    assert_eq!(node.leaf_var(), None);
    assert!(!node.is_leaf());
    assert!(node.child("A").is_none());
    let other = Node::default();
    assert_eq!(other.child_count(), 0);
    assert_eq!(other.leaf_var(), None);
}

#[test]
fn insert_without_parts_changes_nothing() {
    let mut root = Node::new();
    insert_path(&mut root, &[], "IGNORED");
    assert_eq!(root.child_count(), 0);
    assert_eq!(root.leaf_var(), None);
}

#[test]
fn insert_one_segment_binds_a_child() {
    let mut root = Node::new();
    insert_path(&mut root, &["HAT"], "HAT");
    assert_eq!(names(&root), vec!["HAT"]);
    let hat = root.child("HAT").unwrap();
    assert_eq!(hat.leaf_var(), Some("HAT"));
    assert!(hat.is_leaf());
    assert_eq!(root.leaf_var(), None);
}

#[test]
fn insert_creates_the_nodes_on_the_way() {
    let mut root = Node::new();
    insert_path(&mut root, &["CACHE", "REDIS", "URL"], "CACHE.REDIS.URL");
    let cache = root.child("CACHE").unwrap();
    assert_eq!(cache.leaf_var(), None);
    assert!(!cache.is_leaf());
    let redis = cache.child("REDIS").unwrap();
    assert_eq!(redis.leaf_var(), None);
    let url = redis.child("URL").unwrap();
    assert_eq!(url.leaf_var(), Some("CACHE.REDIS.URL"));
    assert!(url.is_leaf());
}

#[test]
fn insert_merges_shared_prefixes() {
    let mut root = Node::new();
    insert_path(&mut root, &["DATABASE", "HOST"], "DATABASE.HOST");
    insert_path(&mut root, &["DATABASE", "PORT"], "DATABASE.PORT");
    assert_eq!(names(&root), vec!["DATABASE"]);
    let database = root.child("DATABASE").unwrap();
    assert_eq!(names(database), vec!["HOST", "PORT"]);
    assert_eq!(database.child_node(0).leaf_var(), Some("DATABASE.HOST"));
    assert_eq!(database.child_node(1).leaf_var(), Some("DATABASE.PORT"));
}

#[test]
fn insert_is_keyed_by_the_raw_segment() {
    let mut root = Node::new();
    insert_path(&mut root, &["Api"], "Api");
    insert_path(&mut root, &["API"], "API");
    insert_path(&mut root, &["a-b"], "a-b");
    insert_path(&mut root, &["a_b"], "a_b");
    assert_eq!(names(&root), vec!["Api", "API", "a-b", "a_b"]);
}

#[test]
fn last_binding_of_a_node_wins() {
    let mut root = Node::new();
    insert_path(&mut root, &["A", "B"], "first");
    insert_path(&mut root, &["C"], "other");
    insert_path(&mut root, &["A", "B"], "second");
    assert_eq!(names(&root), vec!["A", "C"]);
    let a = root.child("A").unwrap();
    assert_eq!(a.child_count(), 1);
    assert_eq!(a.child("B").unwrap().leaf_var(), Some("second"));
    assert_eq!(root.child("C").unwrap().leaf_var(), Some("other"));
}

#[test]
fn a_node_may_be_bound_and_have_children() {
    let mut root = Node::new();
    insert_path(&mut root, &["A"], "A");
    insert_path(&mut root, &["A", "B"], "A.B");
    let a = root.child("A").unwrap();
    assert_eq!(a.leaf_var(), Some("A"));
    assert_eq!(a.child_count(), 1);
    assert!(!a.is_leaf());

    let mut other = Node::new();
    insert_path(&mut other, &["A", "B"], "A.B");
    insert_path(&mut other, &["A"], "A");
    let a = other.child("A").unwrap();
    assert_eq!(a.leaf_var(), Some("A"));
    assert_eq!(a.child_count(), 1);
    assert!(!a.is_leaf());
}

#[test]
fn build_tree_enters_paths_in_order() {
    let root = build_tree(&["B.X", "A.Y", "B.Z", "HAT"]);
    assert_eq!(names(&root), vec!["B", "A", "HAT"]);
    assert_eq!(names(root.child("B").unwrap()), vec!["X", "Z"]);
    assert_eq!(names(root.child("A").unwrap()), vec!["Y"]);
    assert_eq!(root.child("B").unwrap().child("Z").unwrap().leaf_var(), Some("B.Z"));
    assert_eq!(root.child("HAT").unwrap().leaf_var(), Some("HAT"));
}

#[test]
fn build_tree_ignores_the_empty_path() {
    let root = build_tree(&["", "A", ""]);
    assert_eq!(names(&root), vec!["A"]);
    let empty = build_tree(&[""]);
    assert_eq!(empty.child_count(), 0);
    let none = build_tree(&[]);
    assert_eq!(none.child_count(), 0);
}

#[test]
fn build_tree_keeps_empty_segments() {
    let root = build_tree(&["A..B", "."]);
    assert_eq!(names(&root), vec!["A", ""]);
    let a = root.child("A").unwrap();
    assert_eq!(names(a), vec![""]);
    assert_eq!(a.child("").unwrap().child("B").unwrap().leaf_var(), Some("A..B"));
    let blank = root.child("").unwrap();
    assert_eq!(blank.child("").unwrap().leaf_var(), Some("."));
}

#[test]
fn build_tree_binds_duplicates_once() {
    let root = build_tree(&["A.B", "A.B"]);
    assert_eq!(names(&root), vec!["A"]);
    let a = root.child("A").unwrap();
    assert_eq!(names(a), vec!["B"]);
    assert_eq!(a.child("B").unwrap().leaf_var(), Some("A.B"));
}
