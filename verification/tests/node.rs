use proc_forest::error::ForestError;
use proc_forest::node::Node;
use proc_forest::node::NodeType;
use proc_forest::query::render_subtree;

fn leaf(name: &str, kind: NodeType) -> Node {
    Node::new(name.to_string(), kind)
}

fn with(mut parent: Node, children: Vec<Node>) -> Node {
    for child in children {
        parent.add_child(child);
    }
    parent
}

#[test]
fn new_node_has_no_children() {
    let node = Node::new("alpha".to_string(), NodeType::Variable);
    assert_eq!(node.name(), "alpha");
    assert_eq!(node.node_type(), NodeType::Variable);
    assert!(node.children().is_empty());
}

#[test]
fn add_child_keeps_first_added_order() {
    let node = with(
        leaf("p", NodeType::Procedure),
        vec![leaf("b", NodeType::Function), leaf("a", NodeType::Function)],
    );
    let names: Vec<&str> = node.children().iter().map(|c| c.name().as_str()).collect();
    assert_eq!(names, vec!["b", "a"]);
}

#[test]
fn add_child_drops_a_child_that_is_alike() {
    let node = with(
        leaf("p", NodeType::Procedure),
        vec![
            leaf("f", NodeType::Function),
            leaf("g", NodeType::Function),
            leaf("f", NodeType::Function),
        ],
    );
    assert_eq!(node.children().len(), 2);
}

#[test]
fn add_child_keeps_same_name_of_other_kind() {
    let node = with(
        leaf("p", NodeType::Procedure),
        vec![leaf("f", NodeType::Function), leaf("f", NodeType::Procedure)],
    );
    assert_eq!(node.children().len(), 2);
}

#[test]
fn add_child_keeps_same_name_of_other_shape() {
    let bare = leaf("q", NodeType::Procedure);
    let full = with(leaf("q", NodeType::Procedure), vec![leaf("f", NodeType::Function)]);
    let node = with(leaf("p", NodeType::Procedure), vec![bare, full]);
    assert_eq!(node.children().len(), 2);
}

#[test]
fn add_child_sets_the_order_of_grandchildren_aside() {
    let one = with(
        leaf("q", NodeType::Procedure),
        vec![leaf("f", NodeType::Function), leaf("g", NodeType::Function)],
    );
    let other = with(
        leaf("q", NodeType::Procedure),
        vec![leaf("g", NodeType::Function), leaf("f", NodeType::Function)],
    );
    assert!(one.same_as(&other));
    let node = with(leaf("p", NodeType::Procedure), vec![one, other]);
    assert_eq!(node.children().len(), 1);
    let kept: Vec<&str> =
        node.children()[0].children().iter().map(|c| c.name().as_str()).collect();
    assert_eq!(kept, vec!["f", "g"]);
}

#[test]
fn same_as_tells_trees_apart() {
    let a = with(leaf("q", NodeType::Procedure), vec![leaf("f", NodeType::Function)]);
    let b = with(leaf("q", NodeType::Procedure), vec![leaf("f", NodeType::Function)]);
    let c = with(leaf("q", NodeType::Procedure), vec![leaf("g", NodeType::Function)]);
    let d = with(
        leaf("q", NodeType::Procedure),
        vec![leaf("f", NodeType::Function), leaf("g", NodeType::Function)],
    );
    let e = leaf("r", NodeType::Procedure);
    let f = leaf("q", NodeType::Variable);
    assert!(a.same_as(&a));
    assert!(a.same_as(&b));
    assert!(b.same_as(&a));
    assert!(!a.same_as(&c));
    assert!(!a.same_as(&d));
    assert!(!d.same_as(&a));
    assert!(!a.same_as(&e));
    assert!(!leaf("q", NodeType::Procedure).same_as(&f));
}

#[test]
fn to_string_of_a_leaf_at_depth_zero() {
    assert_eq!(leaf("Foo", NodeType::Function).to_string(0), "Foo (Function)\n");
}

#[test]
fn to_string_indents_three_spaces_for_each_level() {
    assert_eq!(leaf("v", NodeType::Variable).to_string(2), "      v (Variable)\n");
    let tree = with(
        leaf("main", NodeType::Procedure),
        vec![
            leaf("Foo", NodeType::Function),
            with(leaf("helper", NodeType::Procedure), vec![leaf("Baz", NodeType::Function)]),
        ],
    );
    assert_eq!(
        tree.to_string(1),
        "   main (Procedure)\n      Foo (Function)\n      helper (Procedure)\n         Baz (Function)\n"
    );
}

#[test]
fn to_string_keeps_an_empty_name() {
    assert_eq!(leaf("", NodeType::Procedure).to_string(0), " (Procedure)\n");
}

#[test]
fn find_child_gives_the_first_of_that_name() {
    let node = with(
        leaf("p", NodeType::Procedure),
        vec![
            leaf("x", NodeType::Function),
            leaf("q", NodeType::Function),
            leaf("q", NodeType::Procedure),
        ],
    );
    let found = node.find_child("q").unwrap();
    assert_eq!(found.node_type(), NodeType::Function);
    assert!(node.find_child("missing").is_none());
    assert!(node.find_child("p").is_none());
}

#[test]
fn render_subtree_writes_the_named_child() {
    let root = with(
        leaf("root", NodeType::Procedure),
        vec![
            with(leaf("one", NodeType::Procedure), vec![leaf("f", NodeType::Function)]),
            leaf("two", NodeType::Procedure),
        ],
    );
    assert_eq!(render_subtree(&root, "one").unwrap(), "one (Procedure)\n   f (Function)\n");
    assert_eq!(render_subtree(&root, "two").unwrap(), "two (Procedure)\n");
}

#[test]
fn render_subtree_reports_a_missing_name() {
    let root = with(leaf("root", NodeType::Procedure), vec![leaf("one", NodeType::Procedure)]);
    match render_subtree(&root, "three") {
        Err(ForestError::SubtreeNotFound(name)) => assert_eq!(name, "three"),
        other => panic!("unexpected outcome: {:?}", other),
    }
    // A grandchild is no child of the root.
    let deep = with(
        leaf("root", NodeType::Procedure),
        vec![with(leaf("one", NodeType::Procedure), vec![leaf("inner", NodeType::Procedure)])],
    );
    assert!(render_subtree(&deep, "inner").is_err());
    assert!(render_subtree(&deep, "root").is_err());
}

#[test]
fn error_messages() {
    assert_eq!(
        ForestError::DirectoryUnreadable("/igor".to_string()).message(),
        "Failed to read directory: /igor"
    );
    assert_eq!(
        ForestError::FileUnreadable("/igor/a.ipf".to_string()).message(),
        "Failed to open file: /igor/a.ipf"
    );
    assert_eq!(ForestError::SubtreeNotFound("x".to_string()).message(), "Node not found");
}
