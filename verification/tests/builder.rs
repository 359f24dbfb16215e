use syntree::{Kind, Span, Tree, TreeBuilder, TreeError};

fn s(text: &str) -> String {
    String::from(text)
}

#[test]
fn balanced_build_succeeds_with_covering_spans() {
    let mut b: TreeBuilder<String> = TreeBuilder::new();
    b.open_node(s("root"));
    b.open_node(s("child1"));
    b.token(s("t1"), Span::new(0, 4));
    b.token(s("t2"), Span::new(4, 5));
    b.close_node().unwrap();
    b.token(s("t3"), Span::new(5, 6));
    b.close_node().unwrap();
    let tree: Tree<String> = b.build().unwrap();

    let root = tree.first().unwrap();
    assert_eq!(root.value().as_str(), "root");
    assert_eq!(root.span(), Span::new(0, 6));
    let child1 = root.first().unwrap();
    assert_eq!(child1.value().as_str(), "child1");
    assert_eq!(child1.span(), Span::new(0, 5));
    let t3 = child1.next().unwrap();
    assert_eq!(t3.value().as_str(), "t3");
    assert_eq!(t3.span(), Span::new(5, 6));
}

#[test]
fn interior_span_is_min_start_max_end_over_children() {
    // children carry out-of-order spans: the parent still covers the least
    // start and the greatest end
    let mut b: TreeBuilder<String> = TreeBuilder::new();
    b.open_node(s("p"));
    b.token(s("a"), Span::new(7, 9));
    b.token(s("b"), Span::new(2, 5));
    b.close_node().unwrap();
    let tree = b.build().unwrap();
    let p = tree.first().unwrap();
    assert_eq!(p.span(), Span::new(2, 9));
}

#[test]
fn empty_interior_node_is_zero_width_at_cursor() {
    let mut b: TreeBuilder<String> = TreeBuilder::new();
    b.token(s("tok"), Span::new(0, 3));
    b.open_node(s("empty"));
    b.close_node().unwrap();
    let tree = b.build().unwrap();
    let empty = tree.last().unwrap();
    assert_eq!(empty.value().as_str(), "empty");
    assert_eq!(empty.span(), Span::new(3, 3));
    assert!(empty.is_empty());
}

#[test]
fn empty_interior_node_before_any_token_sits_at_zero() {
    let mut b: TreeBuilder<String> = TreeBuilder::new();
    b.open_node(s("empty"));
    b.close_node().unwrap();
    let tree = b.build().unwrap();
    let empty = tree.first().unwrap();
    assert_eq!(empty.span(), Span::new(0, 0));
}

#[test]
fn close_without_open_frame_is_unbalanced() {
    let mut b: TreeBuilder<String> = TreeBuilder::new();
    assert_eq!(b.close_node(), Err(TreeError::Unbalanced));
    b.token(s("t"), Span::new(0, 1));
    assert_eq!(b.close_node(), Err(TreeError::Unbalanced));
}

#[test]
fn build_with_open_frame_is_unbalanced() {
    let mut b: TreeBuilder<String> = TreeBuilder::new();
    b.open_node(s("root"));
    assert!(matches!(b.build(), Err(TreeError::Unbalanced)));
}

#[test]
fn token_at_root_level_joins_the_root_chain() {
    let mut b: TreeBuilder<String> = TreeBuilder::new();
    b.token(s("t1"), Span::new(0, 1));
    b.open_node(s("n"));
    b.close_node().unwrap();
    b.token(s("t2"), Span::new(1, 2));
    let tree = b.build().unwrap();
    let first = tree.first().unwrap();
    assert_eq!(first.value().as_str(), "t1");
    assert_eq!(first.kind(), Kind::Token);
    assert!(first.parent().is_none());
    let n = first.next().unwrap();
    assert_eq!(n.value().as_str(), "n");
    let last = tree.last().unwrap();
    assert_eq!(last.value().as_str(), "t2");
    assert!(last.parent().is_none());
}

#[test]
fn ids_are_stable_slot_references() {
    let mut b: TreeBuilder<String> = TreeBuilder::new();
    let root_id = b.open_node(s("root"));
    let child_id = b.open_node(s("child"));
    b.close_node().unwrap();
    let child2_id = b.open_node(s("child2"));
    b.close_node().unwrap();
    b.close_node().unwrap();
    let tree = b.build().unwrap();

    let root = tree.first().unwrap();
    let child = root.first().unwrap();
    let child2 = child.next().unwrap();
    assert_eq!(root.id(), root_id);
    assert_eq!(child.id(), child_id);
    assert_eq!(child2.id(), child2_id);
    assert_ne!(root_id, child_id);
}

#[test]
fn len_and_is_empty_report_the_arena() {
    let b: TreeBuilder<String> = TreeBuilder::new();
    let tree = b.build().unwrap();
    assert!(tree.is_empty());
    assert_eq!(tree.len(), 0);
    assert!(tree.first().is_none());
    assert!(tree.last().is_none());

    let mut b: TreeBuilder<String> = TreeBuilder::new();
    b.token(s("t"), Span::new(0, 1));
    let tree = b.build().unwrap();
    assert!(!tree.is_empty());
    assert_eq!(tree.len(), 1);
}

#[test]
fn span_helpers() {
    let sp = Span::new(2, 5);
    assert_eq!(sp.start, 2);
    assert_eq!(sp.end, 5);
    assert!(!sp.is_empty());
    assert!(Span::point(3).is_empty());
    assert!(sp.contains(&Span::new(3, 4)));
    assert!(!sp.contains(&Span::new(1, 4)));
}
