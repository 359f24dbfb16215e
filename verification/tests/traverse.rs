use syntree::{Event, Kind, Span, Tree, TreeBuilder};

fn s(text: &str) -> String {
    String::from(text)
}

/// `root { child1 { t1 } t2 child2 { t3 t4 } }`, spans accumulating left
/// to right.
fn sample() -> Tree<String> {
    let mut b: TreeBuilder<String> = TreeBuilder::new();
    b.open_node(s("root"));
    b.open_node(s("child1"));
    b.token(s("t1"), Span::new(0, 2));
    b.close_node().unwrap();
    b.token(s("t2"), Span::new(2, 3));
    b.open_node(s("child2"));
    b.token(s("t3"), Span::new(3, 5));
    b.token(s("t4"), Span::new(5, 9));
    b.close_node().unwrap();
    b.close_node().unwrap();
    b.build().unwrap()
}

#[test]
fn ancestors_count_equals_depth_plus_one() {
    let tree = sample();
    let t3 = tree.first().unwrap().last().unwrap().first().unwrap();
    assert_eq!(t3.value().as_str(), "t3");
    let mut it = t3.ancestors();
    let mut names: Vec<String> = Vec::new();
    while let Some(n) = it.next() {
        names.push(n.value().clone());
    }
    assert_eq!(names, vec![s("t3"), s("child2"), s("root")]);
}

#[test]
fn siblings_of_first_child_visit_exactly_the_children() {
    let tree = sample();
    let root = tree.first().unwrap();
    let first_child = root.first().unwrap();

    let mut via_siblings: Vec<String> = Vec::new();
    let mut it = first_child.siblings();
    while let Some(n) = it.next() {
        via_siblings.push(n.value().clone());
    }

    let mut via_children: Vec<String> = Vec::new();
    let mut it = root.children();
    while let Some(n) = it.next() {
        via_children.push(n.value().clone());
    }

    assert_eq!(via_siblings, vec![s("child1"), s("t2"), s("child2")]);
    assert_eq!(via_siblings, via_children);
}

#[test]
fn next_node_and_skip_tokens_drop_tokens() {
    let tree = sample();
    let root = tree.first().unwrap();
    let first_child = root.first().unwrap();

    let mut it = first_child.siblings();
    let mut out: Vec<String> = Vec::new();
    while let Some(n) = it.next_node() {
        out.push(n.value().clone());
    }
    assert_eq!(out, vec![s("child1"), s("child2")]);

    let mut it = first_child.siblings().skip_tokens();
    let mut out: Vec<String> = Vec::new();
    while let Some(n) = it.next() {
        out.push(n.value().clone());
    }
    assert_eq!(out, vec![s("child1"), s("child2")]);
}

#[test]
fn walk_visits_document_order_with_depths() {
    let tree = sample();
    let mut w = tree.walk().with_depths();
    let mut out: Vec<(usize, String)> = Vec::new();
    while let Some((d, n)) = w.next() {
        out.push((d, n.value().clone()));
    }
    assert_eq!(
        out,
        vec![
            (0, s("root")),
            (1, s("child1")),
            (2, s("t1")),
            (1, s("t2")),
            (1, s("child2")),
            (2, s("t3")),
            (2, s("t4")),
        ]
    );
}

#[test]
fn subtree_walk_stays_inside_its_scope() {
    let tree = sample();
    let child2 = tree.first().unwrap().last().unwrap();
    assert_eq!(child2.value().as_str(), "child2");
    let mut w = child2.walk();
    let mut out: Vec<String> = Vec::new();
    while let Some(n) = w.next() {
        out.push(n.value().clone());
    }
    assert_eq!(out, vec![s("t3"), s("t4")]);
}

#[test]
fn walk_events_pair_enter_and_exit() {
    let mut b: TreeBuilder<String> = TreeBuilder::new();
    b.open_node(s("root"));
    b.open_node(s("a"));
    b.token(s("tok"), Span::new(0, 1));
    b.close_node().unwrap();
    b.token(s("b"), Span::new(1, 2));
    b.close_node().unwrap();
    let tree = b.build().unwrap();

    let mut w = tree.walk_events();
    let mut out: Vec<(Event, String)> = Vec::new();
    while let Some((ev, n)) = w.next() {
        out.push((ev, n.value().clone()));
    }
    assert_eq!(
        out,
        vec![
            (Event::Enter, s("root")),
            (Event::Enter, s("a")),
            (Event::Enter, s("tok")),
            (Event::Exit, s("a")),
            (Event::Enter, s("b")),
            (Event::Exit, s("root")),
        ]
    );
}

#[test]
fn repeated_navigation_gives_equal_results() {
    let tree = sample();
    let root = tree.first().unwrap();
    let a = root.first().unwrap();
    let b1 = root.first().unwrap();
    assert_eq!(a.value(), b1.value());
    assert_eq!(a.kind(), b1.kind());
    assert_eq!(a.span(), b1.span());
    let p1 = a.parent().unwrap();
    let p2 = a.parent().unwrap();
    assert_eq!(p1.value(), p2.value());
    assert_eq!(p1.kind(), p2.kind());
    assert_eq!(p1.span(), p2.span());
    let l1 = root.last().unwrap();
    let l2 = root.last().unwrap();
    assert_eq!(l1.value(), l2.value());
    assert_eq!(l1.span(), l2.span());
    assert_eq!(a.range(), 0..2);
}

#[test]
fn find_preceding_descends_into_the_matching_sibling() {
    // root { child1 { nested1 { tok 0..4, tok 4..5, tok 5..10 },
    //                 tok 10..11, tok 11..16 }, child2 {} }
    let mut b: TreeBuilder<String> = TreeBuilder::new();
    b.open_node(s("root"));
    b.open_node(s("child1"));
    b.open_node(s("nested1"));
    b.token(s("i1"), Span::new(0, 4));
    b.token(s("i2"), Span::new(4, 5));
    b.token(s("i3"), Span::new(5, 10));
    b.close_node().unwrap();
    b.token(s("o1"), Span::new(10, 11));
    b.token(s("o2"), Span::new(11, 16));
    b.close_node().unwrap();
    b.open_node(s("child2"));
    b.close_node().unwrap();
    b.close_node().unwrap();
    let tree = b.build().unwrap();

    // the node immediately after nested1 in document order
    let child1 = tree.first().unwrap().first().unwrap();
    let nested1 = child1.first().unwrap();
    assert_eq!(nested1.value().as_str(), "nested1");
    let after = nested1.next().unwrap();
    assert_eq!(after.value().as_str(), "o1");

    let start = after.span().start;
    let found = after.find_preceding(|n| n.span().end == start).unwrap();
    // the deepest last descendant of nested1 whose span abuts `after`
    assert_eq!(found.value().as_str(), "i3");
    assert_eq!(found.span(), Span::new(5, 10));

    // no preceding node matches an impossible predicate
    assert!(after.find_preceding(|n| n.span().end == 99).is_none());
}

#[test]
fn find_preceding_from_a_nested_start() {
    let mut b: TreeBuilder<String> = TreeBuilder::new();
    b.open_node(s("root"));
    b.open_node(s("left"));
    b.token(s("l1"), Span::new(0, 3));
    b.close_node().unwrap();
    b.open_node(s("right"));
    b.token(s("r1"), Span::new(3, 7));
    b.close_node().unwrap();
    b.close_node().unwrap();
    let tree = b.build().unwrap();

    let right = tree.first().unwrap().last().unwrap();
    let r1 = right.first().unwrap();
    assert_eq!(r1.value().as_str(), "r1");
    // r1 has no previous sibling: the search climbs to `right` and probes
    // `left`, then descends to its last child
    let found = r1.find_preceding(|n| n.span().end == 3).unwrap();
    assert_eq!(found.value().as_str(), "l1");
}

#[test]
fn node_with_range_returns_the_deepest_containing_node() {
    let tree = sample();
    let hit = tree.node_with_range(3..5).unwrap();
    assert_eq!(hit.value().as_str(), "t3");
}

#[test]
fn node_with_range_falls_back_to_the_deepest_match() {
    let tree = sample();
    // spans 2..9 cross child boundaries: no child of root contains it, so
    // the deepest match is root itself
    let hit = tree.node_with_range(2..9).unwrap();
    assert_eq!(hit.value().as_str(), "root");
    // nothing contains a range past the end
    assert!(tree.node_with_range(20..22).is_none());
}

#[test]
fn empty_siblings_iterator_yields_nothing() {
    let tree = sample();
    let mut it = syntree::Siblings::empty(&tree);
    assert!(it.next().is_none());
}

#[test]
fn kinds_are_reported() {
    let tree = sample();
    let root = tree.first().unwrap();
    assert_eq!(root.kind(), Kind::Node);
    let t1 = root.first().unwrap().first().unwrap();
    assert_eq!(t1.kind(), Kind::Token);
    assert!(t1.is_empty());
}

#[test]
fn walk_events_give_no_exit_for_childless_nodes() {
    let mut b: TreeBuilder<String> = TreeBuilder::new();
    b.open_node(s("root"));
    b.open_node(s("empty"));
    b.close_node().unwrap();
    b.close_node().unwrap();
    let tree = b.build().unwrap();
    let mut w = tree.walk_events();
    let mut out: Vec<(Event, String)> = Vec::new();
    while let Some((ev, n)) = w.next() {
        out.push((ev, n.value().clone()));
    }
    assert_eq!(
        out,
        vec![
            (Event::Enter, s("root")),
            (Event::Enter, s("empty")),
            (Event::Exit, s("root")),
        ]
    );
}

#[test]
fn subtree_event_walk_is_bounded_by_its_node() {
    let tree = sample();
    let child2 = tree.first().unwrap().last().unwrap();
    let mut w = child2.walk_events();
    let mut out: Vec<(Event, String)> = Vec::new();
    while let Some((ev, n)) = w.next() {
        out.push((ev, n.value().clone()));
    }
    assert_eq!(out, vec![(Event::Enter, s("t3")), (Event::Enter, s("t4"))]);
}
