use syntree::print::{print, print_with_source};
use syntree::{Span, Tree, TreeBuilder};

fn s(text: &str) -> String {
    String::from(text)
}

/// The example forest: `NUMBER{(NUMBER,3)}, (WHITESPACE,1),
/// OPERATOR{(PLUS,1)}, (WHITESPACE,1), NUMBER{(NUMBER,2)}`, spans
/// accumulating left to right.
fn example() -> Tree<String> {
    let mut b: TreeBuilder<String> = TreeBuilder::new();
    b.open_node(s("NUMBER"));
    b.token(s("NUMBER"), Span::new(0, 3));
    b.close_node().unwrap();
    b.token(s("WHITESPACE"), Span::new(3, 4));
    b.open_node(s("OPERATOR"));
    b.token(s("PLUS"), Span::new(4, 5));
    b.close_node().unwrap();
    b.token(s("WHITESPACE"), Span::new(5, 6));
    b.open_node(s("NUMBER"));
    b.token(s("NUMBER"), Span::new(6, 8));
    b.close_node().unwrap();
    b.build().unwrap()
}

#[test]
fn golden_render_without_source() {
    let tree = example();
    let out = print(&tree);
    assert_eq!(
        out,
        "NUMBER@0..3\n  NUMBER@0..3 +\nWHITESPACE@3..4 +\nOPERATOR@4..5\n  PLUS@4..5 +\nWHITESPACE@5..6 +\nNUMBER@6..8\n  NUMBER@6..8 +\n"
    );
}

#[test]
fn golden_render_with_source() {
    let tree = example();
    let out = print_with_source(&tree, "128 + 64");
    assert_eq!(
        out,
        "NUMBER@0..3\n  NUMBER@0..3 \"128\"\nWHITESPACE@3..4 \" \"\nOPERATOR@4..5\n  PLUS@4..5 \"+\"\nWHITESPACE@5..6 \" \"\nNUMBER@6..8\n  NUMBER@6..8 \"64\"\n"
    );
}

#[test]
fn render_marks_tokens_outside_the_source() {
    let mut b: TreeBuilder<String> = TreeBuilder::new();
    b.token(s("far"), Span::new(90, 95));
    let tree = b.build().unwrap();
    let out = print_with_source(&tree, "short");
    assert_eq!(out, "far@90..95 +\n");
}

#[test]
fn render_formats_multi_digit_offsets() {
    let mut b: TreeBuilder<String> = TreeBuilder::new();
    b.token(s("t"), Span::new(0, 1234));
    let tree = b.build().unwrap();
    let out = print(&tree);
    assert_eq!(out, "t@0..1234 +\n");
}

#[test]
fn render_of_empty_tree_is_empty() {
    let b: TreeBuilder<String> = TreeBuilder::new();
    let tree = b.build().unwrap();
    assert_eq!(print(&tree), "");
}

#[test]
fn render_indents_two_spaces_per_level() {
    let mut b: TreeBuilder<String> = TreeBuilder::new();
    b.open_node(s("a"));
    b.open_node(s("b"));
    b.token(s("c"), Span::new(0, 1));
    b.close_node().unwrap();
    b.close_node().unwrap();
    let tree = b.build().unwrap();
    assert_eq!(print(&tree), "a@0..1\n  b@0..1\n    c@0..1 +\n");
}
