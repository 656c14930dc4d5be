use pddl_triples::tree::{Cursor, Node};
use pddl_triples::walker::{walk_tree, TreeCursorWalker};

fn leaf(kind: &str, text: &str) -> Node {
    Node { kind: kind.to_string(), is_named: true, text: text.to_string(), children: Vec::new() }
}

fn node(kind: &str, text: &str, children: Vec<Node>) -> Node {
    Node { kind: kind.to_string(), is_named: true, text: text.to_string(), children }
}

#[test]
fn single_node_yields_root_once_at_depth_zero() {
    let root = leaf("source", "x");
    let out = walk_tree(&root);
    assert_eq!(out.len(), 1);
    assert_eq!(out[0].kind, "source");
    assert_eq!(out[0].text, "x");
    assert_eq!(out[0].depth, 0);
}

#[test]
fn preorder_visits_every_node_once_with_true_depths() {
    // root -> a -> b -> c, and d a sibling of a
    let root = node(
        "root",
        "",
        vec![node("a", "", vec![node("b", "", vec![leaf("c", "")])]), leaf("d", "")],
    );
    let out = walk_tree(&root);
    let kinds: Vec<&str> = out.iter().map(|e| e.kind.as_str()).collect();
    let depths: Vec<usize> = out.iter().map(|e| e.depth).collect();
    assert_eq!(kinds, ["root", "a", "b", "c", "d"]);
    assert_eq!(depths, [0, 1, 2, 3, 1]);
}

#[test]
fn wide_tree_visits_siblings_in_order() {
    let root = node("root", "", vec![leaf("x", "1"), leaf("y", "2"), leaf("z", "3")]);
    let out = walk_tree(&root);
    let texts: Vec<&str> = out.iter().map(|e| e.text.as_str()).collect();
    assert_eq!(texts, ["", "1", "2", "3"]);
    assert_eq!(out.len(), 4);
}

#[test]
fn walker_pulls_one_record_per_call_then_ends() {
    let root = node("root", "", vec![leaf("x", ""), leaf("y", "")]);
    let cursor = Cursor::new(&root);
    let mut walker = TreeCursorWalker::new(cursor);
    let a = walker.next().expect("root");
    assert_eq!(a.kind, "root");
    assert_eq!(a.depth, 0);
    let b = walker.next().expect("first child");
    assert_eq!(b.kind, "x");
    assert_eq!(b.depth, 1);
    let c = walker.next().expect("second child");
    assert_eq!(c.kind, "y");
    assert_eq!(c.depth, 1);
    assert!(walker.next().is_none());
    assert!(walker.next().is_none());
}

#[test]
fn cursor_navigation_succeeds_and_fails_as_the_tree_says() {
    let root = node("root", "", vec![node("a", "", vec![leaf("b", "")]), leaf("c", "")]);
    let mut cur = Cursor::new(&root);
    assert_eq!(cur.node().kind, "root");
    assert_eq!(cur.depth(), 0);
    assert!(cur.goto_first_child());
    assert_eq!(cur.node().kind, "a");
    assert_eq!(cur.depth(), 1);
    assert!(cur.goto_first_child());
    assert_eq!(cur.node().kind, "b");
    assert_eq!(cur.depth(), 2);
    // a leaf has no child, b has no next sibling
    assert!(!cur.goto_first_child());
    assert!(!cur.goto_next_sibling());
    assert_eq!(cur.node().kind, "b");
    assert!(cur.goto_parent());
    assert_eq!(cur.node().kind, "a");
    assert!(cur.goto_next_sibling());
    assert_eq!(cur.node().kind, "c");
    assert!(!cur.goto_next_sibling());
    assert!(cur.goto_parent());
    assert_eq!(cur.depth(), 0);
    assert!(!cur.goto_parent());
}
