use faster_beamer::syntax::{get_children, get_nodes_of_type, SyntaxNode, TraversalOrder};

fn node(kind: &str, children: Vec<SyntaxNode>) -> SyntaxNode {
    SyntaxNode { kind: kind.to_string(), start_byte: 0, end_byte: 0, children }
}

fn sample() -> SyntaxNode {
    // root(a(b, c(d)), e)
    node("root", vec![node("a", vec![node("b", vec![]), node("c", vec![node("d", vec![])])]), node("e", vec![])])
}

fn kinds(v: &[&SyntaxNode]) -> Vec<String> {
    v.iter().map(|n| n.kind.clone()).collect()
}

#[test]
fn depth_first_is_pre_order() {
    let t = sample();
    let all = get_children(&t, &|_n: &SyntaxNode| true, false, TraversalOrder::DepthFirst);
    assert_eq!(kinds(&all), vec!["root", "a", "b", "c", "d", "e"]);
}

#[test]
fn breadth_first_takes_children_last_to_first() {
    let t = sample();
    let all = get_children(&t, &|_n: &SyntaxNode| true, false, TraversalOrder::BreadthFirst);
    assert_eq!(kinds(&all), vec!["root", "e", "a", "c", "d", "b"]);
}

#[test]
fn first_only_stops_at_the_first_match() {
    let t = sample();
    let leaf = |n: &SyntaxNode| n.children.is_empty();
    let df = get_children(&t, &leaf, true, TraversalOrder::DepthFirst);
    assert_eq!(kinds(&df), vec!["b"]);
    let bf = get_children(&t, &leaf, true, TraversalOrder::BreadthFirst);
    assert_eq!(kinds(&bf), vec!["e"]);
    let none = get_children(&t, &|_n: &SyntaxNode| false, true, TraversalOrder::DepthFirst);
    assert!(none.is_empty());
}

#[test]
fn nodes_of_type_in_pre_order() {
    let t = node("x", vec![node("y", vec![node("x", vec![])]), node("x", vec![])]);
    assert_eq!(get_nodes_of_type(&t, "x".to_string(), false).len(), 3);
    assert_eq!(get_nodes_of_type(&t, "y".to_string(), false).len(), 1);
    let first = get_nodes_of_type(&t, "x".to_string(), true);
    assert_eq!(first.len(), 1);
    assert_eq!(first[0].children.len(), 2);
    assert!(get_nodes_of_type(&t, "z".to_string(), false).is_empty());
}
