use syntax_cursor::{GreenElement, GreenNode, GreenToken, NodeOrToken, SyntaxKind, SyntaxNode};

fn token(kind: u16, text: &str) -> GreenElement {
    NodeOrToken::Token(GreenToken::new(SyntaxKind(kind), text))
}

fn node(kind: u16, children: Vec<GreenElement>) -> GreenElement {
    NodeOrToken::Node(GreenNode::new(SyntaxKind(kind), children))
}

/// The tree of `let x = 1;` and `f()` on two lines. Kinds below 10 are nodes.
fn sample() -> SyntaxNode {
    let binding = node(
        1,
        vec![
            token(10, "let"),
            token(11, " "),
            node(2, vec![token(12, "x")]),
            token(11, " "),
            token(13, "="),
            token(11, " "),
            node(3, vec![token(14, "1")]),
            token(15, ";"),
        ],
    );
    let call = node(5, vec![token(12, "f"), token(16, "("), token(17, ")")]);
    let root = GreenNode::new(
        SyntaxKind(0),
        vec![binding, token(11, "\n"), node(4, vec![]), call],
    );
    SyntaxNode::new_root(root)
}

#[test]
fn live_nodes_are_counted() {
    countme::enable(true);
    let before = countme::get::<SyntaxNode>();
    let root = sample();
    let copy = root.clone();
    assert_eq!(countme::get::<SyntaxNode>().live, before.live + 1);
    let name = root.first_child().unwrap().first_child().unwrap();
    assert_eq!(countme::get::<SyntaxNode>().live, before.live + 3);
    drop(root);
    drop(copy);
    assert_eq!(countme::get::<SyntaxNode>().live, before.live + 3);
    drop(name);
    assert_eq!(countme::get::<SyntaxNode>().live, before.live);
    assert_eq!(countme::get::<SyntaxNode>().total, before.total + 3);
}
