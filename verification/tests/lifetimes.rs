use syntax_cursor::{GreenElement, GreenNode, GreenToken, NodeOrToken, SyntaxKind, SyntaxNode};

fn token(kind: u16, text: &str) -> GreenElement {
    NodeOrToken::Token(GreenToken::new(SyntaxKind(kind), text))
}

fn node(kind: u16, children: Vec<GreenElement>) -> GreenElement {
    NodeOrToken::Node(GreenNode::new(SyntaxKind(kind), children))
}

/// The tree of `let x = 1;` and `f()` on two lines. Kinds below 10 are nodes.
fn sample() -> SyntaxNode {
    let binding = node(
        1,
        vec![
            token(10, "let"),
            token(11, " "),
            node(2, vec![token(12, "x")]),
            token(11, " "),
            token(13, "="),
            token(11, " "),
            node(3, vec![token(14, "1")]),
            token(15, ";"),
        ],
    );
    let call = node(5, vec![token(12, "f"), token(16, "("), token(17, ")")]);
    let root = GreenNode::new(
        SyntaxKind(0),
        vec![binding, token(11, "\n"), node(4, vec![]), call],
    );
    SyntaxNode::new_root(root)
}

#[test]
fn nodes_outlive_the_nodes_they_came_from() {
    let name = {
        let root = sample();
        root.first_child().unwrap().first_child().unwrap()
    };
    assert_eq!(name.to_string(), "x");
    let root = name.ancestors().pop().unwrap();
    assert_eq!(root.to_string(), "let x = 1;\nf()");
    let token = {
        let root = sample();
        root.last_token().unwrap()
    };
    assert_eq!(token.text(), ")");
    assert_eq!(token.parent().parent().unwrap().text_range().end().raw, 14);
}

#[test]
fn green_trees_outlive_their_cursors() {
    let green = GreenNode::new(SyntaxKind(0), vec![token(12, "a")]);
    {
        let root = SyntaxNode::new_root(green.clone());
        assert_eq!(root.to_string(), "a");
    }
    assert_eq!(green.child(0).as_token().unwrap().text(), "a");
}

#[test]
fn a_long_chain_of_parents_is_let_go() {
    let depth = 20_000;
    let mut green = GreenNode::new(SyntaxKind(0), vec![token(12, "a")]);
    let mut kept = vec![green.clone()];
    for _ in 0..depth {
        green = GreenNode::new(SyntaxKind(0), vec![NodeOrToken::Node(green)]);
        kept.push(green.clone());
    }
    let mut lowest = SyntaxNode::new_root(green.clone());
    while let Some(child) = lowest.first_child() {
        lowest = child;
    }
    assert_eq!(lowest.ancestors().len(), depth + 1);
    drop(lowest);
    // The green tree is taken apart from the root down, so that this needs no deep recursion.
    drop(green);
    while let Some(node) = kept.pop() {
        drop(node);
    }
}
