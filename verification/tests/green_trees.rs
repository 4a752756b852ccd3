use syntax_cursor::children::{filter_nodes, ElementWalk};
use syntax_cursor::{GreenElement, GreenNode, GreenToken, NodeOrToken, SyntaxKind, SyntaxNode};
use syntax_cursor::{TextRange, TextSize};

fn token(kind: u16, text: &str) -> GreenElement {
    NodeOrToken::Token(GreenToken::new(SyntaxKind(kind), text))
}

fn node(kind: u16, children: Vec<GreenElement>) -> GreenElement {
    NodeOrToken::Node(GreenNode::new(SyntaxKind(kind), children))
}

/// The tree of `let x = 1;` and `f()` on two lines. Kinds below 10 are nodes.
fn sample() -> SyntaxNode {
    let binding = node(
        1,
        vec![
            token(10, "let"),
            token(11, " "),
            node(2, vec![token(12, "x")]),
            token(11, " "),
            token(13, "="),
            token(11, " "),
            node(3, vec![token(14, "1")]),
            token(15, ";"),
        ],
    );
    let call = node(5, vec![token(12, "f"), token(16, "("), token(17, ")")]);
    let root = GreenNode::new(
        SyntaxKind(0),
        vec![binding, token(11, "\n"), node(4, vec![]), call],
    );
    SyntaxNode::new_root(root)
}

fn at(raw: u32) -> TextSize {
    TextSize::from(raw)
}

#[test]
fn green_tokens() {
    let token = GreenToken::new(SyntaxKind(7), "\u{20ac}uro");
    assert_eq!(token.kind(), SyntaxKind(7));
    assert_eq!(token.text(), "\u{20ac}uro");
    assert_eq!(token.text_len(), at(6));
    assert_eq!(token.clone().text(), "\u{20ac}uro");
}

#[test]
fn green_nodes() {
    let root = sample();
    let green = root.green();
    assert_eq!(green.kind(), SyntaxKind(0));
    assert_eq!(green.text_len(), at(14));
    assert_eq!(green.child_count(), 4);
    assert_eq!(green.child(1).as_token().unwrap().text(), "\n");
    assert_eq!(green.child(3).as_node().unwrap().kind(), SyntaxKind(5));
    assert_eq!(green.child(3).text_len(), at(3));
    let token = root.last_token().unwrap();
    assert_eq!(token.green().text(), ")");
    assert_eq!(token.kind(), SyntaxKind(17));
}

#[test]
fn clones_of_a_green_node_share_an_address() {
    let green = GreenNode::new(SyntaxKind(0), vec![]);
    let other = GreenNode::new(SyntaxKind(0), vec![]);
    assert_eq!(green.address(), green.clone().address());
    assert!(green.address() != other.address());
}

#[test]
fn children_from_an_index() {
    let root = sample();
    let mut walk = root.green().children_from(1, at(10));
    let mut seen = Vec::new();
    while let Some((element, (index, offset))) = walk.next() {
        seen.push((element.text_len().raw, index, offset.raw));
    }
    assert_eq!(seen, [(1, 1, 10), (0, 2, 11), (3, 3, 11)]);
    assert!(root.green().children_from(4, at(14)).next().is_none());
    assert!(root.green().children_from(9, at(14)).next().is_none());
}

#[test]
fn children_up_to_an_index() {
    let root = sample();
    let mut walk = root.green().children_to(3, at(11));
    let mut seen = Vec::new();
    while let Some((element, (index, offset))) = walk.next() {
        seen.push((element.text_len().raw, index, offset.raw));
    }
    assert_eq!(seen, [(0, 2, 11), (1, 1, 10), (10, 0, 0)]);
    assert!(root.green().children_to(0, at(0)).next().is_none());
}

#[test]
fn children_up_to_an_index_beyond_the_last() {
    let root = sample();
    let mut walk = root.green().children_to(6, at(20));
    let (element, (index, offset)) = walk.next().unwrap();
    assert_eq!(element.as_node().unwrap().kind(), SyntaxKind(5));
    assert_eq!((index, offset.raw), (5, 17));
}

#[test]
fn nodes_among_children() {
    let root = sample();
    let mut nodes = filter_nodes(root.green().children_from(1, at(10)));
    let mut seen = Vec::new();
    while let Some((green, (index, offset))) = nodes.next() {
        seen.push((green.kind().0, index, offset.raw));
    }
    assert_eq!(seen, [(4, 2, 11), (5, 3, 11)]);
    let mut nodes = filter_nodes(root.green().children_to(3, at(11)));
    let mut seen = Vec::new();
    while let Some((green, (index, offset))) = nodes.next() {
        seen.push((green.kind().0, index, offset.raw));
    }
    assert_eq!(seen, [(4, 2, 11), (1, 0, 0)]);
}

#[test]
fn a_green_child_at_a_range() {
    let binding = sample().first_child().unwrap();
    let find = |start: u32, end: u32| {
        binding
            .green()
            .child_at_range(TextRange::new(at(start), at(end)))
            .map(|(index, offset, _)| (index, offset.raw))
    };
    assert_eq!(find(0, 3), Some((0, 0)));
    assert_eq!(find(4, 5), Some((2, 4)));
    assert_eq!(find(4, 6), None);
    assert_eq!(find(0, 0), Some((0, 0)));
    assert_eq!(find(3, 3), Some((0, 0)));
    assert_eq!(find(2, 2), Some((0, 0)));
    assert_eq!(find(10, 10), Some((7, 9)));
    assert_eq!(find(10, 11), None);
    assert_eq!(find(11, 11), None);
}

#[test]
fn replacing_a_green_child() {
    let root = sample();
    let changed = root.green().replace_child(1, token(11, "\n\n"));
    assert_eq!(changed.text_len(), at(15));
    assert_eq!(changed.kind(), SyntaxKind(0));
    assert_eq!(changed.child_count(), 4);
    assert_eq!(SyntaxNode::new_root(changed).to_string(), "let x = 1;\n\nf()");
}

#[test]
fn a_walk_backwards_is_the_reverse_of_a_walk_forwards() {
    let root = sample();
    let green = root.green();
    for count in 0..=green.child_count() {
        let mut forwards = green.children_from(0, at(5));
        let mut seen = Vec::new();
        let mut end = at(5);
        for _ in 0..count {
            let (element, (index, offset)) = forwards.next().unwrap();
            end = at(offset.raw + element.text_len().raw);
            seen.push((element.as_node().is_some(), element.text_len(), index, offset));
        }
        let mut backwards = green.children_to(count, end);
        while let Some((element, (index, offset))) = backwards.next() {
            let item = (element.as_node().is_some(), element.text_len(), index, offset);
            assert_eq!(Some(item), seen.pop());
        }
        assert!(seen.is_empty());
    }
}
