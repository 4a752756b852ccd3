use syntax_cursor::{Direction, GreenElement, GreenNode, GreenToken, NodeOrToken, SyntaxElement};
use syntax_cursor::{SyntaxKind, SyntaxNode, SyntaxToken};

fn token(kind: u16, text: &str) -> GreenElement {
    NodeOrToken::Token(GreenToken::new(SyntaxKind(kind), text))
}

fn node(kind: u16, children: Vec<GreenElement>) -> GreenElement {
    NodeOrToken::Node(GreenNode::new(SyntaxKind(kind), children))
}

/// The tree of `let x = 1;` and `f()` on two lines. Kinds below 10 are nodes.
fn sample() -> SyntaxNode {
    let binding = node(
        1,
        vec![
            token(10, "let"),
            token(11, " "),
            node(2, vec![token(12, "x")]),
            token(11, " "),
            token(13, "="),
            token(11, " "),
            node(3, vec![token(14, "1")]),
            token(15, ";"),
        ],
    );
    let call = node(5, vec![token(12, "f"), token(16, "("), token(17, ")")]);
    let root = GreenNode::new(
        SyntaxKind(0),
        vec![binding, token(11, "\n"), node(4, vec![]), call],
    );
    SyntaxNode::new_root(root)
}

fn node_kinds(nodes: &[SyntaxNode]) -> Vec<u16> {
    nodes.iter().map(|it| it.kind().0).collect()
}

fn element_kinds(elements: &[SyntaxElement]) -> Vec<u16> {
    elements.iter().map(|it| it.kind().0).collect()
}

fn children_of(parent: &SyntaxNode) -> Vec<SyntaxNode> {
    let mut children = parent.children();
    let mut all = Vec::new();
    while let Some(child) = children.next() {
        all.push(child);
    }
    all
}

fn elements_of(parent: &SyntaxNode) -> Vec<SyntaxElement> {
    let mut children = parent.children_with_tokens();
    let mut all = Vec::new();
    while let Some(child) = children.next() {
        all.push(child);
    }
    all
}

fn all_tokens(root: &SyntaxNode) -> Vec<SyntaxToken> {
    root.descendants_with_tokens().iter().filter_map(|it| it.as_token().cloned()).collect()
}

#[test]
fn a_root_has_no_parent_and_no_siblings() {
    let root = sample();
    assert!(root.parent().is_none());
    assert!(root.next_sibling().is_none());
    assert!(root.prev_sibling().is_none());
    assert!(root.next_sibling_or_token().is_none());
    assert!(root.prev_sibling_or_token().is_none());
    assert_eq!(node_kinds(&root.ancestors()), [0]);
    assert_eq!(node_kinds(&root.siblings(Direction::Next)), [0]);
    assert_eq!(node_kinds(&root.siblings(Direction::Prev)), [0]);
    assert_eq!(element_kinds(&root.siblings_with_tokens(Direction::Next)), [0]);
    assert_eq!(element_kinds(&root.siblings_with_tokens(Direction::Prev)), [0]);
}

#[test]
fn children_pass_over_tokens() {
    let root = sample();
    assert_eq!(node_kinds(&children_of(&root)), [1, 4, 5]);
    let binding = root.first_child().unwrap();
    assert_eq!(node_kinds(&children_of(&binding)), [2, 3]);
    let call = root.last_child().unwrap();
    assert_eq!(node_kinds(&children_of(&call)), Vec::<u16>::new());
    assert!(call.first_child().is_none());
    assert!(call.last_child().is_none());
}

#[test]
fn children_with_tokens_are_all_children() {
    let root = sample();
    assert_eq!(element_kinds(&elements_of(&root)), [1, 11, 4, 5]);
    let binding = root.first_child().unwrap();
    assert_eq!(element_kinds(&elements_of(&binding)), [10, 11, 2, 11, 13, 11, 3, 15]);
}

#[test]
fn an_empty_node_has_no_children() {
    let empty = sample().first_child().unwrap().next_sibling().unwrap();
    assert_eq!(empty.kind(), SyntaxKind(4));
    assert!(empty.first_child().is_none());
    assert!(empty.last_child().is_none());
    assert!(empty.first_child_or_token().is_none());
    assert!(empty.last_child_or_token().is_none());
    assert!(empty.first_token().is_none());
    assert!(empty.last_token().is_none());
    assert!(elements_of(&empty).is_empty());
}

#[test]
fn a_walk_along_children_ends_for_good() {
    let root = sample();
    let mut nodes = root.children();
    let mut elements = root.children_with_tokens();
    while nodes.next().is_some() {}
    while elements.next().is_some() {}
    assert!(nodes.next().is_none());
    assert!(elements.next().is_none());
}

#[test]
fn a_clone_of_a_walk_goes_on_by_itself() {
    let root = sample();
    let mut nodes = root.children();
    nodes.next();
    let mut copy = nodes.clone();
    assert_eq!(nodes.next().unwrap().kind(), SyntaxKind(4));
    assert_eq!(copy.next().unwrap().kind(), SyntaxKind(4));
    assert_eq!(copy.next().unwrap().kind(), SyntaxKind(5));
    assert_eq!(nodes.next().unwrap().kind(), SyntaxKind(5));
    let mut elements = root.children_with_tokens();
    elements.next();
    let mut copy = elements.clone();
    assert_eq!(elements.next().unwrap().kind(), SyntaxKind(11));
    assert_eq!(copy.next().unwrap().kind(), SyntaxKind(11));
}

#[test]
fn first_and_last_children() {
    let root = sample();
    assert_eq!(root.first_child().unwrap().kind(), SyntaxKind(1));
    assert_eq!(root.last_child().unwrap().kind(), SyntaxKind(5));
    assert_eq!(root.first_child_or_token().unwrap().kind(), SyntaxKind(1));
    assert_eq!(root.last_child_or_token().unwrap().kind(), SyntaxKind(5));
    let binding = root.first_child().unwrap();
    assert_eq!(binding.first_child().unwrap().kind(), SyntaxKind(2));
    assert_eq!(binding.last_child().unwrap().kind(), SyntaxKind(3));
    assert_eq!(binding.first_child_or_token().unwrap().kind(), SyntaxKind(10));
    assert_eq!(binding.last_child_or_token().unwrap().kind(), SyntaxKind(15));
}

#[test]
fn first_and_last_child_have_no_sibling_on_one_side() {
    let binding = sample().first_child().unwrap();
    assert!(binding.first_child().unwrap().prev_sibling().is_none());
    assert!(binding.last_child().unwrap().next_sibling().is_none());
    assert!(binding.first_child_or_token().unwrap().prev_sibling_or_token().is_none());
    assert!(binding.last_child_or_token().unwrap().next_sibling_or_token().is_none());
}

#[test]
fn siblings_that_are_nodes_undo_each_other() {
    let nodes = children_of(&sample());
    for pair in nodes.windows(2) {
        assert!(pair[0].next_sibling().unwrap() == pair[1]);
        assert!(pair[1].prev_sibling().unwrap() == pair[0]);
    }
}

#[test]
fn siblings_undo_each_other() {
    let binding = sample().first_child().unwrap();
    let elements = elements_of(&binding);
    for pair in elements.windows(2) {
        assert!(pair[0].next_sibling_or_token().unwrap() == pair[1]);
        assert!(pair[1].prev_sibling_or_token().unwrap() == pair[0]);
    }
}

#[test]
fn siblings_in_both_directions() {
    let root = sample();
    let empty = root.first_child().unwrap().next_sibling().unwrap();
    assert_eq!(node_kinds(&empty.siblings(Direction::Next)), [4, 5]);
    assert_eq!(node_kinds(&empty.siblings(Direction::Prev)), [4, 1]);
    assert_eq!(element_kinds(&empty.siblings_with_tokens(Direction::Next)), [4, 5]);
    assert_eq!(element_kinds(&empty.siblings_with_tokens(Direction::Prev)), [4, 11, 1]);
    let token = empty.prev_sibling_or_token().unwrap().as_token().unwrap().clone();
    assert_eq!(element_kinds(&token.siblings_with_tokens(Direction::Next)), [11, 4, 5]);
    assert_eq!(element_kinds(&token.siblings_with_tokens(Direction::Prev)), [11, 1]);
}

#[test]
fn node_siblings_are_the_nodes_among_all_siblings() {
    let binding = sample().first_child().unwrap();
    for start in children_of(&binding) {
        for direction in [Direction::Next, Direction::Prev] {
            let nodes = start.siblings(direction);
            let among: Vec<SyntaxNode> = start
                .siblings_with_tokens(direction)
                .iter()
                .filter_map(|it| it.as_node().cloned())
                .collect();
            assert!(nodes == among);
        }
    }
}

#[test]
fn node_children_are_the_nodes_among_all_children() {
    let root = sample();
    for parent in root.descendants() {
        let among: Vec<SyntaxNode> =
            elements_of(&parent).iter().filter_map(|it| it.as_node().cloned()).collect();
        assert!(children_of(&parent) == among);
    }
}

#[test]
fn parents_of_children() {
    let root = sample();
    for parent in root.descendants() {
        for child in elements_of(&parent) {
            assert!(child.parent().unwrap() == parent);
        }
    }
}

#[test]
fn ancestors_lead_to_the_root() {
    let root = sample();
    let name = root.first_child().unwrap().first_child().unwrap();
    assert_eq!(node_kinds(&name.ancestors()), [2, 1, 0]);
    let token = name.first_token().unwrap();
    assert_eq!(node_kinds(&token.ancestors()), [2, 1, 0]);
    assert_eq!(node_kinds(&SyntaxElement::from(token.clone()).ancestors()), [2, 1, 0]);
    assert_eq!(node_kinds(&SyntaxElement::from(name.clone()).ancestors()), [2, 1, 0]);
    for pair in name.ancestors().windows(2) {
        assert!(pair[0].parent().unwrap() == pair[1]);
        assert!(pair[1].text_range().contains_range(pair[0].text_range()));
    }
    assert!(token.parent() == name);
}

#[test]
fn first_and_last_tokens() {
    let root = sample();
    assert_eq!(root.first_token().unwrap().text(), "let");
    assert_eq!(root.last_token().unwrap().text(), ")");
    let binding = root.first_child().unwrap();
    assert_eq!(binding.last_token().unwrap().text(), ";");
    let name = binding.first_child().unwrap();
    assert!(name.first_token().unwrap() == name.last_token().unwrap());
    let element = SyntaxElement::from(name.first_token().unwrap());
    assert!(element.first_token().unwrap() == name.first_token().unwrap());
    assert!(element.last_token().unwrap() == name.first_token().unwrap());
}

#[test]
fn a_first_token_is_not_looked_for_behind_an_empty_node() {
    let root = SyntaxNode::new_root(GreenNode::new(
        SyntaxKind(0),
        vec![node(4, vec![]), token(12, "a"), node(4, vec![])],
    ));
    assert!(root.first_token().is_none());
    assert!(root.last_token().is_none());
}

#[test]
fn next_token_crosses_nodes() {
    let binding = sample().first_child().unwrap();
    let mut texts = vec![];
    let mut next = binding.first_token();
    while let Some(token) = next {
        texts.push(token.text().to_string());
        next = token.next_token();
    }
    // The newline is followed by a node without children, where the search ends.
    assert_eq!(texts, ["let", " ", "x", " ", "=", " ", "1", ";", "\n"]);
}

#[test]
fn prev_token_crosses_nodes() {
    let root = sample();
    let binding = root.first_child().unwrap();
    let mut texts = vec![];
    let mut prev = binding.last_token();
    while let Some(token) = prev {
        texts.push(token.text().to_string());
        prev = token.prev_token();
    }
    assert_eq!(texts, [";", "1", " ", "=", " ", "x", " ", "let"]);
    let open = root.last_child().unwrap().first_token().unwrap();
    assert!(open.prev_token().is_none());
}

#[test]
fn next_and_previous_token_undo_each_other() {
    for token in all_tokens(&sample()) {
        if let Some(next) = token.next_token() {
            assert!(next.prev_token().unwrap() == token);
        }
        if let Some(prev) = token.prev_token() {
            assert!(prev.next_token().unwrap() == token);
        }
    }
}

#[test]
fn without_empty_nodes_next_token_visits_all() {
    let root = SyntaxNode::new_root(GreenNode::new(
        SyntaxKind(0),
        vec![token(11, " "), node(5, vec![token(12, "f")]), token(15, ";")],
    ));
    let tokens = all_tokens(&root);
    assert_eq!(tokens.len(), 3);
    for pair in tokens.windows(2) {
        assert!(pair[0].next_token().unwrap() == pair[1]);
    }
    assert!(tokens[2].next_token().is_none());
    assert!(tokens[0].prev_token().is_none());
    assert!(root.first_token().unwrap() == tokens[0]);
    assert!(root.last_token().unwrap() == tokens[2]);
}

#[test]
fn conversions_to_elements() {
    let root = sample();
    let element: SyntaxElement = root.clone().into();
    assert!(element.as_node().unwrap() == &root);
    assert!(element.as_token().is_none());
    let token = root.first_token().unwrap();
    let element: SyntaxElement = token.clone().into();
    assert!(element.as_token().unwrap() == &token);
    assert!(element.as_node().is_none());
    assert_eq!(element.kind(), SyntaxKind(10));
}

#[test]
fn siblings_on_both_sides_make_up_the_children() {
    for parent in sample().descendants() {
        for child in elements_of(&parent) {
            let (mut before, after) = match &child {
                NodeOrToken::Node(it) => (
                    it.siblings_with_tokens(Direction::Prev),
                    it.siblings_with_tokens(Direction::Next),
                ),
                NodeOrToken::Token(it) => (
                    it.siblings_with_tokens(Direction::Prev),
                    it.siblings_with_tokens(Direction::Next),
                ),
            };
            before.reverse();
            before.extend_from_slice(&after[1..]);
            assert!(before == elements_of(&parent));
        }
        for child in children_of(&parent) {
            let mut before = child.siblings(Direction::Prev);
            before.reverse();
            before.extend_from_slice(&child.siblings(Direction::Next)[1..]);
            assert!(before == children_of(&parent));
        }
    }
}
