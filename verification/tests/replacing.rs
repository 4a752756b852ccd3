use syntax_cursor::{GreenElement, GreenNode, GreenToken, NodeOrToken, SyntaxKind, SyntaxNode};

fn token(kind: u16, text: &str) -> GreenElement {
    NodeOrToken::Token(GreenToken::new(SyntaxKind(kind), text))
}

fn node(kind: u16, children: Vec<GreenElement>) -> GreenElement {
    NodeOrToken::Node(GreenNode::new(SyntaxKind(kind), children))
}

/// The tree of `let x = 1;` and `f()` on two lines. Kinds below 10 are nodes.
fn sample() -> SyntaxNode {
    let binding = node(
        1,
        vec![
            token(10, "let"),
            token(11, " "),
            node(2, vec![token(12, "x")]),
            token(11, " "),
            token(13, "="),
            token(11, " "),
            node(3, vec![token(14, "1")]),
            token(15, ";"),
        ],
    );
    let call = node(5, vec![token(12, "f"), token(16, "("), token(17, ")")]);
    let root = GreenNode::new(
        SyntaxKind(0),
        vec![binding, token(11, "\n"), node(4, vec![]), call],
    );
    SyntaxNode::new_root(root)
}

#[test]
fn replacing_a_token() {
    let root = sample();
    let name = root.first_child().unwrap().first_child().unwrap().first_token().unwrap();
    let green = name.replace_with(GreenToken::new(SyntaxKind(12), "long_name"));
    let changed = SyntaxNode::new_root(green);
    assert_eq!(changed.to_string(), "let long_name = 1;\nf()");
    assert_eq!(changed.kind(), SyntaxKind(0));
    assert_eq!(changed.text_range().end().raw, 22);
    // The old tree is as it was.
    assert_eq!(root.to_string(), "let x = 1;\nf()");
}

#[test]
fn replacing_a_node() {
    let root = sample();
    let value = root.first_child().unwrap().last_child().unwrap();
    let replacement = GreenNode::new(SyntaxKind(3), vec![token(14, "4"), token(14, "2")]);
    let changed = SyntaxNode::new_root(value.replace_with(replacement));
    assert_eq!(changed.to_string(), "let x = 42;\nf()");
    let new_value = changed.first_child().unwrap().last_child().unwrap();
    assert_eq!(new_value.to_string(), "42");
    assert_eq!(new_value.text_range().start(), value.text_range().start());
}

#[test]
fn replacing_the_root() {
    let root = sample();
    let replacement = GreenNode::new(SyntaxKind(0), vec![token(12, "y")]);
    let address = replacement.address();
    let green = root.replace_with(replacement);
    assert_eq!(green.address(), address);
    assert_eq!(SyntaxNode::new_root(green).to_string(), "y");
}

#[test]
fn what_was_put_in_is_read_back() {
    let root = sample();
    let value = root.first_child().unwrap().last_child().unwrap();
    let replacement = GreenNode::new(SyntaxKind(3), vec![token(14, "2")]);
    let address = replacement.address();
    let changed = SyntaxNode::new_root(value.replace_with(replacement));
    let new_value = changed.first_child().unwrap().last_child().unwrap();
    assert_eq!(new_value.key().address, address);
    assert_eq!(new_value.first_child_or_token().unwrap().to_string(), "2");
}

#[test]
fn what_does_not_lead_to_the_change_is_shared() {
    let root = sample();
    let binding = root.first_child().unwrap();
    let name = binding.first_child().unwrap();
    let value = binding.last_child().unwrap();
    let replacement = GreenNode::new(SyntaxKind(3), vec![token(14, "2345")]);
    let changed = SyntaxNode::new_root(value.replace_with(replacement));
    let new_binding = changed.first_child().unwrap();
    assert_eq!(new_binding.first_child().unwrap().key().address, name.key().address);
    assert_eq!(
        changed.last_child().unwrap().key().address,
        root.last_child().unwrap().key().address
    );
    assert!(new_binding.key().address != binding.key().address);
    assert!(changed.key().address != root.key().address);
    let kinds: Vec<u16> = changed.descendants_with_tokens().iter().map(|it| it.kind().0).collect();
    let old_kinds: Vec<u16> = root.descendants_with_tokens().iter().map(|it| it.kind().0).collect();
    assert_eq!(kinds, old_kinds);
}

#[test]
fn replacing_changes_the_range_and_nothing_else_of_the_text() {
    let root = sample();
    let text = root.to_string();
    for element in root.descendants_with_tokens() {
        let range = element.text_range();
        let green = match &element {
            NodeOrToken::Node(node) => {
                node.replace_with(GreenNode::new(node.kind(), vec![token(12, "new")]))
            }
            NodeOrToken::Token(token) => token.replace_with(GreenToken::new(token.kind(), "new")),
        };
        let expected = format!(
            "{}new{}",
            &text[..range.start().raw as usize],
            &text[range.end().raw as usize..]
        );
        assert_eq!(SyntaxNode::new_root(green).to_string(), expected);
    }
}

#[test]
fn replacing_an_element_by_itself_keeps_the_text() {
    let root = sample();
    for element in root.descendants_with_tokens() {
        let green = match &element {
            NodeOrToken::Node(node) => match node.parent() {
                Some(parent) => {
                    let count = parent.green().child_count();
                    let same = (0..count)
                        .map(|i| parent.green().child(i).cloned())
                        .filter_map(|it| it.as_node().cloned())
                        .find(|it| it.address() == node.key().address)
                        .unwrap();
                    node.replace_with(same)
                }
                None => continue,
            },
            NodeOrToken::Token(token) => token.replace_with(token.green().clone()),
        };
        assert_eq!(SyntaxNode::new_root(green).to_string(), root.to_string());
    }
}

#[test]
fn replacing_one_of_two_shared_nodes() {
    let part = node(2, vec![token(12, "a")]);
    let root = SyntaxNode::new_root(GreenNode::new(SyntaxKind(0), vec![part.clone(), part]));
    let second = root.last_child().unwrap();
    let replacement = GreenNode::new(SyntaxKind(2), vec![token(12, "b")]);
    let changed = SyntaxNode::new_root(second.replace_with(replacement));
    assert_eq!(changed.to_string(), "ab");
}

fn layout(root: &SyntaxNode) -> Vec<(u16, String)> {
    root.descendants_with_tokens().iter().map(|it| (it.kind().0, it.to_string())).collect()
}

#[test]
fn replacing_a_node_by_one_alike_gives_a_tree_alike() {
    let root = sample();
    let value = root.first_child().unwrap().last_child().unwrap();
    let copy = GreenNode::new(SyntaxKind(3), vec![token(14, "1")]);
    assert!(copy.address() != value.key().address);
    let changed = SyntaxNode::new_root(value.replace_with(copy));
    assert!(changed != root);
    assert_eq!(layout(&changed), layout(&root));
}
