use syntax_cursor::{GreenElement, GreenNode, GreenToken, NodeOrToken, SyntaxElement, SyntaxKind};
use syntax_cursor::{SyntaxNode, SyntaxToken, TextRange, TextSize, TokenAtOffset};

fn token(kind: u16, text: &str) -> GreenElement {
    NodeOrToken::Token(GreenToken::new(SyntaxKind(kind), text))
}

fn node(kind: u16, children: Vec<GreenElement>) -> GreenElement {
    NodeOrToken::Node(GreenNode::new(SyntaxKind(kind), children))
}

/// The tree of `let x = 1;` and `f()` on two lines. Kinds below 10 are nodes.
fn sample() -> SyntaxNode {
    let binding = node(
        1,
        vec![
            token(10, "let"),
            token(11, " "),
            node(2, vec![token(12, "x")]),
            token(11, " "),
            token(13, "="),
            token(11, " "),
            node(3, vec![token(14, "1")]),
            token(15, ";"),
        ],
    );
    let call = node(5, vec![token(12, "f"), token(16, "("), token(17, ")")]);
    let root = GreenNode::new(
        SyntaxKind(0),
        vec![binding, token(11, "\n"), node(4, vec![]), call],
    );
    SyntaxNode::new_root(root)
}

fn size(raw: u32) -> TextSize {
    TextSize::from(raw)
}

fn range(start: u32, end: u32) -> TextRange {
    TextRange::new(size(start), size(end))
}

fn at(root: &SyntaxNode, offset: u32) -> Vec<String> {
    match root.token_at_offset(size(offset)) {
        TokenAtOffset::Empty => vec![],
        TokenAtOffset::Single(token) => vec![token.to_string()],
        TokenAtOffset::Between(left, right) => vec![left.to_string(), right.to_string()],
    }
}

fn tokens_below(root: &SyntaxNode) -> Vec<SyntaxToken> {
    root.descendants_with_tokens().iter().filter_map(|it| it.as_token().cloned()).collect()
}

#[test]
fn ranges_of_nodes_and_tokens() {
    let root = sample();
    assert_eq!(root.text_range(), range(0, 14));
    let binding = root.first_child().unwrap();
    assert_eq!(binding.text_range(), range(0, 10));
    let value = binding.last_child().unwrap();
    assert_eq!(value.text_range(), range(8, 9));
    assert_eq!(value.first_token().unwrap().text_range(), range(8, 9));
    assert_eq!(binding.next_sibling().unwrap().text_range(), range(11, 11));
    assert_eq!(root.last_child().unwrap().text_range(), range(11, 14));
    assert_eq!(root.last_token().unwrap().text_range(), range(13, 14));
    assert_eq!(SyntaxElement::from(value.clone()).text_range(), range(8, 9));
}

#[test]
fn ranges_do_not_depend_on_the_way() {
    let root = sample();
    let value = root.first_child().unwrap().last_child().unwrap();
    let back = root.last_child().unwrap().prev_sibling().unwrap().prev_sibling().unwrap();
    assert_eq!(back.text_range(), range(0, 10));
    let semicolon = back.last_child_or_token().unwrap();
    assert_eq!(semicolon.text_range(), range(9, 10));
    let before = semicolon.prev_sibling_or_token().unwrap();
    assert_eq!(before.text_range(), value.text_range());
    assert_eq!(before.as_node().unwrap().prev_sibling().unwrap().text_range(), range(4, 5));
}

#[test]
fn children_fill_their_parent() {
    for parent in sample().descendants() {
        let mut end = parent.text_range().start();
        let mut children = parent.children_with_tokens();
        while let Some(child) = children.next() {
            assert_eq!(child.text_range().start(), end);
            end = child.text_range().end();
        }
        assert_eq!(end, parent.text_range().end());
    }
}

#[test]
fn text_of_nodes_and_tokens() {
    let root = sample();
    assert_eq!(root.to_string(), "let x = 1;\nf()");
    assert_eq!(root.text().to_string(), "let x = 1;\nf()");
    assert_eq!(root.text().len(), size(14));
    let binding = root.first_child().unwrap();
    assert_eq!(binding.to_string(), "let x = 1;");
    assert_eq!(binding.next_sibling().unwrap().to_string(), "");
    assert_eq!(binding.next_sibling().unwrap().text().len(), size(0));
    assert_eq!(binding.first_token().unwrap().to_string(), "let");
    assert_eq!(SyntaxElement::from(binding.clone()).to_string(), "let x = 1;");
    assert_eq!(SyntaxElement::from(binding.last_token().unwrap()).to_string(), ";");
}

#[test]
fn a_range_gives_the_text() {
    let root = sample();
    let text = root.to_string();
    for element in root.descendants_with_tokens() {
        let range = element.text_range();
        assert_eq!(
            &text[range.start().raw as usize..range.end().raw as usize],
            element.to_string()
        );
    }
}

#[test]
fn text_is_measured_in_bytes() {
    let root = SyntaxNode::new_root(GreenNode::new(
        SyntaxKind(0),
        vec![token(12, "\u{e4}\u{20ac}"), node(2, vec![token(12, "\u{1f600}")]), token(12, "z")],
    ));
    assert_eq!(root.text_range(), range(0, 10));
    assert_eq!(root.text().len(), size(10));
    assert_eq!(root.first_child().unwrap().text_range(), range(5, 9));
    assert_eq!(root.last_token().unwrap().text_range(), range(9, 10));
    assert_eq!(root.to_string(), "\u{e4}\u{20ac}\u{1f600}z");
    assert_eq!(at(&root, 7), ["\u{1f600}"]);
}

#[test]
fn one_token_inside_two_at_a_border() {
    let root = sample();
    assert_eq!(at(&root, 0), ["let"]);
    assert_eq!(at(&root, 2), ["let"]);
    assert_eq!(at(&root, 3), ["let", " "]);
    assert_eq!(at(&root, 4), [" ", "x"]);
    assert_eq!(at(&root, 9), ["1", ";"]);
    assert_eq!(at(&root, 10), [";", "\n"]);
    assert_eq!(at(&root, 14), [")"]);
}

#[test]
fn an_empty_node_at_an_offset_is_passed_over() {
    assert_eq!(at(&sample(), 11), ["\n", "f"]);
}

#[test]
fn empty_tokens_at_an_offset_are_passed_over() {
    let root = SyntaxNode::new_root(GreenNode::new(
        SyntaxKind(0),
        vec![token(1, ""), token(2, "a"), token(3, ""), node(4, vec![token(5, "")]), token(6, "b")],
    ));
    assert_eq!(at(&root, 0), ["a"]);
    assert_eq!(at(&root, 1), ["a", "b"]);
    assert_eq!(at(&root, 2), ["b"]);
}

#[test]
fn no_token_at_an_offset_of_an_empty_text() {
    let empty = sample().first_child().unwrap().next_sibling().unwrap();
    assert!(matches!(empty.token_at_offset(size(11)), TokenAtOffset::Empty));
    let root = SyntaxNode::new_root(GreenNode::new(SyntaxKind(0), vec![token(1, "")]));
    assert!(matches!(root.token_at_offset(size(0)), TokenAtOffset::Empty));
}

#[test]
fn tokens_at_an_offset_of_an_inner_node() {
    let call = sample().last_child().unwrap();
    assert_eq!(at(&call, 11), ["f"]);
    assert_eq!(at(&call, 12), ["f", "("]);
    assert_eq!(at(&call, 14), [")"]);
}

#[test]
fn tokens_at_each_offset_are_all_that_touch_it() {
    let root = sample();
    let tokens = tokens_below(&root);
    for offset in 0..=14u32 {
        let touching: Vec<String> = tokens
            .iter()
            .filter(|it| {
                let range = it.text_range();
                !range.is_empty() && range.start().raw <= offset && offset <= range.end().raw
            })
            .map(|it| it.to_string())
            .collect();
        assert_eq!(at(&root, offset), touching);
    }
}

#[test]
fn covering_element_of_a_range() {
    let root = sample();
    assert_eq!(root.covering_element(range(0, 14)).kind(), SyntaxKind(0));
    assert_eq!(root.covering_element(range(0, 10)).kind(), SyntaxKind(1));
    assert_eq!(root.covering_element(range(0, 11)).kind(), SyntaxKind(0));
    assert_eq!(root.covering_element(range(1, 2)).kind(), SyntaxKind(10));
    assert_eq!(root.covering_element(range(4, 5)).kind(), SyntaxKind(12));
    assert_eq!(root.covering_element(range(4, 6)).kind(), SyntaxKind(1));
    assert_eq!(root.covering_element(range(12, 14)).kind(), SyntaxKind(5));
}

#[test]
fn covering_element_of_an_empty_range() {
    let root = sample();
    assert_eq!(root.covering_element(range(2, 2)).kind(), SyntaxKind(10));
    // At a border the element that ends there is taken.
    assert_eq!(root.covering_element(range(3, 3)).kind(), SyntaxKind(10));
    assert_eq!(root.covering_element(range(5, 5)).kind(), SyntaxKind(12));
    assert_eq!(root.covering_element(range(0, 0)).kind(), SyntaxKind(10));
    assert_eq!(root.covering_element(range(14, 14)).kind(), SyntaxKind(17));
    // An empty node ends where it starts.
    assert_eq!(root.covering_element(range(11, 11)).kind(), SyntaxKind(4));
}

#[test]
fn covering_element_holds_the_range_and_no_child_does() {
    let root = sample();
    for start in 0..=14u32 {
        for end in start..=14u32 {
            let element = root.covering_element(range(start, end));
            assert!(element.text_range().contains_range(range(start, end)));
            if let NodeOrToken::Node(node) = &element {
                let mut children = node.children_with_tokens();
                while let Some(child) = children.next() {
                    assert!(!child.text_range().contains_range(range(start, end)));
                }
            }
            if start < end {
                for other in root.descendants_with_tokens() {
                    if other.text_range().contains_range(range(start, end)) {
                        assert!(other.text_range().contains_range(element.text_range()));
                    }
                }
            }
        }
    }
}

#[test]
fn child_at_a_range() {
    let root = sample();
    assert_eq!(root.child_or_token_at_range(range(3, 5)).unwrap().kind(), SyntaxKind(1));
    assert_eq!(root.child_or_token_at_range(range(10, 11)).unwrap().kind(), SyntaxKind(11));
    assert!(root.child_or_token_at_range(range(9, 11)).is_none());
    assert!(root.child_or_token_at_range(range(12, 20)).is_none());
    assert!(root.child_or_token_at_range(range(20, 20)).is_none());
    assert_eq!(root.child_or_token_at_range(range(14, 14)).unwrap().kind(), SyntaxKind(5));
    let call = root.last_child().unwrap();
    let found = call.child_or_token_at_range(range(12, 13)).unwrap();
    assert_eq!(found.kind(), SyntaxKind(16));
    assert_eq!(found.text_range(), range(12, 13));
    assert!(found.parent().unwrap() == call);
}

#[test]
fn arithmetic_of_ranges() {
    let r = TextRange::at(size(3), size(4));
    assert_eq!(r, range(3, 7));
    assert_eq!(r.len(), size(4));
    assert!(!r.is_empty());
    assert!(range(5, 5).is_empty());
    assert!(r.contains_range(range(3, 7)));
    assert!(r.contains_range(range(7, 7)));
    assert!(!r.contains_range(range(2, 4)));
    assert!(!r.contains_range(range(6, 8)));
    assert_eq!(r.relative_to(size(2)), range(1, 5));
}
