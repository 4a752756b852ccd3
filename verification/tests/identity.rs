use std::collections::hash_map::DefaultHasher;
use std::collections::HashSet;
use std::hash::{Hash, Hasher};

use syntax_cursor::{GreenElement, GreenNode, GreenToken, NodeOrToken, SyntaxElement, SyntaxKind};
use syntax_cursor::{SyntaxNode, SyntaxToken};

fn token(kind: u16, text: &str) -> GreenElement {
    NodeOrToken::Token(GreenToken::new(SyntaxKind(kind), text))
}

fn node(kind: u16, children: Vec<GreenElement>) -> GreenElement {
    NodeOrToken::Node(GreenNode::new(SyntaxKind(kind), children))
}

/// The tree of `let x = 1;` and `f()` on two lines. Kinds below 10 are nodes.
fn sample() -> SyntaxNode {
    let binding = node(
        1,
        vec![
            token(10, "let"),
            token(11, " "),
            node(2, vec![token(12, "x")]),
            token(11, " "),
            token(13, "="),
            token(11, " "),
            node(3, vec![token(14, "1")]),
            token(15, ";"),
        ],
    );
    let call = node(5, vec![token(12, "f"), token(16, "("), token(17, ")")]);
    let root = GreenNode::new(
        SyntaxKind(0),
        vec![binding, token(11, "\n"), node(4, vec![]), call],
    );
    SyntaxNode::new_root(root)
}

fn hash_of<T: Hash>(value: &T) -> u64 {
    let mut hasher = DefaultHasher::new();
    value.hash(&mut hasher);
    hasher.finish()
}

#[test]
fn a_node_reached_twice_is_equal_to_itself() {
    let root = sample();
    let a = root.first_child().unwrap();
    let b = root.last_child().unwrap().prev_sibling().unwrap().prev_sibling().unwrap();
    assert!(a == b);
    assert_eq!(hash_of(&a), hash_of(&b));
    assert_eq!(a.key(), b.key());
    let s = a.first_token().unwrap();
    let t = b.first_token().unwrap();
    assert!(s == t);
    assert_eq!(hash_of(&s), hash_of(&t));
}

#[test]
fn equality_is_an_equivalence() {
    let root = sample();
    let nodes = root.descendants();
    for a in &nodes {
        for b in &nodes {
            assert_eq!(a == b, b == a);
            for c in &nodes {
                assert!(!(a == b && b == c) || a == c);
            }
        }
    }
    let tokens: Vec<SyntaxToken> =
        root.descendants_with_tokens().iter().filter_map(|it| it.as_token().cloned()).collect();
    for a in &tokens {
        for b in &tokens {
            assert_eq!(a == b, b == a);
            for c in &tokens {
                assert!(!(a == b && b == c) || a == c);
            }
        }
    }
    assert!(nodes.iter().all(|it| it == &it.clone()));
    assert!(tokens.iter().all(|it| it == &it.clone()));
}

#[test]
fn different_nodes_are_not_equal() {
    let root = sample();
    let binding = root.first_child().unwrap();
    // Both start at the same offset.
    assert!(root != binding);
    let s = binding.first_token().unwrap();
    let t = s.next_token().unwrap();
    assert!(s != t);
}

#[test]
fn trees_that_are_merely_alike_are_not_equal() {
    let a = sample();
    let b = sample();
    assert!(a != b);
    assert!(a.first_child().unwrap() != b.first_child().unwrap());
    assert!(a.first_token().unwrap() != b.first_token().unwrap());
}

#[test]
fn roots_of_one_green_node_are_equal() {
    let green = GreenNode::new(SyntaxKind(0), vec![node(2, vec![token(12, "a")])]);
    let a = SyntaxNode::new_root(green.clone());
    let b = SyntaxNode::new_root(green.clone());
    assert!(a == b);
    assert!(a.first_child().unwrap() == b.first_child().unwrap());
    assert!(a.first_token().unwrap() == b.first_token().unwrap());
    assert_eq!(a.key().address, green.address());
    assert_eq!(a.key().offset.raw, 0);
}

#[test]
fn a_shared_green_node_at_two_offsets_gives_two_nodes() {
    let part = node(2, vec![token(12, "a")]);
    let root = SyntaxNode::new_root(GreenNode::new(SyntaxKind(0), vec![part.clone(), part]));
    let a = root.first_child().unwrap();
    let b = root.last_child().unwrap();
    assert!(a != b);
    assert_eq!(a.key().address, b.key().address);
    assert_eq!(a.key().offset.raw, 0);
    assert_eq!(b.key().offset.raw, 1);
}

#[test]
fn equal_nodes_start_at_one_offset() {
    let nodes = sample().descendants();
    for a in &nodes {
        for b in &nodes {
            if a == b {
                assert_eq!(a.text_range().start(), b.text_range().start());
            }
        }
    }
}

#[test]
fn tokens_are_told_apart_by_their_index() {
    let root = SyntaxNode::new_root(GreenNode::new(
        SyntaxKind(0),
        vec![token(1, ""), token(1, ""), token(1, "a")],
    ));
    let first = root.first_token().unwrap();
    let second = first.next_token().unwrap();
    let third = second.next_token().unwrap();
    assert_eq!(first.text_range(), second.text_range());
    assert!(first != second);
    assert!(second != third);
    assert!(first == second.prev_token().unwrap());
}

#[test]
fn nodes_and_tokens_as_keys() {
    let root = sample();
    let mut nodes: HashSet<SyntaxNode> = HashSet::new();
    let mut tokens: HashSet<SyntaxToken> = HashSet::new();
    let mut elements: HashSet<SyntaxElement> = HashSet::new();
    for _ in 0..2 {
        for element in root.descendants_with_tokens() {
            match &element {
                NodeOrToken::Node(node) => {
                    nodes.insert(node.clone());
                }
                NodeOrToken::Token(token) => {
                    tokens.insert(token.clone());
                }
            }
            elements.insert(element);
        }
    }
    assert_eq!(nodes.len(), 6);
    assert_eq!(tokens.len(), 12);
    assert_eq!(elements.len(), 18);
}

#[test]
fn elements_are_compared_by_what_they_hold() {
    let root = sample();
    let name = root.first_child().unwrap().first_child().unwrap();
    let as_node = SyntaxElement::from(name.clone());
    let as_token = SyntaxElement::from(name.first_token().unwrap());
    assert!(as_node == SyntaxElement::from(name.clone()));
    assert!(as_token == SyntaxElement::from(name.first_token().unwrap()));
    assert!(as_node != as_token);
    assert!(as_token != as_node);
}
