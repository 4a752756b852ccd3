use syntax_cursor::{GreenElement, GreenNode, GreenToken, NodeOrToken, Preorder, SyntaxElement};
use syntax_cursor::{SyntaxKind, SyntaxNode, WalkEvent};

fn token(kind: u16, text: &str) -> GreenElement {
    NodeOrToken::Token(GreenToken::new(SyntaxKind(kind), text))
}

fn node(kind: u16, children: Vec<GreenElement>) -> GreenElement {
    NodeOrToken::Node(GreenNode::new(SyntaxKind(kind), children))
}

/// The tree of `let x = 1;` and `f()` on two lines. Kinds below 10 are nodes.
fn sample() -> SyntaxNode {
    let binding = node(
        1,
        vec![
            token(10, "let"),
            token(11, " "),
            node(2, vec![token(12, "x")]),
            token(11, " "),
            token(13, "="),
            token(11, " "),
            node(3, vec![token(14, "1")]),
            token(15, ";"),
        ],
    );
    let call = node(5, vec![token(12, "f"), token(16, "("), token(17, ")")]);
    let root = GreenNode::new(
        SyntaxKind(0),
        vec![binding, token(11, "\n"), node(4, vec![]), call],
    );
    SyntaxNode::new_root(root)
}

fn event_of_node(event: WalkEvent<SyntaxNode>) -> (bool, u16) {
    match event {
        WalkEvent::Enter(node) => (true, node.kind().0),
        WalkEvent::Leave(node) => (false, node.kind().0),
    }
}

fn node_walk(mut walk: Preorder) -> Vec<(bool, u16)> {
    let mut events = Vec::new();
    while let Some(event) = walk.next() {
        events.push(event_of_node(event));
    }
    events
}

fn element_walk(root: &SyntaxNode) -> Vec<WalkEvent<SyntaxElement>> {
    let mut walk = root.preorder_with_tokens();
    let mut events = Vec::new();
    while let Some(event) = walk.next() {
        events.push(event);
    }
    assert!(walk.next().is_none());
    events
}

#[test]
fn preorder_enters_and_leaves_each_node() {
    let events = node_walk(sample().preorder());
    assert_eq!(
        events,
        [
            (true, 0),
            (true, 1),
            (true, 2),
            (false, 2),
            (true, 3),
            (false, 3),
            (false, 1),
            (true, 4),
            (false, 4),
            (true, 5),
            (false, 5),
            (false, 0),
        ]
    );
}

#[test]
fn preorder_of_an_inner_node_stays_in_it() {
    let binding = sample().first_child().unwrap();
    let events = node_walk(binding.preorder());
    assert_eq!(events, [(true, 1), (true, 2), (false, 2), (true, 3), (false, 3), (false, 1)]);
}

#[test]
fn preorder_ends_for_good() {
    let mut walk = sample().last_child().unwrap().preorder();
    assert_eq!(event_of_node(walk.next().unwrap()), (true, 5));
    assert_eq!(event_of_node(walk.next().unwrap()), (false, 5));
    assert!(walk.is_able_to_advance());
    assert!(walk.next().is_none());
    walk.skip_subtree();
    assert!(walk.is_able_to_advance());
    assert!(walk.next().is_none());
}

#[test]
fn skipping_an_entered_node_leaves_it_at_once() {
    let mut walk = sample().preorder();
    assert_eq!(event_of_node(walk.next().unwrap()), (true, 0));
    assert_eq!(event_of_node(walk.next().unwrap()), (true, 1));
    walk.skip_subtree();
    assert!(walk.is_able_to_advance());
    assert_eq!(event_of_node(walk.next().unwrap()), (false, 1));
    assert_eq!(event_of_node(walk.next().unwrap()), (true, 4));
}

#[test]
fn skipping_a_node_without_child_nodes_changes_nothing() {
    let mut walk = sample().first_child().unwrap().preorder();
    walk.next();
    assert_eq!(event_of_node(walk.next().unwrap()), (true, 2));
    walk.skip_subtree();
    assert_eq!(event_of_node(walk.next().unwrap()), (false, 2));
    assert_eq!(event_of_node(walk.next().unwrap()), (true, 3));
}

#[test]
fn skipping_after_a_node_was_left_leaves_its_parent() {
    let mut walk = sample().first_child().unwrap().preorder();
    walk.next();
    walk.next();
    assert_eq!(event_of_node(walk.next().unwrap()), (false, 2));
    walk.skip_subtree();
    assert_eq!(event_of_node(walk.next().unwrap()), (false, 1));
    assert!(walk.next().is_none());
}

#[test]
fn skipping_twice_is_skipping_once() {
    let mut walk = sample().preorder();
    walk.next();
    walk.skip_subtree();
    walk.skip_subtree();
    assert_eq!(event_of_node(walk.next().unwrap()), (false, 0));
    assert!(walk.next().is_none());
}

#[test]
fn skipping_before_the_first_event_leads_out_of_the_node() {
    let name = sample().first_child().unwrap().first_child().unwrap();
    let mut walk = name.preorder();
    walk.skip_subtree();
    assert!(walk.is_able_to_advance());
    assert_eq!(event_of_node(walk.next().unwrap()), (false, 1));
    assert_eq!(event_of_node(walk.next().unwrap()), (true, 4));
    assert_eq!(event_of_node(walk.next().unwrap()), (false, 4));
    assert_eq!(event_of_node(walk.next().unwrap()), (true, 5));
    assert_eq!(event_of_node(walk.next().unwrap()), (false, 5));
    // What is left is to go up from the root.
    assert!(!walk.is_able_to_advance());
}

#[test]
fn a_walk_of_the_root_cannot_skip_the_root() {
    let mut walk = sample().preorder();
    walk.skip_subtree();
    assert!(!walk.is_able_to_advance());
}

#[test]
fn a_walk_that_was_led_out_ends_at_an_equal_node() {
    let empty = node(4, vec![]);
    let holder = node(1, vec![empty.clone()]);
    let root = SyntaxNode::new_root(GreenNode::new(SyntaxKind(0), vec![holder, empty]));
    let first = root.first_child().unwrap().first_child().unwrap();
    let second = root.last_child().unwrap();
    assert!(first == second);
    let mut walk = first.preorder();
    walk.skip_subtree();
    assert_eq!(event_of_node(walk.next().unwrap()), (false, 1));
    assert_eq!(event_of_node(walk.next().unwrap()), (true, 4));
    assert_eq!(event_of_node(walk.next().unwrap()), (false, 4));
    assert!(walk.next().is_none());
}

#[test]
fn preorder_with_tokens_enters_and_leaves_each_element() {
    let call = sample().last_child().unwrap();
    let events: Vec<(bool, u16)> = element_walk(&call)
        .iter()
        .map(|event| match event {
            WalkEvent::Enter(it) => (true, it.kind().0),
            WalkEvent::Leave(it) => (false, it.kind().0),
        })
        .collect();
    assert_eq!(
        events,
        [
            (true, 5),
            (true, 12),
            (false, 12),
            (true, 16),
            (false, 16),
            (true, 17),
            (false, 17),
            (false, 5),
        ]
    );
}

#[test]
fn descendants_in_order() {
    let root = sample();
    let kinds: Vec<u16> = root.descendants().iter().map(|it| it.kind().0).collect();
    assert_eq!(kinds, [0, 1, 2, 3, 4, 5]);
    let kinds: Vec<u16> = root.descendants_with_tokens().iter().map(|it| it.kind().0).collect();
    assert_eq!(kinds, [0, 1, 10, 11, 2, 12, 11, 13, 11, 3, 14, 15, 11, 4, 5, 12, 16, 17]);
}

#[test]
fn descendants_are_what_the_walks_enter() {
    let root = sample();
    let mut walk = root.preorder();
    let mut entered = Vec::new();
    while let Some(event) = walk.next() {
        if let WalkEvent::Enter(node) = event {
            entered.push(node);
        }
    }
    assert!(entered == root.descendants());
    let mut entered = Vec::new();
    for event in element_walk(&root) {
        if let WalkEvent::Enter(element) = event {
            entered.push(element);
        }
    }
    assert!(entered == root.descendants_with_tokens());
}

#[test]
fn each_descendant_is_entered_and_left() {
    let root = sample();
    assert_eq!(node_walk(root.preorder()).len(), 2 * root.descendants().len());
    assert_eq!(element_walk(&root).len(), 2 * root.descendants_with_tokens().len());
}

#[test]
fn each_descendant_is_visited_once() {
    let root = sample();
    let all = root.descendants_with_tokens();
    for (i, a) in all.iter().enumerate() {
        for b in &all[i + 1..] {
            assert!(a != b);
        }
    }
}

#[test]
fn descendants_are_the_nodes_among_all() {
    let root = sample();
    let all = root.descendants_with_tokens();
    let nodes: Vec<SyntaxNode> = all.iter().filter_map(|it| it.as_node().cloned()).collect();
    assert!(nodes == root.descendants());
    let texts: Vec<&str> = all.iter().filter_map(|it| it.as_token()).map(|it| it.text()).collect();
    assert_eq!(texts.concat(), root.to_string());
}

#[test]
fn a_shared_green_node_is_walked_each_time() {
    let part = node(2, vec![token(12, "a")]);
    let root = SyntaxNode::new_root(GreenNode::new(SyntaxKind(0), vec![part.clone(), part]));
    assert_eq!(root.to_string(), "aa");
    assert_eq!(root.descendants().len(), 3);
    let events = node_walk(root.preorder());
    assert_eq!(events, [(true, 0), (true, 2), (false, 2), (true, 2), (false, 2), (false, 0)]);
}

#[test]
fn empty_nodes_at_one_offset_are_walked_one_after_the_other() {
    let empty = node(4, vec![]);
    let root = SyntaxNode::new_root(GreenNode::new(SyntaxKind(0), vec![empty.clone(), empty]));
    let events = node_walk(root.preorder());
    assert_eq!(events, [(true, 0), (true, 4), (false, 4), (true, 4), (false, 4), (false, 0)]);
    let first = root.first_child().unwrap();
    assert_eq!(node_walk(first.preorder()), [(true, 4), (false, 4)]);
}

#[test]
fn events_without_tokens_are_those_of_the_node_walk() {
    let root = sample();
    let mut walk = root.preorder();
    for event in element_walk(&root) {
        match event {
            WalkEvent::Enter(NodeOrToken::Node(node)) => {
                assert!(matches!(walk.next(), Some(WalkEvent::Enter(it)) if it == node));
            }
            WalkEvent::Leave(NodeOrToken::Node(node)) => {
                assert!(matches!(walk.next(), Some(WalkEvent::Leave(it)) if it == node));
            }
            _ => {}
        }
    }
    assert!(walk.next().is_none());
}

#[test]
fn tokens_tile_the_range_of_each_node() {
    for top in sample().descendants() {
        let mut end = top.text_range().start();
        for element in top.descendants_with_tokens() {
            if let NodeOrToken::Token(token) = element {
                assert_eq!(token.text_range().start(), end);
                end = token.text_range().end();
            }
        }
        assert_eq!(end, top.text_range().end());
    }
}

#[test]
fn no_element_comes_before_its_parent() {
    let all = sample().descendants_with_tokens();
    for (i, element) in all.iter().enumerate() {
        if let Some(parent) = element.parent() {
            let at = all.iter().position(|it| it.as_node() == Some(&parent)).unwrap();
            assert!(at < i);
        }
    }
}
