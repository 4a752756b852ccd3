//! Small types that both layers of the tree share.

use vstd::prelude::*;
use vstd::std_specs::cmp::PartialEqSpec;
use vstd::std_specs::cmp::PartialEqSpecImpl;

verus! {

/// A tree is made of nodes, which have children, and of tokens, which have text.
#[derive(Debug, Clone, Hash)]
pub enum NodeOrToken<N, T> {
    Node(N),
    Token(T),
}

impl<N, T> NodeOrToken<N, T> {
    /// The node, if it is one.
    pub fn as_node(&self) -> (node: Option<&N>)
        ensures
            node == (match *self {
                NodeOrToken::Node(n) => Some(&n),
                NodeOrToken::Token(_) => None,
            }),
    {
        match self {
            NodeOrToken::Node(node) => Some(node),
            NodeOrToken::Token(_) => None,
        }
    }

    /// The token, if it is one.
    pub fn as_token(&self) -> (token: Option<&T>)
        ensures
            token == (match *self {
                NodeOrToken::Node(_) => None,
                NodeOrToken::Token(t) => Some(&t),
            }),
    {
        match self {
            NodeOrToken::Node(_) => None,
            NodeOrToken::Token(token) => Some(token),
        }
    }
}

impl<N: PartialEq, T: PartialEq> PartialEq for NodeOrToken<N, T> {
    fn eq(&self, other: &NodeOrToken<N, T>) -> (equal: bool) {
        match (self, other) {
            (NodeOrToken::Node(a), NodeOrToken::Node(b)) => a == b,
            (NodeOrToken::Token(a), NodeOrToken::Token(b)) => a == b,
            _ => false,
        }
    }
}

impl<N: PartialEq, T: PartialEq> PartialEqSpecImpl for NodeOrToken<N, T> {
    open spec fn obeys_eq_spec() -> bool {
        N::obeys_eq_spec() && T::obeys_eq_spec()
    }

    open spec fn eq_spec(&self, other: &NodeOrToken<N, T>) -> bool {
        match (self, other) {
            (NodeOrToken::Node(a), NodeOrToken::Node(b)) => a.eq_spec(b),
            (NodeOrToken::Token(a), NodeOrToken::Token(b)) => a.eq_spec(b),
            _ => false,
        }
    }
}

impl<N: Eq, T: Eq> Eq for NodeOrToken<N, T> {

}

/// The way in which siblings are visited.
#[derive(Debug, Clone, Copy, PartialEq, Eq, Structural, Hash)]
pub enum Direction {
    Next,
    Prev,
}

/// A step of a depth-first walk: each item is entered before and left after what it holds.
#[derive(Debug, Clone)]
pub enum WalkEvent<T> {
    Enter(T),
    Leave(T),
}

impl<T: View> View for WalkEvent<T> {
    type V = WalkEvent<T::V>;

    open spec fn view(&self) -> WalkEvent<T::V> {
        match self {
            WalkEvent::Enter(item) => WalkEvent::Enter(item@),
            WalkEvent::Leave(item) => WalkEvent::Leave(item@),
        }
    }
}

/// The tokens at an offset: none in an empty text, one within a token or at an end of the text,
/// two where one token ends and the next one starts.
#[derive(Debug, Clone)]
pub enum TokenAtOffset<T> {
    Empty,
    Single(T),
    Between(T, T),
}

impl<T: View> View for TokenAtOffset<T> {
    type V = TokenAtOffset<T::V>;

    open spec fn view(&self) -> TokenAtOffset<T::V> {
        match self {
            TokenAtOffset::Empty => TokenAtOffset::Empty,
            TokenAtOffset::Single(token) => TokenAtOffset::Single(token@),
            TokenAtOffset::Between(left, right) => TokenAtOffset::Between(left@, right@),
        }
    }
}

} // verus!
