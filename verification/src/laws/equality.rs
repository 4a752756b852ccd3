//! Laws of equality.

use vstd::prelude::*;
use vstd::std_specs::cmp::PartialEqSpec;

use crate::cursor::{NodeKey, SyntaxElement, SyntaxNode, SyntaxToken};
use crate::place::Place;
use crate::utility_types::NodeOrToken;

verus! {

/// Nodes that stand at one place are equal, and so are tokens.
pub proof fn law_same_place_is_equal(a: SyntaxNode, b: SyntaxNode, s: SyntaxToken, t: SyntaxToken)
    requires
        a.wf(),
        b.wf(),
        s.wf(),
        t.wf(),
    ensures
        a@ == b@ ==> a.eq_spec(&b),
        s@ == t@ ==> s.eq_spec(&t),
{
    a.lemma_identity();
    b.lemma_identity();
    s.lemma_identity();
    t.lemma_identity();
}

/// To be equal is an equivalence of nodes.
pub proof fn law_equality(a: SyntaxNode, b: SyntaxNode, c: SyntaxNode)
    ensures
        a.eq_spec(&a),
        a.eq_spec(&b) == b.eq_spec(&a),
        a.eq_spec(&b) && b.eq_spec(&c) ==> a.eq_spec(&c),
{
}

/// To be equal is an equivalence of tokens too.
pub proof fn law_token_equality(a: SyntaxToken, b: SyntaxToken, c: SyntaxToken)
    ensures
        a.eq_spec(&a),
        a.eq_spec(&b) == b.eq_spec(&a),
        a.eq_spec(&b) && b.eq_spec(&c) ==> a.eq_spec(&c),
{
}

/// Equal nodes start at the same offset.
pub proof fn law_equal_nodes_start_together(a: SyntaxNode, b: SyntaxNode)
    requires
        a.wf(),
        b.wf(),
        a.eq_spec(&b),
    ensures
        a@.start() == b@.start(),
        a@.node().spec_address() == b@.node().spec_address(),
{
    a.lemma_identity();
    b.lemma_identity();
}

/// Equal tokens have the same index and start at the same offset, and their parents are of one
/// green node and start at the same offset too.
pub proof fn law_equal_tokens_stand_together(a: SyntaxToken, b: SyntaxToken)
    requires
        a.wf(),
        b.wf(),
        a.eq_spec(&b),
    ensures
        a@.index() == b@.index(),
        a@.start() == b@.start(),
        a@.parent().start() == b@.parent().start(),
        a@.parent().node().spec_address() == b@.parent().node().spec_address(),
{
    a.lemma_identity();
    b.lemma_identity();
}

/// Two nodes are found equal if and only if they are of one green node and start at one offset.
pub proof fn law_comparing_nodes(a: SyntaxNode, b: SyntaxNode, equal: bool)
    requires
        a.wf(),
        b.wf(),
        call_ensures(<SyntaxNode as PartialEq>::eq, (&a, &b), equal),
    ensures
        equal <==> a@.node().spec_address() == b@.node().spec_address() && a@.start()
            == b@.start(),
{
    a.lemma_identity();
    b.lemma_identity();
}

/// The tokens stand at one index of parents that are equal, and start at one offset.
pub open spec fn same_token(a: Place, b: Place) -> bool {
    let p = Place { root: a.root, path: a.path.drop_last() };
    let q = Place { root: b.root, path: b.path.drop_last() };
    &&& p.node().spec_address() == q.node().spec_address()
    &&& p.start() == q.start()
    &&& a.path.last() == b.path.last()
    &&& a.start() == b.start()
}

/// Two tokens are found equal if and only if their parents are equal and they have the same index
/// and start at the same offset.
pub proof fn law_comparing_tokens(a: SyntaxToken, b: SyntaxToken, equal: bool)
    requires
        a.wf(),
        b.wf(),
        call_ensures(<SyntaxToken as PartialEq>::eq, (&a, &b), equal),
    ensures
        equal <==> same_token(a@, b@),
{
    a.lemma_identity();
    b.lemma_identity();
}

/// Two elements are found equal if and only if both are nodes or both are tokens, and these are
/// equal.
pub proof fn law_comparing_elements(a: SyntaxElement, b: SyntaxElement, equal: bool)
    requires
        a.wf(),
        b.wf(),
        call_ensures(<SyntaxElement as PartialEq>::eq, (&a, &b), equal),
    ensures
        equal <==> match (a, b) {
            (NodeOrToken::Node(m), NodeOrToken::Node(n)) => m@.node().spec_address()
                == n@.node().spec_address() && m@.start() == n@.start(),
            (NodeOrToken::Token(s), NodeOrToken::Token(t)) => same_token(s@, t@),
            _ => false,
        },
{
    match (a, b) {
        (NodeOrToken::Node(m), NodeOrToken::Node(n)) => {
            m.lemma_identity();
            n.lemma_identity();
        },
        (NodeOrToken::Token(s), NodeOrToken::Token(t)) => {
            s.lemma_identity();
            t.lemma_identity();
        },
        _ => {},
    }
}

/// The key of a node is the address of its green node and its offset.
pub proof fn law_key(node: SyntaxNode, key: NodeKey)
    requires
        node.wf(),
        call_ensures(SyntaxNode::key, (&node,), key),
    ensures
        key.address == node@.node().spec_address(),
        key.offset.raw == node@.start(),
{
    node.lemma_identity();
}

/// A clone stands where the original does, in the same tree, and is equal to it.
pub proof fn law_clones(
    node: SyntaxNode,
    token: SyntaxToken,
    node_copy: SyntaxNode,
    token_copy: SyntaxToken,
)
    requires
        node.wf(),
        token.wf(),
        call_ensures(<SyntaxNode as Clone>::clone, (&node,), node_copy),
        call_ensures(<SyntaxToken as Clone>::clone, (&token,), token_copy),
    ensures
        node_copy.wf(),
        node_copy@ == node@,
        node_copy.eq_spec(&node),
        token_copy.wf(),
        token_copy@ == token@,
        token_copy.eq_spec(&token),
{
}

/// A node or a token is turned into the element that it is.
pub proof fn law_conversions(
    node: SyntaxNode,
    token: SyntaxToken,
    from_node: SyntaxElement,
    from_token: SyntaxElement,
)
    requires
        call_ensures(<SyntaxElement as From<SyntaxNode>>::from, (node,), from_node),
        call_ensures(<SyntaxElement as From<SyntaxToken>>::from, (token,), from_token),
    ensures
        from_node is Node,
        from_node->Node_0 == node,
        from_node@ == node@,
        from_token is Token,
        from_token->Token_0 == token,
        from_token@ == token@,
{
}

} // verus!
