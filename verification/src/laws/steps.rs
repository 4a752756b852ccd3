//! Laws of the functions that go from one node or token to another.
//!
//! Each takes a call that has returned: what it was given, and what came back.

use vstd::prelude::*;

use crate::cursor::{SyntaxElement, SyntaxNode, SyntaxToken};
use crate::green::GreenNode;
use crate::place::{lemma_node_before, lemma_node_from, Place};

verus! {

/// The root of a tree is the node with the empty path.
pub proof fn law_new_root(green: GreenNode, root: SyntaxNode)
    requires
        green.wf(),
        call_ensures(SyntaxNode::new_root, (green,), root),
    ensures
        root.wf(),
        root@.root == green,
        root@.path.len() == 0,
{
}

/// A node has a parent if its path is not empty. The path of the parent is one step shorter.
pub proof fn law_parent_of_node(node: SyntaxNode, found: Option<SyntaxNode>)
    requires
        node.wf(),
        call_ensures(SyntaxNode::parent, (&node,), found),
    ensures
        match found {
            Some(parent) => {
                &&& parent.wf()
                &&& parent@.root == node@.root
                &&& node@.path == parent@.path.push(node@.path.last())
                &&& 0 <= node@.path.last() < parent@.children().len()
            },
            None => node@.path.len() == 0,
        },
{
    node@.lemma_bounds();
    if node@.path.len() > 0 {
        node@.lemma_parent();
    }
}

/// The path of the parent of a token is one step shorter.
pub proof fn law_parent_of_token(token: SyntaxToken, parent: SyntaxNode)
    requires
        token.wf(),
        call_ensures(SyntaxToken::parent, (&token,), parent),
    ensures
        parent.wf(),
        parent@.root == token@.root,
        token@.path == parent@.path.push(token@.path.last()),
        0 <= token@.path.last() < parent@.children().len(),
{
    token@.lemma_bounds();
    token@.lemma_parent();
}

/// The parent of an element is the parent of what it is.
pub proof fn law_parent_of_element(element: SyntaxElement, found: Option<SyntaxNode>)
    requires
        element.wf(),
        call_ensures(SyntaxElement::parent, (&element,), found),
    ensures
        match found {
            Some(parent) => {
                &&& parent.wf()
                &&& parent@.root == element@.root
                &&& element@.path == parent@.path.push(element@.path.last())
                &&& 0 <= element@.path.last() < parent@.children().len()
            },
            None => element@.path.len() == 0,
        },
{
    element@.lemma_bounds();
    if element@.path.len() > 0 {
        element@.lemma_parent();
    }
}

/// There is a first child if one of the children is a node. It is a child with no node before it.
pub proof fn law_first_child(node: SyntaxNode, found: Option<SyntaxNode>)
    requires
        node.wf(),
        call_ensures(SyntaxNode::first_child, (&node,), found),
    ensures
        match found {
            Some(child) => {
                &&& child.wf()
                &&& child@.root == node@.root
                &&& child@.path == node@.path.push(child@.path.last())
                &&& 0 <= child@.path.last() < node@.children().len()
                &&& node@.children()[child@.path.last()] is Node
                &&& forall|i: int| 0 <= i < child@.path.last() ==> node@.children()[i] is Token
            },
            None => forall|i: int|
                0 <= i < node@.children().len() ==> node@.children()[i] is Token,
        },
{
    lemma_node_from(node@.children(), 0);
}

/// There is a last child if one of the children is a node. It is a child with no node after it.
pub proof fn law_last_child(node: SyntaxNode, found: Option<SyntaxNode>)
    requires
        node.wf(),
        call_ensures(SyntaxNode::last_child, (&node,), found),
    ensures
        match found {
            Some(child) => {
                &&& child.wf()
                &&& child@.root == node@.root
                &&& child@.path == node@.path.push(child@.path.last())
                &&& 0 <= child@.path.last() < node@.children().len()
                &&& node@.children()[child@.path.last()] is Node
                &&& forall|i: int|
                    child@.path.last() < i < node@.children().len() ==> node@.children()[i] is Token
            },
            None => forall|i: int|
                0 <= i < node@.children().len() ==> node@.children()[i] is Token,
        },
{
    lemma_node_before(node@.children(), node@.children().len() as int);
}

/// There is a first child or token if there are children at all. It is the one with index zero.
pub proof fn law_first_child_or_token(node: SyntaxNode, found: Option<SyntaxElement>)
    requires
        node.wf(),
        call_ensures(SyntaxNode::first_child_or_token, (&node,), found),
    ensures
        match found {
            Some(child) => {
                &&& child.wf()
                &&& child@.root == node@.root
                &&& child@.path == node@.path.push(0)
                &&& node@.children().len() > 0
                &&& child is Node <==> node@.children()[0] is Node
            },
            None => node@.children().len() == 0,
        },
{
    if node@.children().len() > 0 {
        node@.lemma_child(0);
    }
}

/// There is a last child or token if there are children at all. It is the one with the last index.
pub proof fn law_last_child_or_token(node: SyntaxNode, found: Option<SyntaxElement>)
    requires
        node.wf(),
        call_ensures(SyntaxNode::last_child_or_token, (&node,), found),
    ensures
        match found {
            Some(child) => {
                &&& child.wf()
                &&& child@.root == node@.root
                &&& child@.path == node@.path.push(node@.children().len() - 1)
                &&& node@.children().len() > 0
                &&& child is Node <==> node@.children().last() is Node
            },
            None => node@.children().len() == 0,
        },
{
    if node@.children().len() > 0 {
        node@.lemma_child(node@.children().len() - 1);
    }
}

/// The next sibling of a node is a later child of the same parent, with no node between. There is
/// none if the node is the root or no later child is a node.
pub proof fn law_next_sibling(node: SyntaxNode, found: Option<SyntaxNode>)
    requires
        node.wf(),
        call_ensures(SyntaxNode::next_sibling, (&node,), found),
    ensures
        ({
            let index = node@.path.last();
            let children = (Place { root: node@.root, path: node@.path.drop_last() }).children();
            match found {
                Some(sibling) => {
                    &&& sibling.wf()
                    &&& node@.path.len() > 0
                    &&& sibling@.root == node@.root
                    &&& sibling@.path == node@.path.drop_last().push(sibling@.path.last())
                    &&& index < sibling@.path.last() < children.len()
                    &&& children[sibling@.path.last()] is Node
                    &&& forall|i: int|
                        index < i < sibling@.path.last() ==> children[i] is Token
                },
                None => node@.path.len() == 0 || forall|i: int|
                    index < i < children.len() ==> children[i] is Token,
            }
        }),
{
    node@.lemma_bounds();
    if node@.path.len() > 0 {
        lemma_node_from(node@.parent().children(), node@.index() + 1);
    }
}

/// The previous sibling of a node is an earlier child of the same parent, with no node between.
/// There is none if the node is the root or no earlier child is a node.
pub proof fn law_prev_sibling(node: SyntaxNode, found: Option<SyntaxNode>)
    requires
        node.wf(),
        call_ensures(SyntaxNode::prev_sibling, (&node,), found),
    ensures
        ({
            let index = node@.path.last();
            let children = (Place { root: node@.root, path: node@.path.drop_last() }).children();
            match found {
                Some(sibling) => {
                    &&& sibling.wf()
                    &&& node@.path.len() > 0
                    &&& sibling@.root == node@.root
                    &&& sibling@.path == node@.path.drop_last().push(sibling@.path.last())
                    &&& 0 <= sibling@.path.last() < index < children.len()
                    &&& children[sibling@.path.last()] is Node
                    &&& forall|i: int|
                        sibling@.path.last() < i < index ==> children[i] is Token
                },
                None => node@.path.len() == 0 || forall|i: int|
                    0 <= i < index ==> children[i] is Token,
            }
        }),
{
    node@.lemma_bounds();
    if node@.path.len() > 0 {
        lemma_node_before(node@.parent().children(), node@.index());
    }
}

/// `found` is the child of the same parent whose index is by `step` higher, or there is none. Only
/// the last step of the path differs.
pub open spec fn is_neighbour(place: Place, found: Option<SyntaxElement>, step: int) -> bool {
    match found {
        Some(sibling) => {
            &&& sibling.wf()
            &&& place.path.len() > 0
            &&& sibling@.root == place.root
            &&& sibling@.path == place.path.drop_last().push(place.path.last() + step)
        },
        None => place.path.len() == 0 || !(0 <= place.path.last() + step < (Place {
            root: place.root,
            path: place.path.drop_last(),
        }).children().len()),
    }
}

/// The next sibling or token of a node, a token or an element has the next index. There is none at
/// the root and at the last child.
pub proof fn law_next_sibling_or_token(
    node: SyntaxNode,
    token: SyntaxToken,
    element: SyntaxElement,
    next_of_node: Option<SyntaxElement>,
    next_of_token: Option<SyntaxElement>,
    next_of_element: Option<SyntaxElement>,
)
    requires
        node.wf(),
        token.wf(),
        element.wf(),
        call_ensures(SyntaxNode::next_sibling_or_token, (&node,), next_of_node),
        call_ensures(SyntaxToken::next_sibling_or_token, (&token,), next_of_token),
        call_ensures(SyntaxElement::next_sibling_or_token, (&element,), next_of_element),
    ensures
        is_neighbour(node@, next_of_node, 1),
        is_neighbour(token@, next_of_token, 1),
        is_neighbour(element@, next_of_element, 1),
{
    node@.lemma_bounds();
    token@.lemma_bounds();
    element@.lemma_bounds();
}

/// The previous sibling or token of a node, a token or an element has the previous index. There is
/// none at the root and at the first child.
pub proof fn law_prev_sibling_or_token(
    node: SyntaxNode,
    token: SyntaxToken,
    element: SyntaxElement,
    prev_of_node: Option<SyntaxElement>,
    prev_of_token: Option<SyntaxElement>,
    prev_of_element: Option<SyntaxElement>,
)
    requires
        node.wf(),
        token.wf(),
        element.wf(),
        call_ensures(SyntaxNode::prev_sibling_or_token, (&node,), prev_of_node),
        call_ensures(SyntaxToken::prev_sibling_or_token, (&token,), prev_of_token),
        call_ensures(SyntaxElement::prev_sibling_or_token, (&element,), prev_of_element),
    ensures
        is_neighbour(node@, prev_of_node, -1),
        is_neighbour(token@, prev_of_token, -1),
        is_neighbour(element@, prev_of_element, -1),
{
    node@.lemma_bounds();
    token@.lemma_bounds();
    element@.lemma_bounds();
}

/// The way up from a node is made of the node and all whose paths are its path cut short, each one
/// step shorter than the one before it, down to the root.
pub proof fn law_ancestors_of_node(node: SyntaxNode, found: Vec<SyntaxNode>)
    requires
        node.wf(),
        call_ensures(SyntaxNode::ancestors, (&node,), found),
    ensures
        found@.len() == node@.path.len() + 1,
        forall|height: int|
            0 <= height < found@.len() ==> {
                &&& (#[trigger] found@[height]).wf()
                &&& found@[height]@.root == node@.root
                &&& found@[height]@.path == node@.path.take(node@.path.len() - height)
            },
{
}

/// The way up from a token is that of its parent.
pub proof fn law_ancestors_of_token(token: SyntaxToken, found: Vec<SyntaxNode>)
    requires
        token.wf(),
        call_ensures(SyntaxToken::ancestors, (&token,), found),
    ensures
        found@.len() == token@.path.len() > 0,
        forall|height: int|
            0 <= height < found@.len() ==> {
                &&& (#[trigger] found@[height]).wf()
                &&& found@[height]@.root == token@.root
                &&& found@[height]@.path == token@.path.take(token@.path.len() - 1 - height)
            },
{
    assert(token@.path.len() > 0);
    token@.lemma_bounds();
    assert forall|height: int| 0 <= height < found@.len() implies found@[height]@.path
        == token@.path.take(token@.path.len() - 1 - height) by {
        assert(token@.parent().ancestor(height).path =~= token@.path.take(
            token@.path.len() - 1 - height,
        ));
    }
}

/// The way up from an element is that of the node or the token that it is.
pub proof fn law_ancestors_of_element(element: SyntaxElement, found: Vec<SyntaxNode>)
    requires
        element.wf(),
        call_ensures(SyntaxElement::ancestors, (&element,), found),
    ensures
        ({
            let depth = element@.path.len() - if element is Node {
                0int
            } else {
                1int
            };
            &&& found@.len() == depth + 1
            &&& forall|height: int|
                0 <= height < found@.len() ==> {
                    &&& (#[trigger] found@[height]).wf()
                    &&& found@[height]@.root == element@.root
                    &&& found@[height]@.path == element@.path.take(depth - height)
                }
        }),
{
    element@.lemma_bounds();
    if element is Token {
        assert(element@.path.len() > 0);
        assert forall|height: int| 0 <= height < found@.len() implies found@[height]@.path
            == element@.path.take(element@.path.len() - 1 - height) by {
            assert(element@.parent().ancestor(height).path =~= element@.path.take(
                element@.path.len() - 1 - height,
            ));
        }
    }
}

} // verus!
