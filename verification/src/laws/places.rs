//! Laws of places: what stands at a path, and where its text lies.

use vstd::prelude::*;

use crate::green::{GreenElement, GreenNode};
use crate::place::Place;
use crate::utility_types::NodeOrToken;

verus! {

/// At the root stands the whole tree, from offset zero on. It has no parent.
pub proof fn law_root(green: GreenNode, root: Place)
    requires
        green.wf(),
        root.root == green,
        root.path.len() == 0,
    ensures
        root.is_root(),
        root.wf(),
        root.element() == Some(GreenElement::Node(green)),
        root.start() == 0,
        root.end() == green@.text_len,
{
}

/// One step further down from a node stands the child that the step names, if the node has so many.
/// Below a token stands nothing.
pub proof fn law_step_down(place: Place, below: Place, index: int)
    requires
        place.root.wf(),
        below.root == place.root,
        below.path == place.path.push(index),
    ensures
        !below.is_root(),
        below.parent() == place,
        below.index() == index,
        place.child(index) == below,
        below.element() == match place.element() {
            Some(NodeOrToken::Node(node)) => if 0 <= index < node@.children.len() {
                Some(node@.children[index])
            } else {
                None
            },
            _ => None,
        },
        below.wf() <==> below.element() is Some,
{
    assert(below.parent() =~= place);
    assert(place.child(index) =~= below);
}

/// A place is a node or a token, as what stands there is. Only a node has children, and its kind,
/// its length and its children are those of the green node. The kind and the length of a token are
/// those of the green token.
pub proof fn law_what_stands_at_a_place(place: Place)
    requires
        place.wf(),
    ensures
        place.end() == place.start() + place.len(),
        match place.element() {
            Some(NodeOrToken::Node(node)) => {
                &&& place.is_node()
                &&& !place.is_token()
                &&& place.node() == node
                &&& place.kind() == node@.kind
                &&& place.len() == node@.text_len
                &&& place.children() == node@.children
            },
            Some(NodeOrToken::Token(token)) => {
                &&& place.is_token()
                &&& !place.is_node()
                &&& place.token() == token
                &&& place.kind() == token@.kind
                &&& place.len() == token.bytes().len()
                &&& place.children().len() == 0
            },
            None => false,
        },
{
}

/// The first child starts where its parent does, each further one where the one before it ends, and
/// the last ends where the parent does. A node without children has no text.
pub proof fn law_where_children_lie(place: Place, index: int)
    requires
        place.is_node(),
        0 <= index <= place.children().len(),
    ensures
        index < place.children().len() ==> (Place {
            root: place.root,
            path: place.path.push(index),
        }).start() == if index == 0 {
            place.start()
        } else {
            (Place { root: place.root, path: place.path.push(index - 1) }).end()
        },
        index > 0 && index == place.children().len() ==> (Place {
            root: place.root,
            path: place.path.push(index - 1),
        }).end() == place.end(),
        place.children().len() == 0 ==> place.start() == place.end(),
{
    place.lemma_bounds();
    if index < place.children().len() {
        place.lemma_child(index);
    }
    if index > 0 {
        place.lemma_child(index - 1);
    }
}

/// A place is under another if its path goes on from the path of the other.
pub proof fn law_under(place: Place, top: Place)
    ensures
        place.is_under(top) <==> {
            &&& place.root == top.root
            &&& place.path.len() >= top.path.len()
            &&& forall|i: int| 0 <= i < top.path.len() ==> place.path[i] == top.path[i]
        },
{
    if place.root == top.root && place.path.len() >= top.path.len() && forall|i: int|
        0 <= i < top.path.len() ==> place.path[i] == top.path[i] {
        assert(top.path =~= place.path.subrange(0, top.path.len() as int));
    }
}

} // verus!
