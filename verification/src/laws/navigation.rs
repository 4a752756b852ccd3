//! Laws of the steps from one node or token to another.

use vstd::prelude::*;

use crate::laws::walks::lemma_filter_one;
use crate::place::{lemma_node_before, lemma_node_from, node_before, node_from, Place};
use crate::walk::{lemma_is_under, token_places, Notes};

verus! {

/// The children of a node fill it without gaps: the first starts where the node starts, each
/// further one where the one before it ends, and the last ends where the node ends.
pub proof fn law_children_fill_the_node(place: Place, index: int)
    requires
        place.wf(),
        0 <= index < place.children().len(),
    ensures
        place.child(0).start() == place.start(),
        place.child(place.children().len() - 1).end() == place.end(),
        place.child(index).next() matches Some(next) ==> next.start() == place.child(index).end(),
        place.child(index).parent() == place,
{
    place.lemma_child(index);
    place.lemma_child(0);
    place.lemma_child(place.children().len() - 1);
    if index + 1 < place.children().len() {
        place.lemma_child(index + 1);
    }
}

/// To go to the next sibling and to go to the previous one undo each other.
pub proof fn law_siblings_undo(place: Place, other: Place)
    requires
        place.wf(),
        other.wf(),
    ensures
        place.next() == Some(other) <==> other.prev() == Some(place),
{
    place.lemma_bounds();
    other.lemma_bounds();
    if !place.is_root() {
        place.lemma_parent();
        if place.index() + 1 < place.parent().children().len() {
            place.parent().lemma_child(place.index() + 1);
        }
    }
    if !other.is_root() {
        other.lemma_parent();
        if other.index() > 0 {
            other.parent().lemma_child(other.index() - 1);
        }
    }
}

/// To go to the next sibling that is a node and to go to the previous one undo each other.
pub proof fn law_node_siblings_undo(place: Place, other: Place)
    requires
        place.is_node(),
        other.is_node(),
    ensures
        place.next_node() == Some(other) <==> other.prev_node() == Some(place),
{
    place.lemma_bounds();
    other.lemma_bounds();
    if !place.is_root() {
        let children = place.parent().children();
        let next = node_from(children, place.index() + 1);
        place.lemma_parent();
        lemma_node_from(children, place.index() + 1);
        if next < children.len() {
            place.parent().lemma_child(next);
            lemma_node_before(children, next);
        }
    }
    if !other.is_root() {
        let children = other.parent().children();
        let prev = node_before(children, other.index());
        other.lemma_parent();
        lemma_node_before(children, other.index());
        if prev >= 0 {
            other.parent().lemma_child(prev);
            lemma_node_from(children, prev + 1);
        }
    }
}

/// The first and the last child have no sibling on one side.
pub proof fn law_first_and_last_child(place: Place)
    requires
        place.is_node(),
    ensures
        place.child_at(0) matches Some(first) ==> first.wf() && first.prev() is None,
        place.child_at(place.children().len() - 1) matches Some(last) ==> last.wf() && last.next()
            is None,
        place.first_node() matches Some(first) ==> first.is_node() && first.prev_node() is None
            && first.node_siblings_after() == place.nodes_from(0),
        place.last_node() matches Some(last) ==> last.is_node() && last.next_node() is None
            && last.node_siblings_before() == place.nodes_before(place.children().len() as int),
{
    let children = place.children();
    let count = children.len() as int;
    if count > 0 {
        place.lemma_child(0);
        place.lemma_child(count - 1);
    }
    lemma_node_from(children, 0);
    lemma_node_before(children, count);
    let first = node_from(children, 0);
    let last = node_before(children, count);
    place.lemma_nodes_from(0);
    place.lemma_nodes_before(count);
    if first < count {
        place.lemma_child(first);
        lemma_node_before(children, first);
    }
    if last >= 0 {
        place.lemma_child(last);
        lemma_node_from(children, last + 1);
    }
}

/// To go to the next token and to go to the previous one undo each other.
pub proof fn law_tokens_undo(token: Place, other: Place)
    requires
        token.is_token(),
        other.is_token(),
    ensures
        token.next_token() == Some(other) <==> other.prev_token() == Some(token),
{
    if token.next_token() == Some(other) {
        lemma_following(token);
        lemma_leftmost(token.following()->0);
    }
    if other.prev_token() == Some(token) {
        lemma_preceding(other);
        lemma_rightmost(other.preceding()->0);
    }
}

/// What precedes the leftmost token of a place precedes the place.
proof fn lemma_leftmost(place: Place)
    requires
        place.wf(),
    ensures
        place.leftmost() matches Some(token) ==> {
            &&& token.is_token()
            &&& token.preceding() == place.preceding()
            &&& place.tokens().len() > 0
            &&& token == place.tokens()[0]
        },
    decreases place.element()->0,
{
    if place.is_token() {
        assert(place.tokens() =~= seq![place]);
    } else if place.children().len() > 0 {
        let child = place.child(0);
        place.lemma_child(0);
        lemma_leftmost(child);
        assert(place.tokens() =~= child.tokens() + place.walk_from(1, token_places()));
    }
}

/// What follows the rightmost token of a place follows the place.
proof fn lemma_rightmost(place: Place)
    requires
        place.wf(),
    ensures
        place.rightmost() matches Some(token) ==> {
            &&& token.is_token()
            &&& token.following() == place.following()
            &&& place.tokens().len() > 0
            &&& token == place.tokens().last()
        },
    decreases place.element()->0,
{
    if place.is_token() {
        assert(place.tokens() =~= seq![place]);
    } else if place.children().len() > 0 {
        let last = place.children().len() - 1;
        let child = place.child(last);
        place.lemma_child(last);
        lemma_rightmost(child);
        let before = lemma_walk_from_split(place, 0, last, token_places());
        assert(place.tokens() =~= before + child.tokens());
    }
}

/// What follows a place is preceded by what ends with the place.
proof fn lemma_following(place: Place)
    requires
        place.wf(),
    ensures
        place.following() matches Some(next) ==> {
            &&& next.wf()
            &&& next.preceding() matches Some(prev)
            &&& prev.rightmost() == place.rightmost()
        },
    decreases place.path.len(),
{
    place.lemma_bounds();
    if !place.is_root() {
        let parent = place.parent();
        place.lemma_parent();
        if place.index() + 1 < parent.children().len() {
            parent.lemma_child(place.index() + 1);
        } else {
            lemma_following(parent);
        }
    }
}

/// What precedes a place is followed by what starts with the place.
proof fn lemma_preceding(place: Place)
    requires
        place.wf(),
    ensures
        place.preceding() matches Some(prev) ==> {
            &&& prev.wf()
            &&& prev.following() matches Some(next)
            &&& next.leftmost() == place.leftmost()
        },
    decreases place.path.len(),
{
    place.lemma_bounds();
    if !place.is_root() {
        let parent = place.parent();
        place.lemma_parent();
        if place.index() > 0 {
            parent.lemma_child(place.index() - 1);
        } else {
            lemma_preceding(parent);
        }
    }
}

/// The first token of a node is the first of its tokens, and the last token the last, where going
/// down on that side does not end at a node without children.
pub proof fn law_first_and_last_token(place: Place)
    requires
        place.wf(),
    ensures
        place.leftmost() matches Some(token) ==> place.tokens().len() > 0 && token
            == place.tokens()[0],
        place.rightmost() matches Some(token) ==> place.tokens().len() > 0 && token
            == place.tokens().last(),
{
    lemma_leftmost(place);
    lemma_rightmost(place);
}

/// The next token of a token is the one right after it in the text of the whole tree.
pub proof fn law_next_token_is_next_in_text(token: Place, root: Place)
    requires
        token.is_token(),
        root == (Place { root: token.root, path: Seq::empty() }),
    ensures
        token.next_token() matches Some(next) ==> exists|i: int|
            0 <= i < root.tokens().len() - 1 && root.tokens()[i] == token && #[trigger]
            root.tokens()[i + 1] == next,
{
    let before = lemma_walk_split(token, root, token_places());
    let after = token.walk_after(root, token_places());
    assert(token.tokens() =~= seq![token]);
    lemma_walk_after(token, root);
    if let Some(next) = token.next_token() {
        lemma_following(token);
        lemma_leftmost(token.following()->0);
        let i = before.len() as int;
        assert(root.tokens()[i] == token);
        assert(root.tokens()[i + 1] == next);
    }
}

/// Where each node has a child, the token after which there is no next one is the last of the
/// text.
pub proof fn law_last_token_of_text(token: Place, root: Place)
    requires
        token.is_token(),
        root == (Place { root: token.root, path: Seq::empty() }),
        forall|place: Place| #[trigger]
            place.is_under(root) && place.is_node() ==> place.children().len() > 0,
        token.next_token() is None,
    ensures
        root.tokens().len() > 0,
        root.tokens().last() == token,
{
    let before = lemma_walk_split(token, root, token_places());
    assert(token.tokens() =~= seq![token]);
    lemma_walk_after(token, root);
    if let Some(next) = token.following() {
        lemma_following(token);
        lemma_leftmost_some(next, root);
    }
    assert(root.tokens() =~= before.push(token));
}

proof fn lemma_leftmost_some(place: Place, root: Place)
    requires
        place.wf(),
        place.is_under(root),
        forall|place: Place| #[trigger]
            place.is_under(root) && place.is_node() ==> place.children().len() > 0,
    ensures
        place.leftmost() is Some,
    decreases place.element()->0,
{
    if place.is_node() {
        place.lemma_child(0);
        lemma_is_under(place, root);
        lemma_leftmost_some(place.child(0), root);
    }
}

/// The tokens after a place are those of what follows it, and then those after that.
proof fn lemma_walk_after(place: Place, root: Place)
    requires
        place.wf(),
        root == (Place { root: place.root, path: Seq::empty() }),
    ensures
        place.walk_after(root, token_places()) == match place.following() {
            Some(next) => next.tokens() + next.walk_after(root, token_places()),
            None => Seq::empty(),
        },
        place.following() matches Some(next) ==> next.is_under(root),
    decreases place.path.len(),
{
    place.lemma_bounds();
    if !place.is_root() {
        let parent = place.parent();
        place.lemma_parent();
        if place.index() + 1 < parent.children().len() {
            parent.lemma_child(place.index() + 1);
        } else {
            lemma_walk_after(parent, root);
        }
        assert(place.walk_after(root, token_places()) =~= match place.following() {
            Some(next) => next.tokens() + next.walk_after(root, token_places()),
            None => Seq::empty(),
        });
    }
}

/// What a walk under `top` notes down before it enters `place`.
proof fn lemma_walk_split<A>(place: Place, top: Place, notes: Notes<A>) -> (before: Seq<A>)
    requires
        place.wf(),
        place.is_under(top),
    ensures
        top.walk(notes) == before + place.walk(notes) + place.walk_after(top, notes),
    decreases place.path.len(),
{
    lemma_is_under(place, top);
    if place == top {
        assert(top.walk(notes) =~= Seq::<A>::empty() + place.walk(notes) + place.walk_after(
            top,
            notes,
        ));
        Seq::empty()
    } else {
        let parent = place.parent();
        place.lemma_bounds();
        place.lemma_parent();
        let ahead = lemma_walk_split(parent, top, notes);
        let among = lemma_walk_from_split(parent, 0, place.index(), notes);
        let before = ahead + (notes.on_enter)(parent) + among;
        assert(top.walk(notes) =~= before + place.walk(notes) + place.walk_after(top, notes));
        before
    }
}

proof fn lemma_walk_from_split<A>(place: Place, start: int, index: int, notes: Notes<A>) -> (before:
    Seq<A>)
    requires
        place.wf(),
        0 <= start <= index < place.children().len(),
    ensures
        place.walk_from(start, notes) == before + place.child(index).walk(notes) + place.walk_from(
            index + 1,
            notes,
        ),
    decreases index - start,
{
    if start == index {
        assert(place.walk_from(start, notes) =~= Seq::<A>::empty() + place.child(index).walk(notes)
            + place.walk_from(index + 1, notes));
        Seq::empty()
    } else {
        let after = lemma_walk_from_split(place, start + 1, index, notes);
        let before = place.child(start).walk(notes) + after;
        assert(place.walk_from(start, notes) =~= before + place.child(index).walk(notes)
            + place.walk_from(index + 1, notes));
        before
    }
}

/// The way up from a place starts there, goes from each to its parent, and ends at the root. What
/// is met on the way holds the place.
pub proof fn law_ancestors(place: Place, height: int)
    requires
        place.wf(),
        0 <= height <= place.path.len(),
    ensures
        place.ancestors().len() == place.path.len() + 1,
        place.ancestors()[0] == place,
        place.ancestors().last().is_root(),
        height < place.path.len() ==> place.ancestors()[height + 1]
            == place.ancestors()[height].parent(),
        place.ancestors()[height].wf(),
        place.ancestors()[height].start() <= place.start(),
        place.end() <= place.ancestors()[height].end(),
    decreases height,
{
    assert(place.ancestor(0) =~= place);
    if height > 0 {
        law_ancestors(place, height - 1);
        place.ancestor(height - 1).lemma_bounds();
    }
    if height < place.path.len() {
        assert(place.ancestor(height + 1) =~= place.ancestor(height).parent());
    }
}

/// The children that are nodes are those of all children that are nodes, in the same order.
pub proof fn law_node_children(place: Place)
    requires
        place.is_node(),
    ensures
        place.nodes_from(0) == place.children_from(0).filter(|p: Place| p.is_node()),
{
    lemma_node_children_from(place, 0);
}

proof fn lemma_node_children_from(place: Place, start: int)
    requires
        place.is_node(),
        0 <= start <= place.children().len(),
    ensures
        place.nodes_from(start) == place.children_from(start).filter(|p: Place| p.is_node()),
    decreases place.children().len() - start,
{
    let keep = |p: Place| p.is_node();
    if start < place.children().len() {
        let rest = place.children_from(start + 1);
        place.lemma_child(start);
        lemma_node_children_from(place, start + 1);
        assert(place.children_from(start) =~= seq![place.child(start)] + rest);
        Seq::filter_distributes_over_add(seq![place.child(start)], rest, keep);
        lemma_filter_one(place.child(start), keep);
        assert(place.nodes_from(start) =~= place.children_from(start).filter(keep));
    } else {
        reveal(Seq::filter);
        assert(place.children_from(start) =~= Seq::empty());
    }
}

/// The siblings after a node that are nodes are those of all siblings after it that are nodes.
pub proof fn law_node_siblings(place: Place)
    requires
        place.is_node(),
    ensures
        place.node_siblings_after() == place.siblings_after().filter(|p: Place| p.is_node()),
        place.node_siblings_before() == place.siblings_before().filter(|p: Place| p.is_node()),
{
    let keep = |p: Place| p.is_node();
    if place.is_root() {
        lemma_filter_one(place, keep);
    } else {
        let parent = place.parent();
        place.lemma_bounds();
        place.lemma_parent();
        lemma_node_children_from(parent, place.index());
        assert(place.siblings_after() =~= parent.children_from(place.index()));
        assert(place.node_siblings_after() =~= parent.nodes_from(place.index()));
        lemma_nodes_before(place, place.index() + 1);
        assert(place.node_siblings_before() =~= parent.nodes_before(place.index() + 1));
        assert(place.siblings_before() =~= Seq::new(
            (place.index() + 1) as nat,
            |k: int| parent.child(place.index() - k),
        ));
    }
}

/// The nodes among the children before an index, the last first.
proof fn lemma_nodes_before(place: Place, end: int)
    requires
        place.is_node(),
        !place.is_root(),
        0 <= end <= place.parent().children().len(),
    ensures
        place.parent().nodes_before(end) == Seq::new(
            end as nat,
            |k: int| place.parent().child(end - 1 - k),
        ).filter(|p: Place| p.is_node()),
    decreases end,
{
    let parent = place.parent();
    let keep = |p: Place| p.is_node();
    let all = Seq::new(end as nat, |k: int| parent.child(end - 1 - k));
    place.lemma_bounds();
    if end > 0 {
        let first = parent.child(end - 1);
        let rest = Seq::new((end - 1) as nat, |k: int| parent.child(end - 1 - 1 - k));
        parent.lemma_child(end - 1);
        lemma_nodes_before(place, end - 1);
        assert(all =~= seq![first] + rest);
        Seq::filter_distributes_over_add(seq![first], rest, keep);
        lemma_filter_one(first, keep);
        assert(parent.nodes_before(end) =~= all.filter(keep));
    } else {
        reveal(Seq::filter);
        assert(all =~= Seq::empty());
    }
}

/// The siblings before a place, reversed, and those after it, without the place itself, are the
/// children of its parent.
pub proof fn law_siblings_make_up_the_children(place: Place)
    requires
        place.wf(),
        !place.is_root(),
    ensures
        place.siblings_before().reverse() + place.siblings_after().drop_first()
            == place.parent().children_from(0),
        place.is_node() ==> place.node_siblings_before().reverse()
            + place.node_siblings_after().drop_first() == place.parent().nodes_from(0),
{
    let parent = place.parent();
    let index = place.index();
    place.lemma_bounds();
    place.lemma_parent();
    assert(place.siblings_before().reverse() + place.siblings_after().drop_first()
        =~= parent.children_from(0));
    if place.is_node() {
        lemma_nodes_on_both_sides(parent, index + 1);
        assert(place.node_siblings_before() =~= parent.nodes_before(index + 1));
        assert(place.node_siblings_after().drop_first() =~= parent.nodes_from(index + 1));
    }
}

/// The nodes before an index, reversed, and those from it on are all nodes among the children.
proof fn lemma_nodes_on_both_sides(place: Place, index: int)
    requires
        0 <= index <= place.children().len(),
    ensures
        place.nodes_before(index).reverse() + place.nodes_from(index) == place.nodes_from(0),
    decreases index,
{
    if index > 0 {
        lemma_nodes_on_both_sides(place, index - 1);
    }
    assert(place.nodes_before(index).reverse() + place.nodes_from(index) =~= place.nodes_from(0));
}

} // verus!
