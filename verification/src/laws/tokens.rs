//! Laws of the functions that find the first, the last, the next and the previous token.
//!
//! Each takes a call that has returned: what it was given, and what came back.

use vstd::prelude::*;

use crate::cursor::{SyntaxElement, SyntaxNode, SyntaxToken};
use crate::place::Place;

verus! {

/// The number of children at the place to which the first `depth` steps of the path lead.
pub open spec fn width(place: Place, depth: int) -> int {
    (Place { root: place.root, path: place.path.take(depth) }).children().len() as int
}

/// From the step with the given number on, the path takes first children only.
pub open spec fn firsts_from(place: Place, depth: int) -> bool {
    forall|i: int| depth <= i < place.path.len() ==> #[trigger] place.path[i] == 0
}

/// From the step with the given number on, the path takes last children only.
pub open spec fn lasts_from(place: Place, depth: int) -> bool {
    forall|i: int|
        depth <= i < place.path.len() ==> #[trigger] place.path[i] == width(place, i) - 1
}

/// A path that takes first children only leads from `top` to `end`.
pub open spec fn down_firsts(top: Place, end: Place) -> bool {
    end.is_under(top) && firsts_from(end, top.path.len() as int)
}

/// A path that takes last children only leads from `top` to `end`.
pub open spec fn down_lasts(top: Place, end: Place) -> bool {
    end.is_under(top) && lasts_from(end, top.path.len() as int)
}

/// Where the path down along first children ends.
proof fn lemma_down_firsts(place: Place) -> (end: Place)
    requires
        place.wf(),
    ensures
        end.wf(),
        end.children().len() == 0,
        down_firsts(place, end),
        place.leftmost() == if end.is_token() {
            Some(end)
        } else {
            None
        },
    decreases place.element()->0,
{
    if place.is_node() && place.children().len() > 0 {
        place.lemma_child(0);
        let end = lemma_down_firsts(place.child(0));
        assert(place.path.is_prefix_of(end.path)) by {
            assert(place.child(0).path.is_prefix_of(end.path));
            assert(place.path =~= end.path.subrange(0, place.path.len() as int));
        }
        assert(end.path[place.path.len() as int] == place.child(0).path[place.path.len() as int]);
        end
    } else {
        place
    }
}

/// Where the path down along last children ends.
proof fn lemma_down_lasts(place: Place) -> (end: Place)
    requires
        place.wf(),
    ensures
        end.wf(),
        end.children().len() == 0,
        down_lasts(place, end),
        place.rightmost() == if end.is_token() {
            Some(end)
        } else {
            None
        },
    decreases place.element()->0,
{
    if place.is_node() && place.children().len() > 0 {
        let last = place.children().len() - 1;
        let depth = place.path.len() as int;
        place.lemma_child(last);
        let end = lemma_down_lasts(place.child(last));
        assert(place.child(last).path.is_prefix_of(end.path));
        assert(place.path =~= end.path.subrange(0, depth));
        assert(place.path =~= end.path.take(depth));
        assert(end.path[depth] == place.child(last).path[depth]);
        assert(width(end, depth) == place.children().len());
        end
    } else {
        place
    }
}

/// The first token is at the end of the path down along first children. There is none only if a
/// node without children is there.
pub proof fn law_first_token(node: SyntaxNode, found: Option<SyntaxToken>)
    requires
        node.wf(),
        call_ensures(SyntaxNode::first_token, (&node,), found),
    ensures
        match found {
            Some(token) => token.wf() && down_firsts(node@, token@),
            None => exists|end: Place| #[trigger]
                down_firsts(node@, end) && end.is_node() && end.children().len() == 0,
        },
{
    let end = lemma_down_firsts(node@);
}

/// The last token is at the end of the path down along last children. There is none only if a node
/// without children is there.
pub proof fn law_last_token(node: SyntaxNode, found: Option<SyntaxToken>)
    requires
        node.wf(),
        call_ensures(SyntaxNode::last_token, (&node,), found),
    ensures
        match found {
            Some(token) => token.wf() && down_lasts(node@, token@),
            None => exists|end: Place| #[trigger]
                down_lasts(node@, end) && end.is_node() && end.children().len() == 0,
        },
{
    let end = lemma_down_lasts(node@);
}

/// The first and the last token of an element are those of the node, or the token itself.
pub proof fn law_end_tokens_of_element(
    element: SyntaxElement,
    first: Option<SyntaxToken>,
    last: Option<SyntaxToken>,
)
    requires
        element.wf(),
        call_ensures(SyntaxElement::first_token, (&element,), first),
        call_ensures(SyntaxElement::last_token, (&element,), last),
    ensures
        match first {
            Some(token) => token.wf() && down_firsts(element@, token@),
            None => exists|end: Place| #[trigger]
                down_firsts(element@, end) && end.is_node() && end.children().len() == 0,
        },
        match last {
            Some(token) => token.wf() && down_lasts(element@, token@),
            None => exists|end: Place| #[trigger]
                down_lasts(element@, end) && end.is_node() && end.children().len() == 0,
        },
        element is Token ==> first is Some && first->0@ == element@ && last is Some && last->0@
            == element@,
{
    let end = lemma_down_firsts(element@);
    let end = lemma_down_lasts(element@);
}

/// Where each node has children, there are a first and a last token: the ends of the list of all
/// tokens.
pub proof fn law_end_tokens_exist(
    node: SyntaxNode,
    first: Option<SyntaxToken>,
    last: Option<SyntaxToken>,
)
    requires
        node.wf(),
        forall|place: Place| #[trigger]
            place.is_under(node@) && place.is_node() ==> place.children().len() > 0,
        call_ensures(SyntaxNode::first_token, (&node,), first),
        call_ensures(SyntaxNode::last_token, (&node,), last),
    ensures
        first is Some && last is Some,
        node@.tokens().len() > 0,
        first->0@ == node@.tokens()[0],
        last->0@ == node@.tokens().last(),
{
    law_first_token(node, first);
    law_last_token(node, last);
    crate::laws::navigation::law_first_and_last_token(node@);
    let start = lemma_down_firsts(node@);
    let end = lemma_down_lasts(node@);
    assert(start.is_under(node@));
    assert(end.is_under(node@));
}

/// The paths part at the step `depth`, where `later` takes the child right after the one that
/// `earlier` takes. From there on `earlier` takes last children only, and `later` first ones.
pub open spec fn adjoin(earlier: Place, later: Place, depth: int) -> bool {
    &&& earlier.root == later.root
    &&& 0 <= depth < earlier.path.len()
    &&& depth < later.path.len()
    &&& forall|i: int| 0 <= i < depth ==> earlier.path[i] == later.path[i]
    &&& earlier.path[depth] + 1 == later.path[depth]
    &&& lasts_from(earlier, depth + 1)
    &&& firsts_from(later, depth + 1)
}

/// A last child goes on with the path of its parent as a path of last children.
proof fn lemma_lasts_from_parent(place: Place, depth: int)
    requires
        place.wf(),
        !place.is_root(),
        0 <= depth <= place.path.len() - 1,
        place.index() == place.parent().children().len() - 1,
        lasts_from(place.parent(), depth),
    ensures
        lasts_from(place, depth),
{
    let parent = place.parent();
    assert forall|i: int| depth <= i < place.path.len() implies #[trigger] place.path[i] == width(
        place,
        i,
    ) - 1 by {
        if i < place.path.len() - 1 {
            assert(place.path.take(i) =~= parent.path.take(i));
            assert(place.path[i] == parent.path[i]);
        } else {
            assert(place.path.take(i) =~= parent.path);
        }
    }
}

/// Where the path parts to what follows a place.
#[verifier::rlimit(40)]
proof fn lemma_following_path(place: Place) -> (depth: int)
    requires
        place.wf(),
    ensures
        match place.following() {
            Some(next) => {
                &&& next.wf()
                &&& 0 <= depth < place.path.len()
                &&& next.root == place.root
                &&& next.path == place.path.take(depth).push(place.path[depth] + 1)
                &&& lasts_from(place, depth + 1)
            },
            None => lasts_from(place, 0),
        },
    decreases place.path.len(),
{
    place.lemma_bounds();
    if place.is_root() {
        0
    } else {
        let parent = place.parent();
        let last = place.path.len() - 1;
        assert(place.path.take(last) =~= parent.path);
        if place.index() + 1 < parent.children().len() {
            parent.lemma_child(place.index() + 1);
            last
        } else {
            let depth = lemma_following_path(parent);
            if place.following() is Some {
                assert(place.path.take(depth) =~= parent.path.take(depth));
                lemma_lasts_from_parent(place, depth + 1);
            } else {
                lemma_lasts_from_parent(place, 0);
            }
            depth
        }
    }
}

/// Where the path parts to what precedes a place.
#[verifier::rlimit(40)]
proof fn lemma_preceding_path(place: Place) -> (depth: int)
    requires
        place.wf(),
    ensures
        match place.preceding() {
            Some(prev) => {
                &&& prev.wf()
                &&& 0 <= depth < place.path.len()
                &&& prev.root == place.root
                &&& prev.path == place.path.take(depth).push(place.path[depth] - 1)
                &&& firsts_from(place, depth + 1)
            },
            None => firsts_from(place, 0),
        },
    decreases place.path.len(),
{
    place.lemma_bounds();
    if place.is_root() {
        0
    } else {
        let parent = place.parent();
        let last = place.path.len() - 1;
        assert(place.path.take(last) =~= parent.path);
        if place.index() > 0 {
            parent.lemma_child(place.index() - 1);
            last
        } else {
            let depth = lemma_preceding_path(parent);
            assert forall|i: int| 0 <= i < last implies place.path[i] == parent.path[i] by {}
            if place.preceding() is Some {
                assert(place.path.take(depth) =~= parent.path.take(depth));
            }
            depth
        }
    }
}

/// The next token is the one that adjoins. There is none only if the path of the token takes last
/// children only, or a node without children adjoins.
#[verifier::rlimit(40)]
pub proof fn law_next_token(token: SyntaxToken, found: Option<SyntaxToken>)
    requires
        token.wf(),
        call_ensures(SyntaxToken::next_token, (&token,), found),
    ensures
        match found {
            Some(next) => next.wf() && exists|depth: int| adjoin(token@, next@, depth),
            None => lasts_from(token@, 0) || exists|end: Place, depth: int| #[trigger]
                adjoin(token@, end, depth) && end.is_node() && end.children().len() == 0,
        },
{
    let place = token@;
    let depth = lemma_following_path(place);
    if let Some(next) = place.following() {
        let end = lemma_down_firsts(next);
        assert(next.path.is_prefix_of(end.path));
        assert forall|i: int| 0 <= i <= depth implies end.path[i] == next.path[i] by {}
        assert(adjoin(place, end, depth));
    }
}

/// The previous token is the one that adjoins. There is none only if the path of the token takes
/// first children only, or a node without children adjoins.
#[verifier::rlimit(40)]
pub proof fn law_prev_token(token: SyntaxToken, found: Option<SyntaxToken>)
    requires
        token.wf(),
        call_ensures(SyntaxToken::prev_token, (&token,), found),
    ensures
        match found {
            Some(prev) => prev.wf() && exists|depth: int| adjoin(prev@, token@, depth),
            None => firsts_from(token@, 0) || exists|end: Place, depth: int| #[trigger]
                adjoin(end, token@, depth) && end.is_node() && end.children().len() == 0,
        },
{
    let place = token@;
    let depth = lemma_preceding_path(place);
    if let Some(prev) = place.preceding() {
        let end = lemma_down_lasts(prev);
        assert(prev.path.is_prefix_of(end.path));
        assert forall|i: int| 0 <= i <= depth implies end.path[i] == prev.path[i] by {}
        assert(adjoin(end, place, depth));
    }
}

} // verus!
