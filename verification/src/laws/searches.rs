//! Laws of the searches for a range and for an offset.

use vstd::prelude::*;

use crate::cursor::{SyntaxElement, SyntaxNode, SyntaxToken};
use crate::laws::walks::{law_nodes_and_tokens, law_walk_visits_each_once, lemma_under_child};
use crate::offsets::touched_at;
use crate::place::Place;
use crate::text_size::{TextRange, TextSize};
use crate::utility_types::TokenAtOffset;
use crate::walk::lemma_is_under;

verus! {

/// A place lies within all that it is under.
proof fn lemma_within(place: Place, top: Place)
    requires
        place.wf(),
        place.is_under(top),
    ensures
        top.wf(),
        top.start() <= place.start() <= place.end() <= top.end(),
    decreases place.path.len(),
{
    lemma_is_under(place, top);
    place.lemma_bounds();
    if place != top {
        lemma_within(place.parent(), top);
    }
}

/// The search for a range ends at a place that holds it and has no child that does.
pub proof fn law_covering_element(place: Place, range: TextRange)
    requires
        place.wf(),
        range.wf(),
        place.holds(range),
    ensures
        place.covering(range).wf(),
        place.covering(range).is_under(place),
        place.covering(range).holds(range),
        forall|i: int|
            0 <= i < place.covering(range).children().len() ==> !(#[trigger] place.covering(
                range,
            ).child(i)).holds(range),
    decreases place.element()->0,
{
    place.lemma_picks_one(range);
    if let Some(child) = place.child_for(range) {
        let i = choose|i: int| place.picks(range, i);
        place.lemma_child(i);
        lemma_is_under(place, place);
        law_covering_element(child, range);
        assert(child.covering(range).is_under(place));
    } else {
        assert forall|i: int| 0 <= i < place.children().len() implies !(#[trigger] place.child(
            i,
        )).holds(range) by {
            if place.child(i).holds(range) {
                place.lemma_picks_some(range, i);
            }
        }
    }
}

/// Of all places that hold a range with text in it, the search ends at the smallest: it is under
/// each of them.
pub proof fn law_covering_is_smallest(place: Place, range: TextRange, other: Place)
    requires
        place.wf(),
        range.wf(),
        range.start.raw < range.end.raw,
        other.wf(),
        other.is_under(place),
        other.holds(range),
    ensures
        place.covering(range).is_under(other),
    decreases place.element()->0,
{
    lemma_within(other, place);
    if other == place {
        law_covering_element(place, range);
    } else {
        let index = other.path[place.path.len() as int];
        lemma_under_child(other, place);
        lemma_within(other, place.child(index));
        place.lemma_child(index);
        assert forall|j: int| 0 <= j < place.children().len() && j != index implies !(
        #[trigger] place.child(j)).holds(range) by {
            if j < index {
                place.lemma_siblings_in_order(j, index);
            } else {
                place.lemma_siblings_in_order(index, j);
            }
        }
        assert(place.picks(range, index));
        place.lemma_picks_one(range);
        law_covering_is_smallest(place.child(index), range, other);
    }
}

/// The tokens that a search for an offset is about are those that have text and lie at the offset.
proof fn lemma_tokens_at_offset(place: Place, offset: int)
    requires
        place.wf(),
    ensures
        forall|token: Place| #[trigger]
            place.tokens_at(offset).contains(token) <==> token.is_token() && token.is_under(place)
                && token.touches(offset),
{
    broadcast use vstd::seq_lib::group_filter_ensures;

    law_walk_visits_each_once(place);
    law_nodes_and_tokens(place);
    let all = place.descendants_with_tokens();
    let is_token = |p: Place| p.is_token();
    let tokens = all.filter(is_token);
    let touched = touched_at(offset);
    assert(place.tokens() == tokens);
    assert forall|token: Place| #[trigger]
        place.tokens_at(offset).contains(token) <==> token.is_token() && token.is_under(place)
            && token.touches(offset) by {
        if tokens.filter(touched).contains(token) {
            tokens.lemma_filter_contains_rev(touched, token);
            all.lemma_filter_contains_rev(is_token, token);
            let i = choose|i: int| 0 <= i < tokens.len() && tokens[i] == token;
            let j = choose|j: int|
                0 <= j < tokens.filter(touched).len() && tokens.filter(touched)[j] == token;
            assert(is_token(tokens[i]));
            assert(touched(tokens.filter(touched)[j]));
        }
        if token.is_token() && token.is_under(place) && token.touches(offset) {
            assert(all.contains(token));
            let i = choose|i: int| 0 <= i < all.len() && all[i] == token;
            assert(is_token(all[i]));
            assert(tokens.contains(token));
            let j = choose|j: int| 0 <= j < tokens.len() && tokens[j] == token;
            assert(touched(tokens[j]));
        }
    }
}

/// At an offset there are at most two tokens with text. Where there are two, the first ends and the
/// second starts at the offset.
proof fn lemma_at_most_two(place: Place, offset: int)
    requires
        place.wf(),
    ensures
        ({
            let tokens = place.tokens_at(offset);
            &&& tokens.len() <= 2
            &&& tokens.len() == 2 ==> tokens[0].end() == offset && tokens[1].start() == offset
            &&& tokens.len() > 0 <==> place.touches(offset)
        }),
    decreases place.element()->0, place.children().len() + 1,
{
    place.lemma_tokens_at(offset);
    if !place.touches(offset) {
        place.lemma_untouched(offset);
    } else if place.is_node() {
        let index = place.lemma_touched_child(offset);
        lemma_at_most_two_from(place, 0, index, offset);
    }
}

proof fn lemma_at_most_two_from(place: Place, start: int, index: int, offset: int)
    requires
        place.is_node(),
        0 <= start <= index < place.children().len(),
        place.child(index).touches(offset),
    ensures
        ({
            let tokens = place.tokens_at_from(start, offset);
            &&& 0 < tokens.len() <= 2
            &&& tokens.len() == 2 ==> tokens[0].end() == offset && tokens[1].start() == offset
        }),
    decreases place.element()->0, index - start + 1,
{
    let child = place.child(start);
    let rest = place.tokens_at_from(start + 1, offset);
    place.lemma_child(start);
    place.lemma_tokens_at_from(start, offset);
    if !child.touches(offset) {
        child.lemma_untouched(offset);
        assert(place.tokens_at_from(start, offset) =~= rest);
        lemma_at_most_two_from(place, start + 1, index, offset);
    } else if offset < child.end() || child.end() == place.end() {
        assert forall|i: int| start + 1 <= i < place.children().len() implies !(
        #[trigger] place.child(i)).touches(offset) by {
            place.lemma_child(i);
            place.lemma_siblings_in_order(start, i);
        }
        place.lemma_untouched_from(start + 1, offset);
        assert(place.tokens_at_from(start, offset) =~= child.tokens_at(offset));
        lemma_at_most_two(child, offset);
    } else {
        child.lemma_one_at_end();
        place.lemma_one_at_start_from(start + 1, offset);
    }
}

/// What stands at an offset is nothing where the node has no text, the one token at the offset, or
/// the two of which the first ends and the second starts there. Only tokens with text count, and
/// there are no others of these at the offset.
pub proof fn law_token_at_offset(place: Place, offset: int)
    requires
        place.wf(),
        place.start() <= offset <= place.end(),
    ensures
        match place.token_at_offset(offset) {
            TokenAtOffset::Empty => place.len() == 0,
            TokenAtOffset::Single(token) => token.start() <= offset <= token.end(),
            TokenAtOffset::Between(left, right) => left.end() == offset && right.start() == offset,
        },
        forall|token: Place|
            (#[trigger] token.is_token() && token.is_under(place) && token.touches(offset)) <==> (
            match place.token_at_offset(offset) {
                TokenAtOffset::Empty => false,
                TokenAtOffset::Single(only) => token == only,
                TokenAtOffset::Between(left, right) => token == left || token == right,
            }),
{
    let tokens = place.tokens_at(offset);
    lemma_tokens_at_offset(place, offset);
    lemma_at_most_two(place, offset);
    assert forall|token: Place| #[trigger]
        token.is_token() && token.is_under(place) && token.touches(offset) <==> (
        match place.token_at_offset(offset) {
            TokenAtOffset::Empty => false,
            TokenAtOffset::Single(only) => token == only,
            TokenAtOffset::Between(left, right) => token == left || token == right,
        }) by {
        assert(tokens.contains(token) <==> token.is_token() && token.is_under(place)
            && token.touches(offset));
        if tokens.len() > 0 {
            assert(tokens.contains(tokens[0]));
        }
        if tokens.len() > 1 {
            assert(tokens.contains(tokens[1]));
        }
    }
    if tokens.len() > 0 {
        assert(tokens.contains(tokens[0]));
    }
}

/// What a search for an offset returns is nothing where the node has no text, and else all tokens
/// with text that lie at the offset: one, or two of which the first ends and the second starts
/// there.
pub proof fn law_found_at_offset(
    node: SyntaxNode,
    offset: TextSize,
    found: TokenAtOffset<SyntaxToken>,
)
    requires
        node.wf(),
        node@.start() <= offset.raw <= node@.end(),
        call_ensures(SyntaxNode::token_at_offset, (&node, offset), found),
    ensures
        match found {
            TokenAtOffset::Empty => node@.start() == node@.end(),
            TokenAtOffset::Single(token) => token.wf(),
            TokenAtOffset::Between(left, right) => {
                &&& left.wf()
                &&& right.wf()
                &&& left@.end() == offset.raw
                &&& right@.start() == offset.raw
            },
        },
        forall|token: Place|
            (#[trigger] token.is_token() && token.is_under(node@) && token.start() < token.end()
                && token.start() <= offset.raw <= token.end()) <==> (match found {
                TokenAtOffset::Empty => false,
                TokenAtOffset::Single(only) => token == only@,
                TokenAtOffset::Between(left, right) => token == left@ || token == right@,
            }),
{
    law_token_at_offset(node@, offset.raw as int);
    node@.lemma_bounds();
    assert forall|token: Place| #[trigger] token.is_token() implies (token.touches(
        offset.raw as int,
    ) <==> token.start() < token.end() && token.start() <= offset.raw <= token.end()) by {}
}

/// What a search for a range returns is an element under the node that holds the range, and of which
/// no child does. If the range has text in it, it is under each other element that holds the range.
pub proof fn law_found_covering(
    node: SyntaxNode,
    range: TextRange,
    found: SyntaxElement,
    other: Place,
)
    requires
        node.wf(),
        range.wf(),
        node@.start() <= range.start.raw && range.end.raw <= node@.end(),
        call_ensures(SyntaxNode::covering_element, (&node, range), found),
    ensures
        found.wf(),
        found@.is_under(node@),
        found@.start() <= range.start.raw && range.end.raw <= found@.end(),
        other.wf() && other.path.len() > 0 && other.root == found@.root && other.path.drop_last()
            == found@.path ==> !(other.start() <= range.start.raw && range.end.raw
            <= other.end()),
        other.wf() && other.is_under(node@) && range.start.raw < range.end.raw && other.start()
            <= range.start.raw && range.end.raw <= other.end() ==> found@.is_under(other),
{
    law_covering_element(node@, range);
    if other.wf() && other.path.len() > 0 && other.root == found@.root && other.path.drop_last()
        == found@.path {
        other.lemma_bounds();
        other.lemma_parent();
        assert(other.parent() =~= found@);
        assert(found@.child(other.index()) == other);
    }
    if other.wf() && other.is_under(node@) && range.start.raw < range.end.raw && other.start()
        <= range.start.raw && range.end.raw <= other.end() {
        law_covering_is_smallest(node@, range, other);
    }
}

/// What is found at a range is a child of the node that holds the range. Of several such, it is the
/// last of those that do not go on beyond the start of the range. `other` stands for any child.
pub proof fn law_found_child_at_range(
    node: SyntaxNode,
    range: TextRange,
    found: Option<SyntaxElement>,
    other: Place,
)
    requires
        node.wf(),
        range.wf(),
        node@.start() <= range.start.raw,
        call_ensures(SyntaxNode::child_or_token_at_range, (&node, range), found),
        other.wf(),
        other.root == node@.root,
        other.path.len() > 0,
        other.path.drop_last() == node@.path,
    ensures
        match found {
            Some(child) => {
                &&& child.wf()
                &&& child@.root == node@.root
                &&& child@.path == node@.path.push(child@.path.last())
                &&& 0 <= child@.path.last() < node@.children().len()
                &&& child@.start() <= range.start.raw && range.end.raw <= child@.end()
                &&& other.path.last() > child@.path.last() && other.start() <= range.start.raw
                    && range.end.raw <= other.end() ==> range.start.raw < other.end()
                &&& other.path.last() < child@.path.last() && other.start() <= range.start.raw
                    && range.end.raw <= other.end() ==> child@.end() <= range.start.raw
            },
            None => !(other.start() <= range.start.raw && range.end.raw <= other.end()),
        },
{
    let place = node@;
    other.lemma_bounds();
    other.lemma_parent();
    assert(other.parent() =~= place);
    assert(place.child(other.index()) == other);
    place.lemma_picks_one(range);
    if let Some(child) = found {
        let i = choose|i: int| place.picks(range, i);
        assert(place.picks(range, i));
        place.lemma_child(i);
    } else if other.holds(range) {
        place.lemma_picks_some(range, other.index());
    }
}

/// What is found at a range is a child of the node that holds the range. Nothing is found only if
/// the node has no such child.
pub proof fn law_found_child_holds_range(
    node: SyntaxNode,
    range: TextRange,
    found: Option<SyntaxElement>,
)
    requires
        node.wf(),
        range.wf(),
        node@.start() <= range.start.raw,
        call_ensures(SyntaxNode::child_or_token_at_range, (&node, range), found),
    ensures
        match found {
            Some(child) => {
                &&& child.wf()
                &&& child@.root == node@.root
                &&& child@.path == node@.path.push(child@.path.last())
                &&& 0 <= child@.path.last() < node@.children().len()
                &&& child@.start() <= range.start.raw && range.end.raw <= child@.end()
            },
            None => forall|i: int|
                0 <= i < node@.children().len() ==> !((#[trigger] node@.child(i)).start()
                    <= range.start.raw && range.end.raw <= node@.child(i).end()),
        },
{
    let place = node@;
    place.lemma_picks_one(range);
    if let Some(child) = found {
        let i = choose|i: int| place.picks(range, i);
        assert(place.picks(range, i));
        place.lemma_child(i);
    } else {
        assert forall|i: int| 0 <= i < place.children().len() implies !((#[trigger] place.child(
            i,
        )).start() <= range.start.raw && range.end.raw <= place.child(i).end()) by {
            if place.child(i).holds(range) {
                place.lemma_picks_some(range, i);
            }
        }
    }
}

/// On the way down to what a search for a range returns, each step is to a child that holds the
/// range: of several such, to the last of those that do not go on beyond the start of the range.
/// `step` stands for any place on the way, and `other` for any of its siblings.
pub proof fn law_way_to_covering(
    node: SyntaxNode,
    range: TextRange,
    found: SyntaxElement,
    step: Place,
    other: Place,
)
    requires
        node.wf(),
        range.wf(),
        node@.start() <= range.start.raw && range.end.raw <= node@.end(),
        call_ensures(SyntaxNode::covering_element, (&node, range), found),
        step.is_under(node@),
        step != node@,
        found@.is_under(step),
        other.wf(),
        other.root == step.root,
        other.path.len() > 0,
        other.path.drop_last() == step.path.drop_last(),
        other.start() <= range.start.raw && range.end.raw <= other.end(),
    ensures
        step.start() <= range.start.raw && range.end.raw <= step.end(),
        other.path.last() > step.path.last() ==> range.start.raw < other.end(),
        other.path.last() < step.path.last() ==> step.end() <= range.start.raw,
{
    lemma_way_to_covering(node@, range, step, other);
}

proof fn lemma_way_to_covering(place: Place, range: TextRange, step: Place, other: Place)
    requires
        place.wf(),
        range.wf(),
        place.holds(range),
        step.is_under(place),
        step != place,
        place.covering(range).is_under(step),
        other.wf(),
        other.root == step.root,
        other.path.len() > 0,
        other.path.drop_last() == step.path.drop_last(),
        other.holds(range),
    ensures
        step.holds(range),
        other.path.last() > step.path.last() ==> range.start.raw < other.end(),
        other.path.last() < step.path.last() ==> step.end() <= range.start.raw,
    decreases place.element()->0,
{
    let depth = place.path.len() as int;
    let end = place.covering(range);
    lemma_is_under(step, place);
    lemma_is_under(end, step);
    place.lemma_picks_one(range);
    if let Some(child) = place.child_for(range) {
        let i = choose|i: int| place.picks(range, i);
        assert(place.picks(range, i));
        place.lemma_child(i);
        law_covering_element(child, range);
        assert(end == child.covering(range));
        assert(child.path[depth] == i);
        assert(end.path[depth] == i);
        assert(step.path[depth] == i);
        if step.path.len() == depth + 1 {
            assert(step =~= child);
            assert(other.parent() =~= place);
            other.lemma_bounds();
            other.lemma_parent();
            assert(place.child(other.index()) == other);
        } else {
            assert(child.path =~= step.path.subrange(0, depth + 1));
            assert(step.is_under(child));
            lemma_way_to_covering(child, range, step, other);
        }
    } else {
        assert(end == place);
    }
}

} // verus!
