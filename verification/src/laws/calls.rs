//! Laws of when a function may be called: on all values of its types that are well formed, and but
//! for the conditions that are named here, always.

use vstd::prelude::*;
use vstd::utf8::encode_utf8;

use crate::children::{ChildrenFrom, ChildrenTo, ElementWalk, Placed};
use crate::cursor::{SyntaxElement, SyntaxElementChildren, SyntaxNode, SyntaxNodeChildren};
use crate::cursor::SyntaxToken;
use crate::green::{len_of, GreenElement, GreenElementRef};
use crate::green::{GreenNode, GreenNodeData, GreenToken, SyntaxKind};
use crate::preorder::{Preorder, PreorderWithTokens};
use crate::syntax_text::SyntaxText;
use crate::text_size::{TextRange, TextSize};
use crate::utility_types::Direction;

verus! {

/// What a node can be asked without any condition.
pub proof fn law_calls_of_a_node(node: SyntaxNode, direction: Direction)
    requires
        node.wf(),
    ensures
        call_requires(SyntaxNode::key, (&node,)),
        call_requires(SyntaxNode::kind, (&node,)),
        call_requires(SyntaxNode::text_range, (&node,)),
        call_requires(SyntaxNode::text, (&node,)),
        call_requires(SyntaxNode::green, (&node,)),
        call_requires(SyntaxNode::parent, (&node,)),
        call_requires(SyntaxNode::ancestors, (&node,)),
        call_requires(SyntaxNode::children, (&node,)),
        call_requires(SyntaxNode::children_with_tokens, (&node,)),
        call_requires(SyntaxNode::first_child, (&node,)),
        call_requires(SyntaxNode::first_child_or_token, (&node,)),
        call_requires(SyntaxNode::last_child, (&node,)),
        call_requires(SyntaxNode::last_child_or_token, (&node,)),
        call_requires(SyntaxNode::next_sibling, (&node,)),
        call_requires(SyntaxNode::next_sibling_or_token, (&node,)),
        call_requires(SyntaxNode::prev_sibling, (&node,)),
        call_requires(SyntaxNode::prev_sibling_or_token, (&node,)),
        call_requires(SyntaxNode::first_token, (&node,)),
        call_requires(SyntaxNode::last_token, (&node,)),
        call_requires(SyntaxNode::siblings, (&node, direction)),
        call_requires(SyntaxNode::siblings_with_tokens, (&node, direction)),
        call_requires(SyntaxNode::descendants, (&node,)),
        call_requires(SyntaxNode::descendants_with_tokens, (&node,)),
        call_requires(SyntaxNode::preorder, (&node,)),
        call_requires(SyntaxNode::preorder_with_tokens, (&node,)),
        call_requires(SyntaxNode::to_string, (&node,)),
{
}

/// What a token can be asked without any condition.
pub proof fn law_calls_of_a_token(token: SyntaxToken, direction: Direction)
    requires
        token.wf(),
    ensures
        call_requires(SyntaxToken::kind, (&token,)),
        call_requires(SyntaxToken::text_range, (&token,)),
        call_requires(SyntaxToken::text, (&token,)),
        call_requires(SyntaxToken::green, (&token,)),
        call_requires(SyntaxToken::parent, (&token,)),
        call_requires(SyntaxToken::ancestors, (&token,)),
        call_requires(SyntaxToken::next_sibling_or_token, (&token,)),
        call_requires(SyntaxToken::prev_sibling_or_token, (&token,)),
        call_requires(SyntaxToken::siblings_with_tokens, (&token, direction)),
        call_requires(SyntaxToken::next_token, (&token,)),
        call_requires(SyntaxToken::prev_token, (&token,)),
        call_requires(SyntaxToken::to_string, (&token,)),
{
}

/// What an element can be asked without any condition.
pub proof fn law_calls_of_an_element(element: SyntaxElement)
    requires
        element.wf(),
    ensures
        call_requires(SyntaxElement::text_range, (&element,)),
        call_requires(SyntaxElement::kind, (&element,)),
        call_requires(SyntaxElement::parent, (&element,)),
        call_requires(SyntaxElement::ancestors, (&element,)),
        call_requires(SyntaxElement::first_token, (&element,)),
        call_requires(SyntaxElement::last_token, (&element,)),
        call_requires(SyntaxElement::next_sibling_or_token, (&element,)),
        call_requires(SyntaxElement::prev_sibling_or_token, (&element,)),
        call_requires(SyntaxElement::to_string, (&element,)),
{
}

/// Any offset from the start of a node to its end can be looked for in it, any range that it holds,
/// and among its children any range that does not start before it.
pub proof fn law_calls_of_searches(node: SyntaxNode, offset: TextSize, range: TextRange)
    requires
        node.wf(),
        range.start.raw <= range.end.raw,
    ensures
        node@.start() <= offset.raw <= node@.end() ==> call_requires(
            SyntaxNode::token_at_offset,
            (&node, offset),
        ),
        node@.start() <= range.start.raw && range.end.raw <= node@.end() ==> call_requires(
            SyntaxNode::covering_element,
            (&node, range),
        ),
        node@.start() <= range.start.raw ==> call_requires(
            SyntaxNode::child_or_token_at_range,
            (&node, range),
        ),
{
}

/// A node or a token can be replaced by any other of the same kind with which the text does not
/// become too long to be measured.
pub proof fn law_calls_of_replacing(
    node: SyntaxNode,
    token: SyntaxToken,
    new_node: GreenNode,
    new_token: GreenToken,
)
    requires
        node.wf(),
        token.wf(),
        new_node.wf(),
        new_token.wf(),
    ensures
        new_node@.kind == node@.kind() && node@.root@.text_len - node@.len() + new_node@.text_len
            <= u32::MAX ==> call_requires(SyntaxNode::replace_with, (&node, new_node)),
        new_token@.kind == token@.kind() && token@.root@.text_len - token@.len()
            + new_token.bytes().len() <= u32::MAX ==> call_requires(
            SyntaxToken::replace_with,
            (&token, new_token),
        ),
{
}

/// A walk along children or to nodes and tokens can always go on, and any walk to nodes can be told
/// to skip.
pub proof fn law_calls_of_walks(
    nodes: &mut SyntaxNodeChildren,
    elements: &mut SyntaxElementChildren,
    events: &mut PreorderWithTokens,
    walk: &mut Preorder,
    text: SyntaxText,
)
    requires
        old(nodes).wf(),
        old(elements).wf(),
        old(events).wf(),
        old(walk).wf(),
        text.wf(),
    ensures
        call_requires(SyntaxNodeChildren::next, (nodes,)),
        call_requires(SyntaxElementChildren::next, (elements,)),
        call_requires(PreorderWithTokens::next, (events,)),
        call_requires(Preorder::skip_subtree, (walk,)),
        call_requires(Preorder::is_able_to_advance, (&*old(walk),)),
        old(walk).can_advance() ==> call_requires(Preorder::next, (walk,)),
        call_requires(SyntaxText::len, (&text,)),
        call_requires(SyntaxText::to_string, (&text,)),
{
}

/// Green tokens and nodes can be made as long as their texts and the number of their children can
/// be measured in 32 bits. Any tree can be walked.
pub proof fn law_calls_of_making(
    kind: SyntaxKind,
    text: &str,
    children: Vec<GreenElement>,
    green: GreenNode,
)
    requires
        green.wf(),
        forall|i: int| 0 <= i < children@.len() ==> (#[trigger] children@[i]).wf(),
    ensures
        encode_utf8(text@).len() <= u32::MAX ==> call_requires(GreenToken::new, (kind, text)),
        children@.len() <= u32::MAX && len_of(children@, children@.len() as int) <= u32::MAX
            ==> call_requires(GreenNode::new, (kind, children)),
        call_requires(SyntaxNode::new_root, (green,)),
{
}

/// What a green node can be asked.
pub proof fn law_calls_of_a_green_node<'a>(
    data: GreenNodeData,
    index: usize,
    range: TextRange,
    new: GreenElement,
    forwards: &mut ChildrenFrom<'a>,
    backwards: &mut ChildrenTo<'a>,
)
    requires
        data.wf(),
        range.start.raw <= range.end.raw,
        new.wf(),
        old(forwards).ready(),
        old(backwards).ready(),
    ensures
        call_requires(GreenNodeData::kind, (&data,)),
        call_requires(GreenNodeData::text_len, (&data,)),
        call_requires(GreenNodeData::child_count, (&data,)),
        call_requires(GreenNodeData::child_at_range, (&data, range)),
        index < data@.children.len() ==> call_requires(GreenNodeData::child, (&data, index)),
        index < data@.children.len() && data@.text_len - data@.children[index as int].len()
            + new.len() <= u32::MAX ==> call_requires(
            GreenNodeData::replace_child,
            (&data, index, new),
        ),
        call_requires(<ChildrenFrom<'a> as ElementWalk<'a, Placed>>::next, (forwards,)),
        call_requires(<ChildrenTo<'a> as ElementWalk<'a, Placed>>::next, (backwards,)),
{
}

/// A walk along green children can start anywhere, as long as the offsets that it counts can be
/// measured in 32 bits.
pub proof fn law_calls_of_green_walks(data: &GreenNodeData, index: usize, offset: TextSize)
    requires
        data.wf(),
    ensures
        index < data@.children.len() && offset.raw + data@.text_len - len_of(
            data@.children,
            index as int,
        ) <= u32::MAX ==> call_requires(GreenNodeData::children_from, (data, index, offset)),
        index >= data@.children.len() ==> call_requires(
            GreenNodeData::children_from,
            (data, index, offset),
        ),
        index <= data@.children.len() && len_of(data@.children, index as int) <= offset.raw
            ==> call_requires(GreenNodeData::children_to, (data, index, offset)),
        data@.text_len <= offset.raw && index > data@.children.len() ==> call_requires(
            GreenNodeData::children_to,
            (data, index, offset),
        ),
{
}

/// Ranges can be made from any start and end in order, and measured.
pub proof fn law_calls_of_ranges(
    start: TextSize,
    end: TextSize,
    len: TextSize,
    range: TextRange,
    other: TextRange,
)
    requires
        range.start.raw <= range.end.raw,
    ensures
        start.raw <= end.raw ==> call_requires(TextRange::new, (start, end)),
        start.raw + len.raw <= u32::MAX ==> call_requires(TextRange::at, (start, len)),
        call_requires(TextRange::start, (&range,)),
        call_requires(TextRange::end, (&range,)),
        call_requires(TextRange::len, (&range,)),
        call_requires(TextRange::is_empty, (&range,)),
        call_requires(TextRange::contains_range, (&range, other)),
        start.raw <= range.start.raw ==> call_requires(TextRange::relative_to, (&range, start)),
{
}

/// What a green token and a green element can be asked.
pub proof fn law_calls_of_green_elements(
    token: GreenToken,
    node: GreenNode,
    element: GreenElementRef<'_>,
)
    requires
        token.wf(),
        element.owned().wf(),
    ensures
        call_requires(GreenToken::kind, (&token,)),
        call_requires(GreenToken::text, (&token,)),
        call_requires(GreenToken::text_len, (&token,)),
        call_requires(GreenNode::address, (&node,)),
        call_requires(GreenElementRef::<'_>::cloned, (&element,)),
        call_requires(GreenElementRef::<'_>::text_len, (&element,)),
{
}

} // verus!
