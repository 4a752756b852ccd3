//! Laws of green trees, of text ranges and of the small shared types.
//!
//! Each takes calls that have returned: what they were given, and what came back.

use vstd::prelude::*;
use vstd::utf8::encode_utf8;

use crate::children::{filter_nodes, tokens_ahead};
use crate::children::{ChildrenFrom, ChildrenTo, ElementWalk, FilterNodes, Placed};
use crate::green::{covers, len_of, lemma_len_of_monotonic};
use crate::green::{GreenElement, GreenElementRef, GreenNode, GreenNodeData, GreenToken, SyntaxKind};
use crate::laws::text::law_length_of_text;
use crate::place::Place;
use crate::text_size::{TextRange, TextSize};
use crate::utility_types::NodeOrToken;

verus! {

/// A green token gives back the kind and the text of which it was made, and the length of the text
/// in bytes. So does a clone.
pub proof fn law_green_token(
    made_of: SyntaxKind,
    from: &str,
    token: GreenToken,
    copy: GreenToken,
    kind: SyntaxKind,
    text: &str,
    len: TextSize,
)
    requires
        encode_utf8(from@).len() <= u32::MAX,
        call_ensures(GreenToken::new, (made_of, from), token),
        call_ensures(<GreenToken as Clone>::clone, (&token,), copy),
        call_ensures(GreenToken::kind, (&copy,), kind),
        call_ensures(GreenToken::text, (&copy,), text),
        call_ensures(GreenToken::text_len, (&copy,), len),
    ensures
        token.wf(),
        copy == token,
        kind == made_of,
        text@ == from@,
        len.raw == encode_utf8(from@).len(),
{
}

/// A green node gives back the kind and the children of which it was made. Its length is that of
/// its text in bytes.
pub proof fn law_green_node(
    made_of: SyntaxKind,
    children: Vec<GreenElement>,
    node: GreenNode,
    data: &GreenNodeData,
    kind: SyntaxKind,
    len: TextSize,
    count: usize,
)
    requires
        call_ensures(GreenNode::new, (made_of, children), node),
        call_ensures(<GreenNode as std::ops::Deref>::deref, (&node,), data),
        call_ensures(GreenNodeData::kind, (data,), kind),
        call_ensures(GreenNodeData::text_len, (data,), len),
        call_ensures(GreenNodeData::child_count, (data,), count),
    ensures
        node.wf(),
        kind == made_of,
        node@.kind == made_of,
        count == children@.len(),
        node@.children == children@,
        len.raw == node@.text_len,
        len.raw == encode_utf8((Place { root: node, path: Seq::empty() }).text()).len(),
{
    law_length_of_text(Place { root: node, path: Seq::empty() });
}

/// The child of a green node with a given index is the one that stands there. To take a handle of
/// its own to it gives the same element.
pub proof fn law_green_child(
    data: GreenNodeData,
    index: usize,
    child: GreenElementRef<'_>,
    own: GreenElement,
    len: TextSize,
)
    requires
        data.wf(),
        index < data@.children.len(),
        call_ensures(GreenNodeData::child, (&data, index), child),
        call_ensures(GreenElementRef::<'_>::cloned, (&child,), own),
        call_ensures(GreenElementRef::<'_>::text_len, (&child,), len),
    ensures
        own == data@.children[index as int],
        match data@.children[index as int] {
            NodeOrToken::Node(node) => child matches NodeOrToken::Node(at) && *at == node
                && len.raw == node@.text_len,
            NodeOrToken::Token(token) => child matches NodeOrToken::Token(at) && *at == token
                && len.raw == token.bytes().len(),
        },
{
}

/// Clones of a green node are of one allocation and of the same contents.
pub proof fn law_green_clone(node: GreenNode, copy: GreenNode, address: usize, same: usize)
    requires
        call_ensures(<GreenNode as Clone>::clone, (&node,), copy),
        call_ensures(GreenNode::address, (&node,), address),
        call_ensures(GreenNode::address, (&copy,), same),
    ensures
        copy@ == node@,
        copy.wf() <==> node.wf(),
        address == same == node.spec_address(),
        copy.spec_address() == node.spec_address(),
{
}

/// To replace a child changes that child and nothing else.
pub proof fn law_replacing_a_child(
    data: GreenNodeData,
    index: usize,
    new: GreenElement,
    node: GreenNode,
)
    requires
        data.wf(),
        index < data@.children.len(),
        new.wf(),
        call_ensures(GreenNodeData::replace_child, (&data, index, new), node),
    ensures
        node.wf(),
        node@.kind == data@.kind,
        node@.children.len() == data@.children.len(),
        node@.children[index as int] == new,
        forall|i: int|
            0 <= i < data@.children.len() && i != index ==> node@.children[i] == data@.children[i],
        node@.text_len == data@.text_len - data@.children[index as int].len() + new.len(),
{
}

/// The length of some children is the sum of their lengths.
pub proof fn law_length_of_children(children: Seq<GreenElement>, count: int)
    requires
        0 <= count < children.len(),
    ensures
        len_of(children, 0) == 0,
        len_of(children, count + 1) == len_of(children, count) + children[count].len(),
        children[count].len() == match children[count] {
            NodeOrToken::Node(node) => node@.text_len,
            NodeOrToken::Token(token) => encode_utf8(token@.text).len(),
        },
{
}

/// What is found at a range is a child within which it lies, with its index and its distance from
/// the start. Of several such, it is the last of those that do not go on beyond the start of the
/// range. Nothing is found only if it lies within no child. `other` stands for any index.
pub proof fn law_green_child_at_range(
    data: GreenNodeData,
    range: TextRange,
    found: Option<(usize, TextSize, GreenElementRef<'_>)>,
    other: int,
)
    requires
        data.wf(),
        range.wf(),
        call_ensures(GreenNodeData::child_at_range, (&data, range), found),
    ensures
        ({
            let children = data@.children;
            let other_holds = 0 <= other < children.len() && len_of(children, other)
                <= range.start.raw && range.end.raw <= len_of(children, other + 1);
            match found {
                Some((index, offset, child)) => {
                    &&& index < children.len()
                    &&& offset.raw == len_of(children, index as int)
                    &&& offset.raw <= range.start.raw
                    &&& range.end.raw <= len_of(children, index + 1)
                    &&& child.owned() == children[index as int]
                    &&& other_holds && other > index ==> range.start.raw < len_of(
                        children,
                        other + 1,
                    )
                    &&& other_holds && other < index ==> len_of(children, index + 1)
                        <= range.start.raw
                },
                None => !other_holds,
            }
        }),
{
    let covered = covers(
        data@.children,
        range.start.raw as int,
        range.end.raw as int,
        other,
    );
    if found is None && 0 <= other < data@.children.len() {
        assert(!covered);
    }
}

/// A walk forwards hands out each child from the given index on, with its index. The first is at
/// the given offset, each further one where the one before it ends.
pub proof fn law_children_from(
    data: &GreenNodeData,
    start: usize,
    offset: TextSize,
    walk: ChildrenFrom<'_>,
)
    requires
        data.wf(),
        start < data@.children.len() ==> offset.raw + data@.text_len - len_of(
            data@.children,
            start as int,
        ) <= u32::MAX,
        call_ensures(GreenNodeData::children_from, (data, start, offset), walk),
    ensures
        walk.ready(),
        walk.remaining().len() == if start < data@.children.len() {
            data@.children.len() - start
        } else {
            0
        },
        forall|k: int|
            0 <= k < walk.remaining().len() ==> {
                &&& (#[trigger] walk.remaining()[k]).0.owned() == data@.children[start + k]
                &&& walk.remaining()[k].1.0 == start + k
            },
        walk.remaining().len() > 0 ==> walk.remaining()[0].1.1 == offset,
        forall|j: int, k: int|
            0 <= j && k == j + 1 && k < walk.remaining().len() ==> (
            #[trigger] walk.remaining()[k]).1.1.raw == (#[trigger] walk.remaining()[j]).1.1.raw
                + data@.children[start + j].len(),
{
    let children = data@.children;
    let count = children.len() as int;
    assert forall|k: int| 0 <= k < walk.remaining().len() implies 0 <= offset.raw + len_of(
        children,
        start + k,
    ) - len_of(children, start as int) <= u32::MAX && (#[trigger] walk.remaining()[k]).1.1.raw
        == offset.raw + len_of(children, start + k) - len_of(children, start as int) by {
        lemma_len_of_monotonic(children, start as int, start + k);
        lemma_len_of_monotonic(children, start + k, count);
    }
}

/// A walk backwards hands out each child before the given index, the last first, with its index.
/// The first that is handed out ends at the given offset, each further one where the one handed out
/// before it starts.
pub proof fn law_children_to(
    data: &GreenNodeData,
    end: usize,
    offset: TextSize,
    walk: ChildrenTo<'_>,
)
    requires
        data.wf(),
        end <= data@.children.len(),
        len_of(data@.children, end as int) <= offset.raw,
        call_ensures(GreenNodeData::children_to, (data, end, offset), walk),
    ensures
        walk.ready(),
        walk.remaining().len() == end,
        forall|k: int|
            0 <= k < walk.remaining().len() ==> {
                &&& (#[trigger] walk.remaining()[k]).0.owned() == data@.children[end - 1 - k]
                &&& walk.remaining()[k].1.0 == end - 1 - k
            },
        walk.remaining().len() > 0 ==> walk.remaining()[0].1.1.raw + data@.children[end - 1].len()
            == offset.raw,
        forall|j: int, k: int|
            0 <= j && k == j + 1 && k < walk.remaining().len() ==> (
            #[trigger] walk.remaining()[k]).1.1.raw + data@.children[end - 1 - k].len() == (
            #[trigger] walk.remaining()[j]).1.1.raw,
{
    let children = data@.children;
    assert forall|k: int| 0 <= k < walk.remaining().len() implies (
    #[trigger] walk.remaining()[k]).1.1.raw == offset.raw - len_of(children, end as int) + len_of(
        children,
        end - 1 - k,
    ) by {
        lemma_len_of_monotonic(children, end - 1 - k, end as int);
    }
}

/// Where a walk backwards is to start beyond the last child, it starts with that one, and counts
/// the indices down from the one that was given.
pub proof fn law_children_to_beyond(
    data: &GreenNodeData,
    end: usize,
    offset: TextSize,
    walk: ChildrenTo<'_>,
)
    requires
        data.wf(),
        end > data@.children.len(),
        data@.text_len <= offset.raw,
        call_ensures(GreenNodeData::children_to, (data, end, offset), walk),
    ensures
        walk.ready(),
        walk.remaining().len() == data@.children.len(),
        forall|k: int|
            0 <= k < walk.remaining().len() ==> {
                let index = data@.children.len() - 1 - k;
                &&& (#[trigger] walk.remaining()[k]).0.owned() == data@.children[index]
                &&& walk.remaining()[k].1.0 == end - 1 - k
                &&& walk.remaining()[k].1.1.raw == offset.raw - data@.text_len + len_of(
                    data@.children,
                    index,
                )
            },
{
    let children = data@.children;
    assert forall|k: int| 0 <= k < walk.remaining().len() implies {
        let index = children.len() - 1 - k;
        &&& (#[trigger] walk.remaining()[k]).0.owned() == children[index]
        &&& walk.remaining()[k].1.0 == end - 1 - k
        &&& walk.remaining()[k].1.1.raw == offset.raw - data@.text_len + len_of(children, index)
    } by {
        lemma_len_of_monotonic(children, children.len() - 1 - k, children.len() as int);
    }
}

/// Each step of a walk along green children hands out the first of those to come, and then the
/// others are to come. Nothing comes when none is left.
pub proof fn law_next_green_child<'a>(
    forwards: &mut ChildrenFrom<'a>,
    backwards: &mut ChildrenTo<'a>,
    next: Option<(GreenElementRef<'a>, Placed)>,
    prev: Option<(GreenElementRef<'a>, Placed)>,
)
    requires
        old(forwards).ready(),
        old(backwards).ready(),
        call_ensures(<ChildrenFrom<'a> as ElementWalk<'a, Placed>>::next, (forwards,), next),
        call_ensures(<ChildrenTo<'a> as ElementWalk<'a, Placed>>::next, (backwards,), prev),
    ensures
        final(forwards).ready(),
        final(backwards).ready(),
        match next {
            Some(item) => old(forwards).remaining() == seq![item] + final(forwards).remaining(),
            None => old(forwards).remaining().len() == 0 && final(forwards).remaining().len() == 0,
        },
        match prev {
            Some(item) => old(backwards).remaining() == seq![item] + final(backwards).remaining(),
            None => old(backwards).remaining().len() == 0 && final(backwards).remaining().len()
                == 0,
        },
{
    if let Some(item) = next {
        assert(old(forwards).remaining() =~= seq![item] + final(forwards).remaining());
    }
    if let Some(item) = prev {
        assert(old(backwards).remaining() =~= seq![item] + final(backwards).remaining());
    }
}

proof fn lemma_tokens_ahead<'a, T>(items: Seq<(GreenElementRef<'a>, T)>)
    ensures
        tokens_ahead(items) <= items.len(),
        tokens_ahead(items) < items.len() ==> items[tokens_ahead(items) as int].0 is Node,
        forall|i: int| 0 <= i < tokens_ahead(items) ==> (#[trigger] items[i]).0 is Token,
    decreases items.len(),
{
    if items.len() > 0 && !(items[0].0 is Node) {
        let rest = items.drop_first();
        lemma_tokens_ahead(rest);
        assert forall|i: int| 0 <= i < tokens_ahead(items) implies (
        #[trigger] items[i]).0 is Token by {
            if i > 0 {
                assert(items[i] == rest[i - 1]);
            }
        }
    }
}

/// A walk without its tokens hands out the first node of what is to come, with what goes with it,
/// and passes over tokens only. Nothing comes only if no node is left.
pub proof fn law_filter_nodes<'a>(
    walk: ChildrenFrom<'a>,
    made: FilterNodes<ChildrenFrom<'a>>,
    nodes: &mut FilterNodes<ChildrenFrom<'a>>,
    found: Option<(&'a GreenNode, Placed)>,
)
    requires
        walk.ready(),
        call_ensures(filter_nodes::<'a, Placed, ChildrenFrom<'a>>, (walk,), made),
        *old(nodes) == made,
        call_ensures(FilterNodes::<ChildrenFrom<'a>>::next::<Placed>, (nodes,), found),
    ensures
        final(nodes).inner().ready(),
        match found {
            Some((node, placed)) => exists|i: int|
                0 <= i < walk.remaining().len() && (#[trigger] walk.remaining()[i]).0
                    == GreenElementRef::<'a>::Node(node) && walk.remaining()[i].1 == placed
                    && final(nodes).inner().remaining() == walk.remaining().skip(i + 1) && forall|
                    j: int,
                |
                    0 <= j < i ==> (#[trigger] walk.remaining()[j]).0 is Token,
            None => {
                &&& final(nodes).inner().remaining().len() == 0
                &&& forall|j: int|
                    0 <= j < walk.remaining().len() ==> (#[trigger] walk.remaining()[j]).0 is Token
            },
        },
{
    lemma_tokens_ahead(walk.remaining());
    if let Some((node, placed)) = found {
        let i = tokens_ahead(walk.remaining()) as int;
        assert(walk.remaining()[i].0 == GreenElementRef::<'a>::Node(node));
    }
}

/// A size is the number of which it is made. An element behind a reference is the element.
pub proof fn law_small_conversions(
    raw: u32,
    size: TextSize,
    element: GreenElement,
    behind: GreenElementRef<'_>,
)
    requires
        call_ensures(<TextSize as From<u32>>::from, (raw,), size),
        call_ensures(GreenElement::borrow_element, (&element,), behind),
    ensures
        size.raw == raw,
        match element {
            NodeOrToken::Node(node) => behind matches NodeOrToken::Node(at) && *at == node,
            NodeOrToken::Token(token) => behind matches NodeOrToken::Token(at) && *at == token,
        },
{
}

/// Ranges are made and measured by plain arithmetic.
pub proof fn law_ranges(
    start: TextSize,
    end: TextSize,
    len: TextSize,
    made: TextRange,
    placed: TextRange,
)
    requires
        start.raw <= end.raw,
        start.raw + len.raw <= u32::MAX,
        call_ensures(TextRange::new, (start, end), made),
        call_ensures(TextRange::at, (start, len), placed),
    ensures
        made.wf() && made.start.raw == start.raw && made.end.raw == end.raw,
        placed.wf() && placed.start.raw == start.raw && placed.end.raw == start.raw + len.raw,
{
}

/// What is read off a range is its start, its end and the difference of the two. It is empty if it
/// has no length, and holds another range that reaches beyond neither end.
pub proof fn law_reading_a_range(
    range: TextRange,
    other: TextRange,
    start: TextSize,
    end: TextSize,
    len: TextSize,
    empty: bool,
    contains: bool,
)
    requires
        range.wf(),
        other.wf(),
        call_ensures(TextRange::start, (&range,), start),
        call_ensures(TextRange::end, (&range,), end),
        call_ensures(TextRange::len, (&range,), len),
        call_ensures(TextRange::is_empty, (&range,), empty),
        call_ensures(TextRange::contains_range, (&range, other), contains),
    ensures
        start.raw == range.start.raw,
        end.raw == range.end.raw,
        start.raw + len.raw == end.raw,
        empty <==> len.raw == 0,
        contains <==> range.start.raw <= other.start.raw && other.end.raw <= range.end.raw,
{
}

/// A range that is counted from a base has the same length, and the base added to its ends gives
/// the ends back.
pub proof fn law_relative_range(range: TextRange, base: TextSize, relative: TextRange)
    requires
        range.wf(),
        base.raw <= range.start.raw,
        call_ensures(TextRange::relative_to, (&range, base), relative),
    ensures
        relative.wf(),
        relative.start.raw + base.raw == range.start.raw,
        relative.end.raw + base.raw == range.end.raw,
{
}

/// An element gives back the node or the token that it is.
pub proof fn law_node_or_token<N, T>(
    element: NodeOrToken<N, T>,
    node: Option<&N>,
    token: Option<&T>,
)
    requires
        call_ensures(NodeOrToken::<N, T>::as_node, (&element,), node),
        call_ensures(NodeOrToken::<N, T>::as_token, (&element,), token),
    ensures
        element matches NodeOrToken::Node(it) ==> node == Some(&it) && token is None,
        element matches NodeOrToken::Token(it) ==> node is None && token == Some(&it),
{
}

} // verus!
