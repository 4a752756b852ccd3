//! Green trees: shared, immutable trees of kinds and texts, without positions.

use std::sync::Arc;
use vstd::prelude::*;
use vstd::string::StringSliceAdditionalSpecFns;
use vstd::utf8::encode_utf8;

use crate::text_size::{TextRange, TextSize};
use crate::utility_types::NodeOrToken;

verus! {

/// What a node or a token stands for in the language that the tree describes.
#[derive(Debug, Clone, Copy, PartialEq, Eq, Structural, PartialOrd, Ord, Hash)]
pub struct SyntaxKind(pub u16);

/// A leaf of a green tree: a kind and a text. Clones share one allocation.
pub struct GreenToken {
    data: Arc<GreenTokenData>,
}

struct GreenTokenData {
    kind: SyntaxKind,
    text: String,
}

/// What a green token is made of.
pub struct GreenTokenView {
    pub kind: SyntaxKind,
    pub text: Seq<char>,
}

impl View for GreenToken {
    type V = GreenTokenView;

    closed spec fn view(&self) -> GreenTokenView {
        GreenTokenView { kind: self.data.kind, text: self.data.text@ }
    }
}

impl Clone for GreenToken {
    fn clone(&self) -> (copy: GreenToken)
        ensures
            copy == *self,
    {
        GreenToken { data: self.data.clone() }
    }
}

impl GreenToken {
    /// The UTF-8 form of the text.
    pub open spec fn bytes(self) -> Seq<u8> {
        encode_utf8(self@.text)
    }

    /// The length of the text can be written as a [`TextSize`].
    pub open spec fn wf(self) -> bool {
        self.bytes().len() <= u32::MAX
    }

    pub fn new(kind: SyntaxKind, text: &str) -> (token: GreenToken)
        requires
            encode_utf8(text@).len() <= u32::MAX,
        ensures
            token.wf(),
            token@ == (GreenTokenView { kind, text: text@ }),
    {
        GreenToken { data: Arc::new(GreenTokenData { kind, text: text.to_owned() }) }
    }

    pub fn kind(&self) -> (kind: SyntaxKind)
        ensures
            kind == self@.kind,
    {
        self.data.kind
    }

    pub fn text(&self) -> (text: &str)
        ensures
            text@ == self@.text,
    {
        self.data.text.as_str()
    }

    /// The length of the text in bytes.
    pub fn text_len(&self) -> (len: TextSize)
        requires
            self.wf(),
        ensures
            len.raw == self.bytes().len(),
    {
        let bytes = self.text().as_bytes();
        TextSize { raw: bytes.len() as u32 }
    }
}

/// An inner part of a green tree: a kind and children. Clones share one allocation.
///
/// A handle carries the address of that allocation. As long as both are held, two handles carry
/// the same address if and only if one is a clone of the other; no proof rests on this.
pub struct GreenNode {
    address: usize,
    data: Arc<GreenNodeData>,
}

/// The contents of a green node.
pub struct GreenNodeData {
    kind: SyntaxKind,
    text_len: TextSize,
    children: Vec<GreenChild>,
}

struct GreenChild {
    rel_offset: TextSize,
    element: GreenElement,
}

/// What a green node is made of.
pub struct GreenNodeView {
    pub kind: SyntaxKind,
    /// The length of the text of all the children, in bytes.
    pub text_len: nat,
    pub children: Seq<GreenElement>,
}

/// A child of a green node.
pub type GreenElement = NodeOrToken<GreenNode, GreenToken>;

/// A child of a green node, borrowed from it.
pub type GreenElementRef<'a> = NodeOrToken<&'a GreenNode, &'a GreenToken>;

impl View for GreenNodeData {
    type V = GreenNodeView;

    closed spec fn view(&self) -> GreenNodeView {
        GreenNodeView {
            kind: self.kind,
            text_len: self.text_len.raw as nat,
            children: Seq::new(self.children@.len(), |i: int| self.children@[i].element),
        }
    }
}

impl View for GreenNode {
    type V = GreenNodeView;

    open spec fn view(&self) -> GreenNodeView {
        self.data()@
    }
}

/// The length in bytes of the first `count` of `children`, taken together.
pub open spec fn len_of(children: Seq<GreenElement>, count: int) -> nat
    decreases count,
{
    if count <= 0 || count > children.len() {
        0
    } else {
        len_of(children, count - 1) + children[count - 1].len()
    }
}

impl GreenElement {
    /// The length of the text in bytes.
    pub open spec fn len(self) -> nat {
        match self {
            NodeOrToken::Node(node) => node@.text_len,
            NodeOrToken::Token(token) => token.bytes().len(),
        }
    }

    pub open spec fn spec_kind(self) -> SyntaxKind {
        match self {
            NodeOrToken::Node(node) => node@.kind,
            NodeOrToken::Token(token) => token@.kind,
        }
    }

    pub open spec fn wf(self) -> bool
        decreases self, 0int,
    {
        match self {
            NodeOrToken::Node(node) => node.wf(),
            NodeOrToken::Token(token) => token.wf(),
        }
    }

    /// The same element, behind a reference.
    pub open spec fn borrowed<'a>(self) -> GreenElementRef<'a> {
        match self {
            NodeOrToken::Node(node) => NodeOrToken::Node(&node),
            NodeOrToken::Token(token) => NodeOrToken::Token(&token),
        }
    }

    /// The element behind a reference.
    pub fn borrow_element(&self) -> (element: GreenElementRef<'_>)
        ensures
            element == self.borrowed(),
    {
        match self {
            NodeOrToken::Node(node) => NodeOrToken::Node(node),
            NodeOrToken::Token(token) => NodeOrToken::Token(token),
        }
    }
}

impl<'a> GreenElementRef<'a> {
    /// The element that is referred to.
    pub open spec fn owned(self) -> GreenElement {
        match self {
            NodeOrToken::Node(node) => NodeOrToken::Node(*node),
            NodeOrToken::Token(token) => NodeOrToken::Token(*token),
        }
    }

    /// A handle of its own to the element that is referred to.
    pub fn cloned(&self) -> (element: GreenElement)
        ensures
            element == self.owned(),
    {
        match self {
            NodeOrToken::Node(node) => NodeOrToken::Node((*node).clone()),
            NodeOrToken::Token(token) => NodeOrToken::Token((*token).clone()),
        }
    }

    /// The length of the text in bytes.
    pub fn text_len(&self) -> (len: TextSize)
        requires
            self.owned().wf(),
        ensures
            len.raw == self.owned().len(),
    {
        match self {
            NodeOrToken::Node(node) => node.text_len(),
            NodeOrToken::Token(token) => token.text_len(),
        }
    }
}

impl Clone for GreenNode {
    fn clone(&self) -> (copy: GreenNode)
        ensures
            copy == *self,
    {
        GreenNode { address: self.address, data: self.data.clone() }
    }
}

impl std::ops::Deref for GreenNode {
    type Target = GreenNodeData;

    fn deref(&self) -> (data: &GreenNodeData)
        ensures
            *data == self.data(),
    {
        &self.data
    }
}

/// The address of a shared allocation, which `Arc::as_ptr` returns. Where an allocation lies is
/// up to the allocator, so nothing is claimed of the number.
#[verifier::external_body]
fn allocation_address(data: &Arc<GreenNodeData>) -> (address: usize) {
    Arc::as_ptr(data) as usize
}

impl GreenNode {
    pub closed spec fn data(self) -> GreenNodeData {
        *self.data
    }

    /// The address of the allocation that this handle shares with its clones.
    pub closed spec fn spec_address(self) -> usize {
        self.address
    }

    pub open spec fn wf(self) -> bool
        decreases self, 0int,
    {
        proof {
            self.lemma_data_smaller();
        }
        self.data().wf()
    }

    pub proof fn lemma_data_smaller(self)
        ensures
            decreases_to!(self => self.data()),
    {
    }

    /// The children of a node come before the node in the order by which recursion ends.
    pub proof fn lemma_children_smaller(self)
        ensures
            forall|i: int|
                0 <= i < self@.children.len() ==> decreases_to!(self => #[trigger] self@.children[i]),
    {
        self.data().lemma_children_smaller();
    }

    /// A node of the given kind with the given children.
    pub fn new(kind: SyntaxKind, children: Vec<GreenElement>) -> (node: GreenNode)
        requires
            children@.len() <= u32::MAX,
            len_of(children@, children@.len() as int) <= u32::MAX,
            forall|i: int| 0 <= i < children@.len() ==> (#[trigger] children@[i]).wf(),
        ensures
            node.wf(),
            node@.kind == kind,
            node@.children == children@,
    {
        let ghost elements = children@;
        let mut text_len: TextSize = TextSize { raw: 0 };
        let mut placed: Vec<GreenChild> = Vec::new();
        for element in it: children
            invariant
                it.seq() == elements,
                text_len.raw == len_of(elements, it.index() as int),
                len_of(elements, elements.len() as int) <= u32::MAX,
                placed@.len() == it.index(),
                forall|i: int| 0 <= i < elements.len() ==> (#[trigger] elements[i]).wf(),
                forall|i: int|
                    0 <= i < placed@.len() ==> (#[trigger] placed@[i]).element == elements[i]
                        && placed@[i].rel_offset.raw == len_of(elements, i),
        {
            let rel_offset = text_len;
            proof {
                lemma_len_of_monotonic(elements, it.index() + 1, elements.len() as int);
            }
            let len = element.borrow_element().text_len();
            text_len = TextSize { raw: text_len.raw + len.raw };
            placed.push(GreenChild { rel_offset, element });
        }
        let data = Arc::new(GreenNodeData { kind, text_len, children: placed });
        let address = allocation_address(&data);
        let node = GreenNode { address, data };
        assert(node@.children =~= elements);
        node
    }

    /// The address of the allocation that this handle shares with its clones.
    pub fn address(&self) -> (address: usize)
        ensures
            address == self.spec_address(),
    {
        self.address
    }
}

impl GreenNodeData {
    /// The children can be counted and measured in 32 bits, and what is stored of their layout is
    /// so.
    pub open spec fn wf(self) -> bool
        decreases self, 1int,
    {
        proof {
            self.lemma_children_smaller();
        }
        &&& self@.children.len() <= u32::MAX
        &&& self@.text_len <= u32::MAX
        &&& self@.text_len == len_of(self@.children, self@.children.len() as int)
        &&& self.offsets_stored()
        &&& forall|i: int| 0 <= i < self@.children.len() ==> (#[trigger] self@.children[i]).wf()
    }

    /// Each child is stored with its distance from the start of the node.
    pub closed spec fn offsets_stored(self) -> bool {
        forall|i: int|
            0 <= i < self.children@.len() ==> (#[trigger] self.children@[i]).rel_offset.raw
                == len_of(self@.children, i)
    }

    pub proof fn lemma_children_smaller(self)
        ensures
            forall|i: int|
                0 <= i < self@.children.len() ==> decreases_to!(self => #[trigger] self@.children[i]),
    {
        assert forall|i: int| 0 <= i < self@.children.len() implies decreases_to!(
            self => #[trigger] self@.children[i]) by {
            let child = self.children@[i];
            assert(decreases_to!(self => self.children));
            assert(decreases_to!(self.children => self.children@));
            assert(decreases_to!(self.children@ => child));
            assert(decreases_to!(child => child.element));
        }
    }

    pub fn kind(&self) -> (kind: SyntaxKind)
        ensures
            kind == self@.kind,
    {
        self.kind
    }

    /// The length of the text of all the children, in bytes.
    pub fn text_len(&self) -> (len: TextSize)
        ensures
            len.raw == self@.text_len,
    {
        self.text_len
    }

    /// The number of children.
    pub fn child_count(&self) -> (count: usize)
        ensures
            count == self@.children.len(),
    {
        self.children.len()
    }

    /// The child with the given index.
    pub fn child(&self, index: usize) -> (child: GreenElementRef<'_>)
        requires
            index < self@.children.len(),
        ensures
            child == self@.children[index as int].borrowed(),
    {
        self.children[index].element.borrow_element()
    }

    /// A node of the same kind with the same children, but for the one with the given index.
    pub fn replace_child(&self, index: usize, new_child: GreenElement) -> (node: GreenNode)
        requires
            self.wf(),
            index < self@.children.len(),
            new_child.wf(),
            self@.text_len - self@.children[index as int].len() + new_child.len() <= u32::MAX,
        ensures
            node.wf(),
            node@.kind == self@.kind,
            node@.children == self@.children.update(index as int, new_child),
            node@.text_len == self@.text_len - self@.children[index as int].len() + new_child.len(),
    {
        let ghost updated = self@.children.update(index as int, new_child);
        let mut replacement: Option<GreenElement> = Some(new_child);
        let mut children: Vec<GreenElement> = Vec::new();
        for i in 0..self.children.len()
            invariant
                self@.children.len() == self.children@.len(),
                index < self@.children.len(),
                updated == self@.children.update(index as int, new_child),
                i <= index ==> replacement == Some(new_child),
                children@ == updated.take(i as int),
        {
            if i == index {
                if let Some(element) = replacement {
                    children.push(element);
                }
                replacement = None;
            } else {
                children.push(self.child(i).cloned());
            }
            assert(updated.take(i + 1) == updated.take(i as int).push(updated[i as int]));
        }
        assert(children@ == updated);
        proof {
            lemma_len_of_update(self@.children, index as int, new_child, updated.len() as int);
        }
        GreenNode::new(self.kind, children)
    }

    /// The child within which `range` lies, with its index and its distance from the start of the
    /// node. `range` is counted from the start of the node too.
    ///
    /// An empty range may touch several children. It lies within the last of those that end
    /// there; where none ends there, within the one that goes on.
    pub fn child_at_range(&self, range: TextRange) -> (found: Option<
        (usize, TextSize, GreenElementRef<'_>),
    >)
        requires
            self.wf(),
            range.wf(),
        ensures
            match found {
                Some((index, offset, child)) => {
                    &&& is_child_at(
                        self@.children,
                        range.start.raw as int,
                        range.end.raw as int,
                        index as int,
                    )
                    &&& offset.raw == len_of(self@.children, index as int)
                    &&& child == self@.children[index as int].borrowed()
                },
                None => covers_none(
                    self@.children,
                    range.start.raw as int,
                    range.end.raw as int,
                ),
            },
    {
        let ghost children = self@.children;
        let count = self.children.len();
        // All children before `low` end at or before the start of the range, none from `high` on.
        let mut low: usize = 0;
        let mut high: usize = count;
        while low < high
            invariant
                self.wf(),
                children == self@.children,
                count == children.len(),
                low <= high <= count,
                forall|j: int| 0 <= j < low ==> #[trigger] len_of(children, j + 1) <= range.start.raw,
                forall|j: int|
                    high <= j < count ==> #[trigger] len_of(children, j + 1) > range.start.raw,
            decreases high - low,
        {
            let middle = low + (high - low) / 2;
            let end = self.child_range(middle).end();
            if end.raw <= range.start.raw {
                assert forall|j: int| 0 <= j < middle + 1 implies #[trigger] len_of(children, j + 1)
                    <= range.start.raw by {
                    lemma_len_of_monotonic(children, j + 1, middle + 1);
                }
                low = middle + 1;
            } else {
                assert forall|j: int| middle <= j < count implies #[trigger] len_of(children, j + 1)
                    > range.start.raw by {
                    lemma_len_of_monotonic(children, middle + 1, j + 1);
                }
                high = middle;
            }
        }
        let index = if low < count && self.child_range(low).start().raw < range.end.raw {
            low
        } else if low > 0 {
            low - 1
        } else {
            low
        };
        assert forall|j: int, k: int| 0 <= j <= k <= count implies #[trigger] len_of(children, j)
            <= #[trigger] len_of(children, k) by {
            lemma_len_of_monotonic(children, j, k);
        }
        assert(low < count ==> len_of(children, low + 1) > range.start.raw);
        assert(low > 0 ==> len_of(children, (low - 1) + 1) <= range.start.raw);
        if index < count && self.child_range(index).contains_range(range) {
            Some((index, self.child_range(index).start(), self.child(index)))
        } else {
            None
        }
    }

    /// The range of a child, counted from the start of the node.
    fn child_range(&self, index: usize) -> (range: TextRange)
        requires
            self.wf(),
            index < self@.children.len(),
        ensures
            range.start.raw == len_of(self@.children, index as int),
            range.end.raw == len_of(self@.children, index + 1),
    {
        let child = &self.children[index];
        proof {
            lemma_len_of_monotonic(self@.children, index + 1, self@.children.len() as int);
            assert(self@.children[index as int].wf());
        }
        TextRange::at(child.rel_offset, child.element.borrow_element().text_len())
    }
}

/// The text from `start` to `end` lies within the child with the given index. Both are counted from
/// the start of the first child.
pub open spec fn covers(children: Seq<GreenElement>, start: int, end: int, index: int) -> bool {
    len_of(children, index) <= start && end <= len_of(children, index + 1)
}

/// The text from `start` to `end` lies within none of the children.
pub open spec fn covers_none(children: Seq<GreenElement>, start: int, end: int) -> bool {
    forall|i: int| 0 <= i < children.len() ==> !#[trigger] covers(children, start, end, i)
}

/// The child with the given index is the one that [`GreenNodeData::child_at_range`] finds: of all
/// within which the text from `start` to `end` lies, the last that does not reach beyond `start`,
/// and where each does, the only one.
pub open spec fn is_child_at(
    children: Seq<GreenElement>,
    start: int,
    end: int,
    index: int,
) -> bool {
    &&& 0 <= index < children.len()
    &&& covers(children, start, end, index)
    &&& forall|j: int|
        index < j < children.len() && #[trigger] covers(children, start, end, j) ==> start < len_of(
            children,
            j + 1,
        )
    &&& start < len_of(children, index + 1) ==> forall|j: int|
        0 <= j < index ==> !covers(children, start, end, j)
}

/// More children are not shorter.
pub proof fn lemma_len_of_monotonic(children: Seq<GreenElement>, few: int, many: int)
    requires
        0 <= few <= many <= children.len(),
    ensures
        len_of(children, few) <= len_of(children, many),
    decreases many - few,
{
    if few < many {
        lemma_len_of_monotonic(children, few, many - 1);
    }
}

/// Replacing one child changes the length by the difference of the two.
pub proof fn lemma_len_of_update(
    children: Seq<GreenElement>,
    index: int,
    element: GreenElement,
    count: int,
)
    requires
        0 <= index < children.len(),
        0 <= count <= children.len(),
    ensures
        index < count ==> len_of(children.update(index, element), count) == len_of(children, count)
            - children[index].len() + element.len(),
        count <= index ==> len_of(children.update(index, element), count) == len_of(children, count),
    decreases count,
{
    if count > 0 {
        lemma_len_of_update(children, index, element, count - 1);
    }
}

} // verus!
