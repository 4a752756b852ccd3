//! Cursors: nodes and tokens of a green tree that know their parents and their offsets.

use std::hash::{Hash, Hasher};
use std::rc::Rc;

use countme::Count;
use vstd::prelude::*;
use vstd::std_specs::cmp::PartialEqSpecImpl;
use vstd::std_specs::convert::FromSpecImpl;

use crate::children::{filter_nodes, ElementWalk};
use crate::children::{lemma_tokens_ahead_from, lemma_tokens_ahead_to};
use crate::green::len_of;
use crate::green::{GreenElement, GreenElementRef, GreenNode, GreenNodeData, GreenToken, SyntaxKind};
use crate::place::{lemma_node_before, lemma_node_from, Place};
use crate::text_size::{TextRange, TextSize};
use crate::utility_types::{Direction, NodeOrToken, TokenAtOffset};
use crate::walk::{ends_at, lemma_is_under};

verus! {

/// A node of a syntax tree, at its place in the tree. Clones are cheap.
///
/// Nodes are compared by identity: two are equal if they are of one green node, shared and not
/// merely alike, at one offset.
pub struct SyntaxNode {
    data: Rc<NodeData>,
}

struct NodeData {
    parent: Option<SyntaxNode>,
    index: u32,
    offset: TextSize,
    green: GreenNode,
    _c: LiveCount,
}

/// `countme::Count` of nodes: as long as the value is there, one node is counted as alive in the
/// table that the crate keeps. The value itself holds nothing, so nothing is claimed of it.
///
/// It is opaque because a node holds it: seen through, [`SyntaxNode`] would be a parameter of a type
/// within its own definition.
#[verifier::external_body]
struct LiveCount {
    _c: Count<SyntaxNode>,
}

/// `countme::Count::new` adds one to the count of nodes; dropping the value takes it off again. The
/// table is not part of the value, so nothing is claimed.
#[verifier::external_body]
fn count_node() -> LiveCount {
    LiveCount { _c: Count::new() }
}

/// By what nodes are compared.
#[derive(Debug, Clone, Copy, PartialEq, Eq, Structural, Hash)]
pub struct NodeKey {
    /// The address of the green node, which all clones of it have in common.
    pub address: usize,
    pub offset: TextSize,
}

/// A token of a syntax tree, at its place in the tree.
///
/// Tokens are compared by their parents, compared as nodes, and by index and offset.
#[derive(Hash)]
pub struct SyntaxToken {
    parent: SyntaxNode,
    index: u32,
    offset: TextSize,
}

/// A node or a token of a syntax tree.
pub type SyntaxElement = NodeOrToken<SyntaxNode, SyntaxToken>;

impl View for SyntaxNode {
    type V = Place;

    closed spec fn view(&self) -> Place {
        Place { root: self.root_green(), path: self.path() }
    }
}

impl View for SyntaxToken {
    type V = Place;

    closed spec fn view(&self) -> Place {
        self.parent@.child(self.index as int)
    }
}

impl View for SyntaxElement {
    type V = Place;

    open spec fn view(&self) -> Place {
        match self {
            NodeOrToken::Node(node) => node@,
            NodeOrToken::Token(token) => token@,
        }
    }
}

/// `found` is the node at `place`, or there is neither.
pub open spec fn node_found(found: Option<SyntaxNode>, place: Option<Place>) -> bool {
    match found {
        Some(node) => node.wf() && place == Some(node@),
        None => place is None,
    }
}

/// `found` is the token at `place`, or there is neither.
pub open spec fn token_found(found: Option<SyntaxToken>, place: Option<Place>) -> bool {
    match found {
        Some(token) => token.wf() && place == Some(token@),
        None => place is None,
    }
}

/// `found` is the element at `place`, or there is neither.
pub open spec fn element_found(found: Option<SyntaxElement>, place: Option<Place>) -> bool {
    match found {
        Some(element) => element.wf() && place == Some(element@),
        None => place is None,
    }
}

/// The nodes stand at the places, one for one.
pub open spec fn nodes_found(found: Seq<SyntaxNode>, places: Seq<Place>) -> bool {
    &&& found.len() == places.len()
    &&& forall|i: int| 0 <= i < found.len() ==> (#[trigger] found[i]).wf() && found[i]@ == places[i]
}

/// The elements stand at the places, one for one.
pub open spec fn elements_found(found: Seq<SyntaxElement>, places: Seq<Place>) -> bool {
    &&& found.len() == places.len()
    &&& forall|i: int| 0 <= i < found.len() ==> (#[trigger] found[i]).wf() && found[i]@ == places[i]
}

/// The tokens stand at the places, one for one.
pub open spec fn tokens_found(
    found: TokenAtOffset<SyntaxToken>,
    places: TokenAtOffset<Place>,
) -> bool {
    &&& found@ == places
    &&& match found {
        TokenAtOffset::Empty => true,
        TokenAtOffset::Single(token) => token.wf(),
        TokenAtOffset::Between(left, right) => left.wf() && right.wf(),
    }
}

impl Clone for SyntaxNode {
    fn clone(&self) -> (copy: SyntaxNode)
        ensures
            copy == *self,
    {
        SyntaxNode { data: self.data.clone() }
    }
}

impl Clone for SyntaxToken {
    fn clone(&self) -> (copy: SyntaxToken)
        ensures
            copy == *self,
    {
        SyntaxToken { parent: self.parent.clone(), index: self.index, offset: self.offset }
    }
}

/// `Rc::get_mut`: a reference to the value if no other pointer shares it. It does not unwind.
#[verifier::external_body]
fn sole_owner(data: &mut Rc<NodeData>) -> (sole: Option<&mut NodeData>)
    ensures
        match sole {
            Some(value) => *value == **old(data) && **final(data) == *final(value),
            None => *final(data) == *old(data),
        },
    opens_invariants none
    no_unwind
{
    Rc::get_mut(data)
}

impl NodeData {
    /// Nothing above the node is held any more.
    pub closed spec fn detached(&self) -> bool {
        self.parent is None
    }

    /// Cuts the node off from its parent.
    fn take_parent(&mut self) -> (above: Option<SyntaxNode>)
        ensures
            above == old(self).parent,
            final(self).detached(),
            final(self).index == old(self).index,
            final(self).offset == old(self).offset,
            final(self).green == old(self).green,
        opens_invariants none
        no_unwind
    {
        let mut above: Option<SyntaxNode> = None;
        core::mem::swap(&mut above, &mut self.parent);
        above
    }
}

/// Lets go of a node, and of all above it that nothing else holds. It takes them apart one by one:
/// a chain of parents may be too long to be dropped by recursion.
fn free(parent: &mut Option<SyntaxNode>)
    ensures
        *final(parent) is None,
    opens_invariants none
    no_unwind
{
    let mut next: Option<SyntaxNode> = None;
    core::mem::swap(&mut next, parent);
    loop
        invariant
            *parent is None,
        decreases next,
    {
        let ghost this = next;
        match next {
            Some(mut node) => {
                match sole_owner(&mut node.data) {
                    Some(data) => {
                        next = data.take_parent();
                        assert(decreases_to!(this => next));
                    },
                    None => {
                        break;
                    },
                }
            },
            None => {
                break;
            },
        }
    }
}

impl Drop for NodeData {
    fn drop(&mut self)
        ensures
            final(self).detached(),
        opens_invariants none
        no_unwind
    {
        free(&mut self.parent);
    }
}

impl PartialEq for SyntaxNode {
    fn eq(&self, other: &SyntaxNode) -> (equal: bool) {
        self.key() == other.key()
    }
}

impl PartialEqSpecImpl for SyntaxNode {
    open spec fn obeys_eq_spec() -> bool {
        true
    }

    open spec fn eq_spec(&self, other: &SyntaxNode) -> bool {
        self.identity() == other.identity()
    }
}

impl Eq for SyntaxNode {

}

impl PartialEq for SyntaxToken {
    fn eq(&self, other: &SyntaxToken) -> (equal: bool) {
        self.parent == other.parent && self.index == other.index && self.offset == other.offset
    }
}

impl PartialEqSpecImpl for SyntaxToken {
    open spec fn obeys_eq_spec() -> bool {
        true
    }

    open spec fn eq_spec(&self, other: &SyntaxToken) -> bool {
        self.identity() == other.identity()
    }
}

impl Eq for SyntaxToken {

}

/// `Hash::hash` of a pair of integers, which feeds both to the hasher. What a hasher makes of them
/// is up to it, so nothing is claimed.
#[verifier::external_body]
fn hash_key<H: Hasher>(key: (usize, u32), state: &mut H) {
    key.hash(state)
}

impl Hash for SyntaxNode {
    fn hash<H: Hasher>(&self, state: &mut H) {
        let key = self.key();
        hash_key((key.address, key.offset.raw), state)
    }
}

impl From<SyntaxNode> for SyntaxElement {
    fn from(node: SyntaxNode) -> (element: SyntaxElement) {
        NodeOrToken::Node(node)
    }
}

impl FromSpecImpl<SyntaxNode> for SyntaxElement {
    open spec fn obeys_from_spec() -> bool {
        true
    }

    open spec fn from_spec(node: SyntaxNode) -> SyntaxElement {
        NodeOrToken::Node(node)
    }
}

impl From<SyntaxToken> for SyntaxElement {
    fn from(token: SyntaxToken) -> (element: SyntaxElement) {
        NodeOrToken::Token(token)
    }
}

impl FromSpecImpl<SyntaxToken> for SyntaxElement {
    open spec fn obeys_from_spec() -> bool {
        true
    }

    open spec fn from_spec(token: SyntaxToken) -> SyntaxElement {
        NodeOrToken::Token(token)
    }
}

impl SyntaxNode {
    spec fn root_green(self) -> GreenNode
        decreases self,
    {
        match self.data.parent {
            Some(parent) => parent.root_green(),
            None => self.data.green,
        }
    }

    spec fn path(self) -> Seq<int>
        decreases self,
    {
        match self.data.parent {
            Some(parent) => parent.path().push(self.data.index as int),
            None => Seq::empty(),
        }
    }

    /// What is stored agrees with the place, here and in all nodes above.
    pub closed spec fn consistent(self) -> bool
        decreases self,
    {
        &&& self@.element() == Some(GreenElement::Node(self.data.green))
        &&& self.data.offset.raw == self@.start()
        &&& match self.data.parent {
            Some(parent) => parent.consistent(),
            None => true,
        }
    }

    pub open spec fn wf(self) -> bool {
        self.consistent() && self@.is_node()
    }

    /// By what nodes are compared.
    pub closed spec fn identity(self) -> NodeKey {
        NodeKey { address: self.data.green.spec_address(), offset: self.data.offset }
    }

    /// The identity of a node is that of its place.
    pub proof fn lemma_identity(self)
        requires
            self.wf(),
        ensures
            self.identity().address == self@.node().spec_address(),
            self.identity().offset.raw == self@.start(),
    {
    }

    proof fn lemma_parent_node(self)
        requires
            self.wf(),
        ensures
            match self.data.parent {
                Some(parent) => {
                    &&& parent.wf()
                    &&& !self@.is_root()
                    &&& parent@ == self@.parent()
                    &&& self@ == parent@.child(self.data.index as int)
                    &&& self.data.index == self@.index()
                    &&& self.data.index < parent@.children().len() <= u32::MAX
                },
                None => self@.is_root(),
            },
    {
        self@.lemma_bounds();
        if let Some(parent) = self.data.parent {
            assert(parent@ =~= self@.parent());
        }
    }

    /// The node at the root of `green`.
    pub fn new_root(green: GreenNode) -> (root: SyntaxNode)
        requires
            green.wf(),
        ensures
            root.wf(),
            root@ == (Place { root: green, path: Seq::empty() }),
    {
        let data = NodeData {
            parent: None,
            index: 0,
            offset: TextSize { raw: 0 },
            green,
            _c: count_node(),
        };
        SyntaxNode { data: Rc::new(data) }
    }

    fn new_child(
        green: &GreenNode,
        parent: SyntaxNode,
        index: u32,
        offset: TextSize,
    ) -> (child: SyntaxNode)
        requires
            parent.wf(),
            index < parent@.children().len(),
            parent@.children()[index as int] == GreenElement::Node(*green),
            offset.raw == parent@.child(index as int).start(),
        ensures
            child.wf(),
            child@ == parent@.child(index as int),
    {
        proof {
            parent@.lemma_child(index as int);
        }
        let ghost place = parent@.child(index as int);
        let data = NodeData {
            parent: Some(parent),
            index,
            offset,
            green: green.clone(),
            _c: count_node(),
        };
        let child = SyntaxNode { data: Rc::new(data) };
        assert(child@ =~= place);
        child
    }

    /// By what nodes are compared.
    pub fn key(&self) -> (key: NodeKey)
        ensures
            key == self.identity(),
    {
        NodeKey { address: self.data.green.address(), offset: self.data.offset }
    }

    /// The green tree with `replacement` in place of this node. It must be of the same kind.
    pub fn replace_with(&self, replacement: GreenNode) -> (root: GreenNode)
        requires
            self.wf(),
            replacement.wf(),
            replacement@.kind == self@.kind(),
            self@.root@.text_len - self@.len() + replacement@.text_len <= u32::MAX,
        ensures
            root.wf(),
            self@.replaced(GreenElement::Node(replacement), root),
            root@.kind == self@.root@.kind,
            root@.text_len == self@.root@.text_len - self@.len() + replacement@.text_len,
        decreases self,
    {
        proof {
            self.lemma_parent_node();
        }
        match &self.data.parent {
            None => replacement,
            Some(parent) => {
                let ghost new = GreenElement::Node(replacement);
                proof {
                    parent@.lemma_child(self.data.index as int);
                    parent@.lemma_bounds();
                }
                let new_parent = parent.green().replace_child(
                    self.data.index as usize,
                    NodeOrToken::Node(replacement),
                );
                let root = parent.replace_with(new_parent);
                proof {
                    self@.lemma_replaced_through_parent(new, new_parent, root);
                }
                root
            },
        }
    }

    /// What the node stands for.
    pub fn kind(&self) -> (kind: SyntaxKind)
        requires
            self.wf(),
        ensures
            kind == self@.kind(),
    {
        self.green().kind()
    }

    /// The range of the node in the text of the whole tree.
    pub fn text_range(&self) -> (range: TextRange)
        requires
            self.wf(),
        ensures
            range.wf(),
            range.start.raw == self@.start(),
            range.end.raw == self@.end(),
    {
        proof {
            self@.lemma_bounds();
        }
        TextRange::at(self.data.offset, self.green().text_len())
    }

    /// The green node of which this is a cursor.
    pub fn green(&self) -> (green: &GreenNodeData)
        requires
            self.wf(),
        ensures
            *green == self@.node().data(),
    {
        &self.data.green
    }

    /// The node of which this is a child.
    pub fn parent(&self) -> (parent: Option<SyntaxNode>)
        requires
            self.wf(),
        ensures
            node_found(parent, if self@.is_root() { None } else { Some(self@.parent()) }),
    {
        proof {
            self.lemma_parent_node();
        }
        match &self.data.parent {
            Some(parent) => Some(parent.clone()),
            None => None,
        }
    }

    /// The first child that is a node.
    pub fn first_child(&self) -> (child: Option<SyntaxNode>)
        requires
            self.wf(),
        ensures
            node_found(child, self@.first_node()),
    {
        let start = self.text_range().start();
        proof {
            self@.lemma_bounds();
            lemma_tokens_ahead_from(self@.children(), 0, start.raw as int);
            lemma_node_from(self@.children(), 0);
        }
        let mut nodes = filter_nodes(self.green().children_from(0, start));
        match nodes.next() {
            Some((node, (index, offset))) => {
                proof {
                    self@.lemma_child(index as int);
                    self@.child(index as int).lemma_bounds();
                }
                Some(SyntaxNode::new_child(node, self.clone(), index as u32, offset))
            },
            None => None,
        }
    }

    /// The first child.
    pub fn first_child_or_token(&self) -> (child: Option<SyntaxElement>)
        requires
            self.wf(),
        ensures
            element_found(child, self@.child_at(0)),
    {
        let start = self.text_range().start();
        proof {
            self@.lemma_bounds();
        }
        match self.green().children_from(0, start).next() {
            Some((element, (index, offset))) => {
                proof {
                    self@.lemma_child(index as int);
                    self@.child(index as int).lemma_bounds();
                }
                Some(SyntaxElement::new(element, self.clone(), index as u32, offset))
            },
            None => None,
        }
    }

    /// The last child that is a node.
    pub fn last_child(&self) -> (child: Option<SyntaxNode>)
        requires
            self.wf(),
        ensures
            node_found(child, self@.last_node()),
    {
        let count = self.green().child_count();
        let end = self.text_range().end();
        proof {
            self@.lemma_bounds();
            lemma_tokens_ahead_to(self@.children(), count as int, count as int, end.raw as int);
            lemma_node_before(self@.children(), count as int);
        }
        let mut nodes = filter_nodes(self.green().children_to(count, end));
        match nodes.next() {
            Some((node, (index, offset))) => {
                proof {
                    self@.lemma_child(index as int);
                    self@.child(index as int).lemma_bounds();
                }
                Some(SyntaxNode::new_child(node, self.clone(), index as u32, offset))
            },
            None => None,
        }
    }

    /// The last child.
    pub fn last_child_or_token(&self) -> (child: Option<SyntaxElement>)
        requires
            self.wf(),
        ensures
            element_found(child, self@.child_at(self@.children().len() - 1)),
    {
        let count = self.green().child_count();
        let end = self.text_range().end();
        proof {
            self@.lemma_bounds();
        }
        match self.green().children_to(count, end).next() {
            Some((element, (index, offset))) => {
                proof {
                    self@.lemma_child(index as int);
                    self@.child(index as int).lemma_bounds();
                }
                Some(SyntaxElement::new(element, self.clone(), index as u32, offset))
            },
            None => None,
        }
    }

    /// The nearest sibling after this node that is a node.
    pub fn next_sibling(&self) -> (sibling: Option<SyntaxNode>)
        requires
            self.wf(),
        ensures
            node_found(sibling, self@.next_node()),
    {
        proof {
            self.lemma_parent_node();
        }
        let parent = match &self.data.parent {
            Some(parent) => parent,
            None => return None,
        };
        let end = self.text_range().end();
        let start_index = (self.data.index + 1) as usize;
        proof {
            parent@.lemma_child(self.data.index as int);
            parent@.lemma_bounds();
            lemma_tokens_ahead_from(parent@.children(), start_index as int, end.raw as int);
            lemma_node_from(parent@.children(), start_index as int);
        }
        let mut nodes = filter_nodes(parent.green().children_from(start_index, end));
        match nodes.next() {
            Some((node, (index, offset))) => {
                proof {
                    parent@.lemma_child(index as int);
                    parent@.child(index as int).lemma_bounds();
                }
                Some(SyntaxNode::new_child(node, parent.clone(), index as u32, offset))
            },
            None => None,
        }
    }

    /// The sibling right after this one.
    pub fn next_sibling_or_token(&self) -> (sibling: Option<SyntaxElement>)
        requires
            self.wf(),
        ensures
            element_found(sibling, self@.next()),
    {
        proof {
            self.lemma_parent_node();
        }
        match &self.data.parent {
            Some(parent) => {
                let end = self.text_range().end();
                proof {
                    parent@.lemma_child(self.data.index as int);
                }
                parent.element_after(self.data.index, end)
            },
            None => None,
        }
    }

    /// The nearest sibling before this node that is a node.
    pub fn prev_sibling(&self) -> (sibling: Option<SyntaxNode>)
        requires
            self.wf(),
        ensures
            node_found(sibling, self@.prev_node()),
    {
        proof {
            self.lemma_parent_node();
        }
        let parent = match &self.data.parent {
            Some(parent) => parent,
            None => return None,
        };
        let start = self.text_range().start();
        let end_index = self.data.index as usize;
        proof {
            parent@.lemma_child(self.data.index as int);
            parent@.lemma_bounds();
            lemma_tokens_ahead_to(
                parent@.children(),
                end_index as int,
                end_index as int,
                start.raw as int,
            );
            lemma_node_before(parent@.children(), end_index as int);
        }
        let mut nodes = filter_nodes(parent.green().children_to(end_index, start));
        match nodes.next() {
            Some((node, (index, offset))) => {
                proof {
                    parent@.lemma_child(index as int);
                    parent@.child(index as int).lemma_bounds();
                }
                Some(SyntaxNode::new_child(node, parent.clone(), index as u32, offset))
            },
            None => None,
        }
    }

    /// The sibling right before this one.
    pub fn prev_sibling_or_token(&self) -> (sibling: Option<SyntaxElement>)
        requires
            self.wf(),
        ensures
            element_found(sibling, self@.prev()),
    {
        proof {
            self.lemma_parent_node();
        }
        match &self.data.parent {
            Some(parent) => {
                let start = self.text_range().start();
                proof {
                    parent@.lemma_child(self.data.index as int);
                }
                parent.element_before(self.data.index, start)
            },
            None => None,
        }
    }

    /// The child right after the one with the given index, which ends at `end`.
    fn element_after(&self, index: u32, end: TextSize) -> (element: Option<SyntaxElement>)
        requires
            self.wf(),
            index < self@.children().len(),
            end.raw == self@.child(index as int).end(),
        ensures
            element_found(element, self@.child_at(index + 1)),
    {
        proof {
            self@.lemma_child(index as int);
            self@.lemma_bounds();
        }
        match self.green().children_from((index + 1) as usize, end).next() {
            Some((element, (index, offset))) => {
                proof {
                    self@.lemma_child(index as int);
                    self@.child(index as int).lemma_bounds();
                }
                Some(SyntaxElement::new(element, self.clone(), index as u32, offset))
            },
            None => None,
        }
    }

    /// The child right before the one with the given index, which starts at `start`.
    fn element_before(&self, index: u32, start: TextSize) -> (element: Option<SyntaxElement>)
        requires
            self.wf(),
            index < self@.children().len(),
            start.raw == self@.child(index as int).start(),
        ensures
            element_found(element, self@.child_at(index - 1)),
    {
        proof {
            self@.lemma_child(index as int);
            self@.lemma_bounds();
        }
        match self.green().children_to(index as usize, start).next() {
            Some((element, (index, offset))) => {
                proof {
                    self@.lemma_child(index as int);
                    self@.child(index as int).lemma_bounds();
                }
                Some(SyntaxElement::new(element, self.clone(), index as u32, offset))
            },
            None => None,
        }
    }

    /// The token that is reached by going down along first children. There is none if that ends at
    /// a node without children.
    pub fn first_token(&self) -> (token: Option<SyntaxToken>)
        requires
            self.wf(),
        ensures
            token_found(token, self@.leftmost()),
        decreases self@.element()->0, 0int,
    {
        match self.first_child_or_token() {
            Some(element) => {
                proof {
                    self@.lemma_child(0);
                }
                element.first_token()
            },
            None => None,
        }
    }

    /// The token that is reached by going down along last children. There is none if that ends at
    /// a node without children.
    pub fn last_token(&self) -> (token: Option<SyntaxToken>)
        requires
            self.wf(),
        ensures
            token_found(token, self@.rightmost()),
        decreases self@.element()->0, 0int,
    {
        match self.last_child_or_token() {
            Some(element) => {
                proof {
                    self@.lemma_child(self@.children().len() - 1);
                }
                element.last_token()
            },
            None => None,
        }
    }
}

impl SyntaxNode {
    /// This node and all above it, up to the root.
    pub fn ancestors(&self) -> (ancestors: Vec<SyntaxNode>)
        requires
            self.wf(),
        ensures
            nodes_found(ancestors@, self@.ancestors()),
    {
        let mut ancestors: Vec<SyntaxNode> = Vec::new();
        let mut node = self.clone();
        assert(self@.ancestor(0) =~= self@);
        loop
            invariant
                node.wf(),
                ancestors@.len() + node@.path.len() == self@.path.len(),
                node@ == self@.ancestor(ancestors@.len() as int),
                nodes_found(ancestors@, self@.ancestors().take(ancestors@.len() as int)),
            decreases node@.path.len(),
        {
            let parent = node.parent();
            ancestors.push(node);
            match parent {
                Some(parent) => {
                    assert(parent@ =~= self@.ancestor(ancestors@.len() as int));
                    node = parent;
                },
                None => {
                    return ancestors;
                },
            }
        }
    }

    /// This node and all siblings that are nodes in the given direction, the nearest first.
    pub fn siblings(&self, direction: Direction) -> (siblings: Vec<SyntaxNode>)
        requires
            self.wf(),
        ensures
            nodes_found(
                siblings@,
                match direction {
                    Direction::Next => self@.node_siblings_after(),
                    Direction::Prev => self@.node_siblings_before(),
                },
            ),
    {
        let mut siblings: Vec<SyntaxNode> = Vec::new();
        let mut node = self.clone();
        let ghost mut done: Seq<Place> = Seq::empty();
        match direction {
            Direction::Next => {
                loop
                    invariant
                        direction is Next,
                        node.wf(),
                        nodes_found(siblings@, done),
                        self@.node_siblings_after() =~= done + node@.node_siblings_after(),
                    decreases node@.node_siblings_after().len(),
                {
                    proof {
                        node@.lemma_node_siblings();
                        done = done.push(node@);
                    }
                    let next = node.next_sibling();
                    siblings.push(node);
                    match next {
                        Some(next) => {
                            node = next;
                        },
                        None => {
                            return siblings;
                        },
                    }
                }
            },
            Direction::Prev => {
                loop
                    invariant
                        direction is Prev,
                        node.wf(),
                        nodes_found(siblings@, done),
                        self@.node_siblings_before() =~= done + node@.node_siblings_before(),
                    decreases node@.node_siblings_before().len(),
                {
                    proof {
                        node@.lemma_node_siblings();
                        done = done.push(node@);
                    }
                    let prev = node.prev_sibling();
                    siblings.push(node);
                    match prev {
                        Some(prev) => {
                            node = prev;
                        },
                        None => {
                            return siblings;
                        },
                    }
                }
            },
        }
    }

    /// This node and all siblings in the given direction, the nearest first.
    pub fn siblings_with_tokens(&self, direction: Direction) -> (siblings: Vec<SyntaxElement>)
        requires
            self.wf(),
        ensures
            elements_found(
                siblings@,
                match direction {
                    Direction::Next => self@.siblings_after(),
                    Direction::Prev => self@.siblings_before(),
                },
            ),
    {
        SyntaxElement::siblings_of(NodeOrToken::Node(self.clone()), direction)
    }

    /// Whether both paths from the root are the same.
    fn has_path_of(&self, other: &SyntaxNode) -> (same: bool)
        requires
            self.wf(),
            other.wf(),
        ensures
            same == (self@.path == other@.path),
    {
        let mut a = self;
        let mut b = other;
        loop
            invariant
                a.wf(),
                b.wf(),
                (self@.path == other@.path) == (a@.path == b@.path),
            decreases a@.path.len(),
        {
            proof {
                a.lemma_parent_node();
                b.lemma_parent_node();
            }
            match (&a.data.parent, &b.data.parent) {
                (Some(p), Some(q)) => {
                    if a.data.index != b.data.index {
                        return false;
                    }
                    assert(a@.path =~= p@.path.push(a.data.index as int));
                    assert(b@.path =~= q@.path.push(b.data.index as int));
                    assert(a@.path.drop_last() =~= p@.path);
                    assert(b@.path.drop_last() =~= q@.path);
                    a = p;
                    b = q;
                },
                (None, None) => {
                    return true;
                },
                _ => {
                    return false;
                },
            }
        }
    }

    /// Whether this node is at the place of another of the same tree. Being equal does not say so:
    /// an empty green node may occur twice at one offset.
    pub(crate) fn is_at(&self, other: &SyntaxNode) -> (same: bool)
        requires
            self.wf(),
            other.wf(),
            self@.root == other@.root,
        ensures
            same == (self@ == other@),
    {
        proof {
            self.lemma_identity();
            other.lemma_identity();
            if self@.path == other@.path {
                assert(self@ =~= other@);
            }
        }
        self == other && self.has_path_of(other)
    }

    /// Whether this node is `top` or below it, in the same tree.
    fn is_under(&self, top: &SyntaxNode) -> (under: bool)
        requires
            self.wf(),
            top.wf(),
            self@.root == top@.root,
        ensures
            under == self@.is_under(top@),
    {
        let mut node = self;
        loop
            invariant
                node.wf(),
                top.wf(),
                node@.root == top@.root,
                self@.is_under(top@) == node@.is_under(top@),
            decreases node@.path.len(),
        {
            if node.has_path_of(top) {
                return true;
            }
            proof {
                node.lemma_parent_node();
                if node@.is_under(top@) {
                    lemma_is_under(node@, top@);
                }
            }
            match &node.data.parent {
                Some(parent) => {
                    proof {
                        if parent@.is_under(top@) {
                            lemma_is_under(parent@, top@);
                        }
                    }
                    node = parent;
                },
                None => {
                    return false;
                },
            }
        }
    }

    /// Whether a walk under `top` to nodes ends when it leaves this node.
    pub(crate) fn ends_walk_under(&self, top: &SyntaxNode) -> (ends: bool)
        requires
            self.wf(),
            top.wf(),
            self@.root == top@.root,
        ensures
            ends == ends_at(top@, self@),
    {
        proof {
            self.lemma_identity();
            top.lemma_identity();
            if self@.path == top@.path {
                assert(self@ =~= top@);
            }
        }
        self == top && (self.has_path_of(top) || !self.is_under(top))
    }

    /// The child to look for `range` in.
    pub fn child_or_token_at_range(&self, range: TextRange) -> (child: Option<SyntaxElement>)
        requires
            self.wf(),
            range.wf(),
            self@.start() <= range.start.raw,
        ensures
            element_found(child, self@.child_for(range)),
    {
        let start_offset = self.text_range().start();
        proof {
            self@.lemma_bounds();
            self@.lemma_picks_one(range);
            self@.lemma_child_for(
                range,
                range.start.raw - start_offset.raw,
                range.end.raw - start_offset.raw,
            );
        }
        match self.green().child_at_range(range.relative_to(start_offset)) {
            Some((index, offset, child)) => {
                proof {
                    self@.lemma_child(index as int);
                    self@.child(index as int).lemma_bounds();
                    assert(self@.picks(range, index as int));
                }
                let offset = TextSize { raw: offset.raw + start_offset.raw };
                Some(SyntaxElement::new(child, self.clone(), index as u32, offset))
            },
            None => None,
        }
    }

    /// The smallest element that holds `range`.
    pub fn covering_element(&self, range: TextRange) -> (element: SyntaxElement)
        requires
            self.wf(),
            range.wf(),
            self@.holds(range),
        ensures
            element.wf(),
            element@ == self@.covering(range),
    {
        let mut res: SyntaxElement = NodeOrToken::Node(self.clone());
        loop
            invariant
                range.wf(),
                res.wf(),
                res@.holds(range),
                self@.covering(range) == res@.covering(range),
            decreases res@.element()->0,
        {
            let found = match &res {
                NodeOrToken::Token(_) => {
                    return res;
                },
                NodeOrToken::Node(node) => node.child_or_token_at_range(range),
            };
            match found {
                Some(child) => {
                    proof {
                        let i = choose|i: int| res@.picks(range, i);
                        res@.lemma_child(i);
                    }
                    res = child;
                },
                None => {
                    return res;
                },
            }
        }
    }
}

impl SyntaxToken {
    /// What is stored agrees with the place.
    pub closed spec fn consistent(self) -> bool {
        &&& self.parent.wf()
        &&& self.index < self.parent@.children().len()
        &&& self.offset.raw == self@.start()
    }

    pub open spec fn wf(self) -> bool {
        self.consistent() && self@.is_token()
    }

    fn new(parent: SyntaxNode, index: u32, offset: TextSize) -> (token: SyntaxToken)
        requires
            parent.wf(),
            index < parent@.children().len(),
            parent@.children()[index as int] is Token,
            offset.raw == parent@.child(index as int).start(),
        ensures
            token.wf(),
            token@ == parent@.child(index as int),
    {
        proof {
            parent@.lemma_child(index as int);
        }
        SyntaxToken { parent, index, offset }
    }

    /// The green tree with `replacement` in place of this token. It must be of the same kind.
    pub fn replace_with(&self, replacement: GreenToken) -> (root: GreenNode)
        requires
            self.wf(),
            replacement.wf(),
            replacement@.kind == self@.kind(),
            self@.root@.text_len - self@.len() + replacement.bytes().len() <= u32::MAX,
        ensures
            root.wf(),
            self@.replaced(GreenElement::Token(replacement), root),
            root@.kind == self@.root@.kind,
            root@.text_len == self@.root@.text_len - self@.len() + replacement.bytes().len(),
    {
        let ghost new = GreenElement::Token(replacement);
        proof {
            self.lemma_place();
            self.parent@.lemma_bounds();
        }
        let new_parent = self.parent.green().replace_child(
            self.index as usize,
            NodeOrToken::Token(replacement),
        );
        let root = self.parent.replace_with(new_parent);
        proof {
            self@.lemma_replaced_through_parent(new, new_parent, root);
        }
        root
    }

    /// By what tokens are compared.
    pub closed spec fn identity(self) -> (NodeKey, u32, TextSize) {
        (self.parent.identity(), self.index, self.offset)
    }

    /// The identity of a token is that of its place.
    pub proof fn lemma_identity(self)
        requires
            self.wf(),
        ensures
            self.identity().0.address == self@.parent().node().spec_address(),
            self.identity().0.offset.raw == self@.parent().start(),
            self.identity().1 == self@.index(),
            self.identity().2.raw == self@.start(),
    {
        self.lemma_place();
        self.parent.lemma_identity();
    }

    proof fn lemma_place(self)
        requires
            self.wf(),
        ensures
            !self@.is_root(),
            self.parent@ == self@.parent(),
            self.index == self@.index(),
            self.parent@.children()[self.index as int] == GreenElement::Token(self@.token()),
            self@.token().wf(),
            self@.end() <= u32::MAX,
    {
        self.parent@.lemma_child(self.index as int);
        self@.lemma_bounds();
    }

    /// What the token stands for.
    pub fn kind(&self) -> (kind: SyntaxKind)
        requires
            self.wf(),
        ensures
            kind == self@.kind(),
    {
        self.green().kind()
    }

    /// The range of the token in the text of the whole tree.
    pub fn text_range(&self) -> (range: TextRange)
        requires
            self.wf(),
        ensures
            range.wf(),
            range.start.raw == self@.start(),
            range.end.raw == self@.end(),
    {
        proof {
            self.lemma_place();
        }
        TextRange::at(self.offset, self.green().text_len())
    }

    /// The text of the token.
    pub fn text(&self) -> (text: &str)
        requires
            self.wf(),
        ensures
            text@ == self@.token()@.text,
    {
        self.green().text()
    }

    /// The green token of which this is a cursor.
    pub fn green(&self) -> (green: &GreenToken)
        requires
            self.wf(),
        ensures
            *green == self@.token(),
    {
        proof {
            self.lemma_place();
        }
        match self.parent.green().child(self.index as usize) {
            NodeOrToken::Token(token) => token,
            NodeOrToken::Node(_) => vstd::pervasive::unreached(),
        }
    }

    /// The node of which this is a child.
    pub fn parent(&self) -> (parent: SyntaxNode)
        requires
            self.wf(),
        ensures
            parent.wf(),
            !self@.is_root(),
            parent@ == self@.parent(),
    {
        proof {
            self.lemma_place();
        }
        self.parent.clone()
    }

    /// The sibling right after this one.
    pub fn next_sibling_or_token(&self) -> (sibling: Option<SyntaxElement>)
        requires
            self.wf(),
        ensures
            element_found(sibling, self@.next()),
    {
        proof {
            self.lemma_place();
        }
        self.parent.element_after(self.index, self.text_range().end())
    }

    /// The sibling right before this one.
    pub fn prev_sibling_or_token(&self) -> (sibling: Option<SyntaxElement>)
        requires
            self.wf(),
        ensures
            element_found(sibling, self@.prev()),
    {
        proof {
            self.lemma_place();
        }
        self.parent.element_before(self.index, self.text_range().start())
    }

    /// The nodes above this token, up to the root.
    pub fn ancestors(&self) -> (ancestors: Vec<SyntaxNode>)
        requires
            self.wf(),
        ensures
            nodes_found(ancestors@, self@.parent().ancestors()),
    {
        self.parent().ancestors()
    }

    /// This token and all siblings in the given direction, the nearest first.
    pub fn siblings_with_tokens(&self, direction: Direction) -> (siblings: Vec<SyntaxElement>)
        requires
            self.wf(),
        ensures
            elements_found(
                siblings@,
                match direction {
                    Direction::Next => self@.siblings_after(),
                    Direction::Prev => self@.siblings_before(),
                },
            ),
    {
        SyntaxElement::siblings_of(NodeOrToken::Token(self.clone()), direction)
    }

    /// The next token in the text, as long as no node without children lies between.
    pub fn next_token(&self) -> (token: Option<SyntaxToken>)
        requires
            self.wf(),
        ensures
            token_found(token, self@.next_token()),
    {
        if let Some(element) = self.next_sibling_or_token() {
            return element.first_token();
        }
        let mut node = self.parent();
        loop
            invariant
                node.wf(),
                self@.following() == node@.following(),
            decreases node@.path.len(),
        {
            if let Some(element) = node.next_sibling_or_token() {
                return element.first_token();
            }
            match node.parent() {
                Some(parent) => {
                    node = parent;
                },
                None => {
                    return None;
                },
            }
        }
    }

    /// The token before this one in the text, as long as no node without children lies between.
    pub fn prev_token(&self) -> (token: Option<SyntaxToken>)
        requires
            self.wf(),
        ensures
            token_found(token, self@.prev_token()),
    {
        if let Some(element) = self.prev_sibling_or_token() {
            return element.last_token();
        }
        let mut node = self.parent();
        loop
            invariant
                node.wf(),
                self@.preceding() == node@.preceding(),
            decreases node@.path.len(),
        {
            if let Some(element) = node.prev_sibling_or_token() {
                return element.last_token();
            }
            match node.parent() {
                Some(parent) => {
                    node = parent;
                },
                None => {
                    return None;
                },
            }
        }
    }
}

impl SyntaxElement {
    pub open spec fn wf(self) -> bool {
        match self {
            NodeOrToken::Node(node) => node.wf(),
            NodeOrToken::Token(token) => token.wf(),
        }
    }

    fn new(
        element: GreenElementRef<'_>,
        parent: SyntaxNode,
        index: u32,
        offset: TextSize,
    ) -> (child: SyntaxElement)
        requires
            parent.wf(),
            index < parent@.children().len(),
            element == parent@.children()[index as int].borrowed(),
            offset.raw == parent@.child(index as int).start(),
        ensures
            child.wf(),
            child@ == parent@.child(index as int),
    {
        match element {
            NodeOrToken::Node(node) => NodeOrToken::Node(
                SyntaxNode::new_child(node, parent, index, offset),
            ),
            NodeOrToken::Token(_) => NodeOrToken::Token(SyntaxToken::new(parent, index, offset)),
        }
    }

    /// The range of the element in the text of the whole tree.
    pub fn text_range(&self) -> (range: TextRange)
        requires
            self.wf(),
        ensures
            range.wf(),
            range.start.raw == self@.start(),
            range.end.raw == self@.end(),
    {
        match self {
            NodeOrToken::Node(node) => node.text_range(),
            NodeOrToken::Token(token) => token.text_range(),
        }
    }

    /// What the element stands for.
    pub fn kind(&self) -> (kind: SyntaxKind)
        requires
            self.wf(),
        ensures
            kind == self@.kind(),
    {
        match self {
            NodeOrToken::Node(node) => node.kind(),
            NodeOrToken::Token(token) => token.kind(),
        }
    }

    /// The node of which this is a child.
    pub fn parent(&self) -> (parent: Option<SyntaxNode>)
        requires
            self.wf(),
        ensures
            node_found(parent, if self@.is_root() { None } else { Some(self@.parent()) }),
    {
        match self {
            NodeOrToken::Node(node) => node.parent(),
            NodeOrToken::Token(token) => Some(token.parent()),
        }
    }

    /// The token that is reached by going down along first children. There is none if that ends at
    /// a node without children.
    pub fn first_token(&self) -> (token: Option<SyntaxToken>)
        requires
            self.wf(),
        ensures
            token_found(token, self@.leftmost()),
        decreases self@.element()->0, 1int,
    {
        match self {
            NodeOrToken::Node(node) => node.first_token(),
            NodeOrToken::Token(token) => Some(token.clone()),
        }
    }

    /// The token that is reached by going down along last children. There is none if that ends at
    /// a node without children.
    pub fn last_token(&self) -> (token: Option<SyntaxToken>)
        requires
            self.wf(),
        ensures
            token_found(token, self@.rightmost()),
        decreases self@.element()->0, 1int,
    {
        match self {
            NodeOrToken::Node(node) => node.last_token(),
            NodeOrToken::Token(token) => Some(token.clone()),
        }
    }

    /// The sibling right after this one.
    pub fn next_sibling_or_token(&self) -> (sibling: Option<SyntaxElement>)
        requires
            self.wf(),
        ensures
            element_found(sibling, self@.next()),
    {
        match self {
            NodeOrToken::Node(node) => node.next_sibling_or_token(),
            NodeOrToken::Token(token) => token.next_sibling_or_token(),
        }
    }

    /// The sibling right before this one.
    pub fn prev_sibling_or_token(&self) -> (sibling: Option<SyntaxElement>)
        requires
            self.wf(),
        ensures
            element_found(sibling, self@.prev()),
    {
        match self {
            NodeOrToken::Node(node) => node.prev_sibling_or_token(),
            NodeOrToken::Token(token) => token.prev_sibling_or_token(),
        }
    }

    /// The nodes at and above this element, up to the root.
    pub fn ancestors(&self) -> (ancestors: Vec<SyntaxNode>)
        requires
            self.wf(),
        ensures
            nodes_found(
                ancestors@,
                if self@.is_node() {
                    self@.ancestors()
                } else {
                    self@.parent().ancestors()
                },
            ),
    {
        match self {
            NodeOrToken::Node(node) => node.ancestors(),
            NodeOrToken::Token(token) => token.parent().ancestors(),
        }
    }

    fn siblings_of(first: SyntaxElement, direction: Direction) -> (siblings: Vec<SyntaxElement>)
        requires
            first.wf(),
        ensures
            elements_found(
                siblings@,
                match direction {
                    Direction::Next => first@.siblings_after(),
                    Direction::Prev => first@.siblings_before(),
                },
            ),
    {
        let ghost start = first@;
        let ghost all = match direction {
            Direction::Next => start.siblings_after(),
            Direction::Prev => start.siblings_before(),
        };
        proof {
            start.lemma_bounds();
            if !start.is_root() {
                start.lemma_parent();
            }
        }
        let mut siblings: Vec<SyntaxElement> = Vec::new();
        let mut element = first;
        loop
            invariant
                element.wf(),
                start.wf(),
                start == first@,
                all == match direction {
                    Direction::Next => start.siblings_after(),
                    Direction::Prev => start.siblings_before(),
                },
                siblings@.len() < all.len(),
                element@ == all[siblings@.len() as int],
                elements_found(siblings@, all.take(siblings@.len() as int)),
            decreases all.len() - siblings@.len(),
        {
            proof {
                start.lemma_bounds();
                element@.lemma_bounds();
                if !start.is_root() {
                    start.lemma_parent();
                    let k = siblings@.len() as int;
                    assert(element@ == start.sibling(
                        match direction {
                            Direction::Next => start.index() + k,
                            Direction::Prev => start.index() - k,
                        },
                    ));
                }
            }
            let sibling = match direction {
                Direction::Next => element.next_sibling_or_token(),
                Direction::Prev => element.prev_sibling_or_token(),
            };
            siblings.push(element);
            match sibling {
                Some(sibling) => {
                    element = sibling;
                },
                None => {
                    assert(all.take(siblings@.len() as int) =~= all);
                    return siblings;
                },
            }
        }
    }
}

/// A walk along the children of a node that keeps count of indices and offsets.
struct Iter {
    parent: SyntaxNode,
    offset: TextSize,
    index: u32,
}

impl Clone for Iter {
    fn clone(&self) -> (copy: Iter)
        ensures
            copy == *self,
    {
        Iter { parent: self.parent.clone(), offset: self.offset, index: self.index }
    }
}

impl Iter {
    spec fn wf(self) -> bool {
        &&& self.parent.wf()
        &&& self.index <= self.parent@.children().len()
        &&& self.offset.raw == self.parent@.start() + len_of(
            self.parent@.children(),
            self.index as int,
        )
    }

    fn new(parent: SyntaxNode) -> (iter: Iter)
        requires
            parent.wf(),
        ensures
            iter.wf(),
            iter.parent == parent,
            iter.index == 0,
    {
        let offset = parent.text_range().start();
        Iter { parent, offset, index: 0 }
    }

    fn next(&mut self) -> (item: Option<(GreenElementRef<'_>, u32, TextSize)>)
        requires
            old(self).wf(),
        ensures
            final(self).wf(),
            final(self).parent == old(self).parent,
            match item {
                Some((element, index, offset)) => {
                    &&& index == old(self).index
                    &&& index < old(self).parent@.children().len()
                    &&& element == old(self).parent@.children()[index as int].borrowed()
                    &&& offset.raw == old(self).parent@.child(index as int).start()
                    &&& final(self).index == index + 1
                },
                None => {
                    &&& old(self).index == old(self).parent@.children().len()
                    &&& final(self).index == old(self).index
                },
            },
    {
        let green = self.parent.green();
        let index = self.index;
        if (index as usize) < green.child_count() {
            let element = green.child(index as usize);
            let offset = self.offset;
            proof {
                self.parent@.lemma_bounds();
                self.parent@.lemma_child(index as int);
                self.parent@.child(index as int).lemma_bounds();
            }
            self.offset = TextSize { raw: offset.raw + element.text_len().raw };
            self.index = index + 1;
            Some((element, index, offset))
        } else {
            None
        }
    }
}

/// A walk along the children of a node that are nodes.
pub struct SyntaxNodeChildren(Iter);

impl Clone for SyntaxNodeChildren {
    fn clone(&self) -> (copy: SyntaxNodeChildren)
        ensures
            copy == *self,
    {
        SyntaxNodeChildren(self.0.clone())
    }
}

impl SyntaxNodeChildren {
    pub closed spec fn wf(self) -> bool {
        self.0.wf()
    }

    /// The children still to come.
    pub closed spec fn remaining(self) -> Seq<Place> {
        self.0.parent@.nodes_from(self.0.index as int)
    }

    fn new(parent: SyntaxNode) -> (children: SyntaxNodeChildren)
        requires
            parent.wf(),
        ensures
            children.wf(),
            children.remaining() == parent@.nodes_from(0),
    {
        SyntaxNodeChildren(Iter::new(parent))
    }

    /// Takes the first of the remaining children.
    pub fn next(&mut self) -> (child: Option<SyntaxNode>)
        requires
            old(self).wf(),
        ensures
            final(self).wf(),
            match child {
                Some(node) => {
                    &&& old(self).remaining().len() > 0
                    &&& node.wf()
                    &&& node@ == old(self).remaining()[0]
                    &&& final(self).remaining() == old(self).remaining().drop_first()
                },
                None => {
                    &&& old(self).remaining().len() == 0
                    &&& final(self).remaining() == old(self).remaining()
                },
            },
    {
        let parent = self.0.parent.clone();
        loop
            invariant
                self.0.wf(),
                self.0.parent == parent,
                self.remaining() == old(self).remaining(),
            decreases parent@.children().len() - self.0.index,
        {
            let ghost start = self.0.index as int;
            match self.0.next() {
                Some((element, index, offset)) => {
                    if let NodeOrToken::Node(node) = element {
                        let child = SyntaxNode::new_child(node, parent, index, offset);
                        assert(old(self).remaining() =~= seq![parent@.child(start)]
                            + parent@.nodes_from(start + 1));
                        assert(parent@.nodes_from(start + 1) =~= old(
                            self,
                        ).remaining().drop_first());
                        return Some(child);
                    }
                },
                None => {
                    return None;
                },
            }
        }
    }
}

/// A walk along the children of a node.
pub struct SyntaxElementChildren(Iter);

impl Clone for SyntaxElementChildren {
    fn clone(&self) -> (copy: SyntaxElementChildren)
        ensures
            copy == *self,
    {
        SyntaxElementChildren(self.0.clone())
    }
}

impl SyntaxElementChildren {
    pub closed spec fn wf(self) -> bool {
        self.0.wf()
    }

    /// The children still to come.
    pub closed spec fn remaining(self) -> Seq<Place> {
        self.0.parent@.children_from(self.0.index as int)
    }

    fn new(parent: SyntaxNode) -> (children: SyntaxElementChildren)
        requires
            parent.wf(),
        ensures
            children.wf(),
            children.remaining() == parent@.children_from(0),
    {
        SyntaxElementChildren(Iter::new(parent))
    }

    /// Takes the first of the remaining children.
    pub fn next(&mut self) -> (child: Option<SyntaxElement>)
        requires
            old(self).wf(),
        ensures
            final(self).wf(),
            match child {
                Some(element) => {
                    &&& old(self).remaining().len() > 0
                    &&& element.wf()
                    &&& element@ == old(self).remaining()[0]
                    &&& final(self).remaining() == old(self).remaining().drop_first()
                },
                None => {
                    &&& old(self).remaining().len() == 0
                    &&& final(self).remaining() == old(self).remaining()
                },
            },
    {
        let parent = self.0.parent.clone();
        let ghost start = self.0.index as int;
        match self.0.next() {
            Some((green, index, offset)) => {
                let child = SyntaxElement::new(green, parent, index, offset);
                assert(parent@.children_from(start + 1) =~= parent@.children_from(
                    start,
                ).drop_first());
                Some(child)
            },
            None => None,
        }
    }
}

impl SyntaxNode {
    /// The children that are nodes.
    pub fn children(&self) -> (children: SyntaxNodeChildren)
        requires
            self.wf(),
        ensures
            children.wf(),
            children.remaining() == self@.nodes_from(0),
    {
        SyntaxNodeChildren::new(self.clone())
    }

    /// The children.
    pub fn children_with_tokens(&self) -> (children: SyntaxElementChildren)
        requires
            self.wf(),
        ensures
            children.wf(),
            children.remaining() == self@.children_from(0),
    {
        SyntaxElementChildren::new(self.clone())
    }
}

} // verus!
