//! Places in a green tree: the model by which the cursor layer is specified.

use vstd::prelude::*;

use crate::green::{covers, is_child_at, len_of, lemma_len_of_monotonic};
use crate::green::{GreenElement, GreenNode, GreenToken, SyntaxKind};
use crate::text_size::TextRange;
use crate::utility_types::NodeOrToken;

verus! {

/// A place in the tree under `root`. `path` says which child to take at each step from there.
#[verifier::ext_equal]
pub struct Place {
    pub root: GreenNode,
    pub path: Seq<int>,
}

/// The index of the first node among `children` that is not before `start`, or their number.
pub open spec fn node_from(children: Seq<GreenElement>, start: int) -> int
    decreases children.len() - start,
{
    if start >= children.len() || children[start] is Node {
        start
    } else {
        node_from(children, start + 1)
    }
}

/// The index of the last node among `children` that is before `end`, or -1.
pub open spec fn node_before(children: Seq<GreenElement>, end: int) -> int
    decreases end,
{
    if end <= 0 {
        -1
    } else if children[end - 1] is Node {
        end - 1
    } else {
        node_before(children, end - 1)
    }
}

impl Place {
    pub open spec fn is_root(self) -> bool {
        self.path.len() == 0
    }

    pub open spec fn parent(self) -> Place {
        Place { root: self.root, path: self.path.drop_last() }
    }

    pub open spec fn child(self, index: int) -> Place {
        Place { root: self.root, path: self.path.push(index) }
    }

    /// Which child of its parent the place is.
    pub open spec fn index(self) -> int {
        self.path.last()
    }

    /// The child of the same parent with the given index.
    pub open spec fn sibling(self, index: int) -> Place {
        self.parent().child(index)
    }

    /// The place `height` steps above this one.
    pub open spec fn ancestor(self, height: int) -> Place {
        Place { root: self.root, path: self.path.take(self.path.len() - height) }
    }

    /// What stands at the place, if the tree reaches so far.
    pub open spec fn element(self) -> Option<GreenElement>
        decreases self.path.len(), 0int,
    {
        if self.is_root() {
            Some(NodeOrToken::Node(self.root))
        } else if 0 <= self.index() < self.parent().children().len() {
            Some(self.parent().children()[self.index()])
        } else {
            None
        }
    }

    /// The children of the node at the place. A token has none.
    pub open spec fn children(self) -> Seq<GreenElement>
        decreases self.path.len(), 1int,
    {
        match self.element() {
            Some(NodeOrToken::Node(node)) => node@.children,
            _ => Seq::empty(),
        }
    }

    pub open spec fn wf(self) -> bool {
        self.root.wf() && self.element() is Some
    }

    pub open spec fn is_node(self) -> bool {
        self.wf() && self.element()->0 is Node
    }

    pub open spec fn is_token(self) -> bool {
        self.wf() && self.element()->0 is Token
    }

    pub open spec fn node(self) -> GreenNode {
        self.element()->0->Node_0
    }

    pub open spec fn token(self) -> GreenToken {
        self.element()->0->Token_0
    }

    pub open spec fn kind(self) -> SyntaxKind {
        self.element()->0.spec_kind()
    }

    /// The length of the text, in bytes.
    pub open spec fn len(self) -> int {
        self.element()->0.len() as int
    }

    /// The offset of the text from the start of the whole text, in bytes.
    pub open spec fn start(self) -> int
        decreases self.path.len(),
    {
        if self.is_root() {
            0
        } else {
            self.parent().start() + len_of(self.parent().children(), self.index())
        }
    }

    pub open spec fn end(self) -> int {
        self.start() + self.len()
    }

    /// The child with the given index, if there is one.
    pub open spec fn child_at(self, index: int) -> Option<Place> {
        if 0 <= index < self.children().len() {
            Some(self.child(index))
        } else {
            None
        }
    }

    /// The first child that is a node.
    pub open spec fn first_node(self) -> Option<Place> {
        self.child_at(node_from(self.children(), 0))
    }

    /// The last child that is a node.
    pub open spec fn last_node(self) -> Option<Place> {
        self.child_at(node_before(self.children(), self.children().len() as int))
    }

    /// The sibling right after this one.
    pub open spec fn next(self) -> Option<Place> {
        if self.is_root() {
            None
        } else {
            self.parent().child_at(self.index() + 1)
        }
    }

    /// The sibling right before this one.
    pub open spec fn prev(self) -> Option<Place> {
        if self.is_root() {
            None
        } else {
            self.parent().child_at(self.index() - 1)
        }
    }

    /// The nearest sibling after this one that is a node.
    pub open spec fn next_node(self) -> Option<Place> {
        if self.is_root() {
            None
        } else {
            self.parent().child_at(node_from(self.parent().children(), self.index() + 1))
        }
    }

    /// The nearest sibling before this one that is a node.
    pub open spec fn prev_node(self) -> Option<Place> {
        if self.is_root() {
            None
        } else {
            self.parent().child_at(node_before(self.parent().children(), self.index()))
        }
    }

    /// The token that is reached from here by taking the first child again and again. There is
    /// none if that leads to a node without children.
    pub open spec fn leftmost(self) -> Option<Place>
        decreases self.element()->0,
    {
        proof {
            if self.is_node() && self.children().len() > 0 {
                self.lemma_child(0);
            }
        }
        if self.is_token() {
            Some(self)
        } else if self.is_node() && self.children().len() > 0 {
            self.child(0).leftmost()
        } else {
            None
        }
    }

    /// The token that is reached from here by taking the last child again and again. There is
    /// none if that leads to a node without children.
    pub open spec fn rightmost(self) -> Option<Place>
        decreases self.element()->0,
    {
        proof {
            if self.is_node() && self.children().len() > 0 {
                self.lemma_child(self.children().len() - 1);
            }
        }
        if self.is_token() {
            Some(self)
        } else if self.is_node() && self.children().len() > 0 {
            self.child(self.children().len() - 1).rightmost()
        } else {
            None
        }
    }

    /// The sibling right after this place, or after the nearest place above it that has one.
    pub open spec fn following(self) -> Option<Place>
        decreases self.path.len(),
    {
        if self.is_root() {
            None
        } else if let Some(next) = self.next() {
            Some(next)
        } else {
            self.parent().following()
        }
    }

    /// The sibling right before this place, or before the nearest place above it that has one.
    pub open spec fn preceding(self) -> Option<Place>
        decreases self.path.len(),
    {
        if self.is_root() {
            None
        } else if let Some(prev) = self.prev() {
            Some(prev)
        } else {
            self.parent().preceding()
        }
    }

    /// The first token of what follows this place.
    pub open spec fn next_token(self) -> Option<Place> {
        match self.following() {
            Some(place) => place.leftmost(),
            None => None,
        }
    }

    /// The last token of what precedes this place.
    pub open spec fn prev_token(self) -> Option<Place> {
        match self.preceding() {
            Some(place) => place.rightmost(),
            None => None,
        }
    }

    /// The place itself and all above it, up to the root.
    pub open spec fn ancestors(self) -> Seq<Place> {
        Seq::new((self.path.len() + 1) as nat, |height: int| self.ancestor(height))
    }

    /// The place and all siblings after it, in order.
    pub open spec fn siblings_after(self) -> Seq<Place> {
        if self.is_root() {
            seq![self]
        } else {
            Seq::new(
                (self.parent().children().len() - self.index()) as nat,
                |k: int| self.sibling(self.index() + k),
            )
        }
    }

    /// The place and all siblings before it, the nearest first.
    pub open spec fn siblings_before(self) -> Seq<Place> {
        if self.is_root() {
            seq![self]
        } else {
            Seq::new((self.index() + 1) as nat, |k: int| self.sibling(self.index() - k))
        }
    }

    /// The children from the index `start` on.
    pub open spec fn children_from(self, start: int) -> Seq<Place> {
        Seq::new((self.children().len() - start) as nat, |k: int| self.child(start + k))
    }

    /// The children that are nodes, from the index `start` on.
    pub open spec fn nodes_from(self, start: int) -> Seq<Place>
        decreases self.children().len() - start,
    {
        if start >= self.children().len() {
            Seq::empty()
        } else if self.children()[start] is Node {
            seq![self.child(start)] + self.nodes_from(start + 1)
        } else {
            self.nodes_from(start + 1)
        }
    }

    /// The children that are nodes before the index `end`, the last first.
    pub open spec fn nodes_before(self, end: int) -> Seq<Place>
        decreases end,
    {
        if end <= 0 {
            Seq::empty()
        } else if self.children()[end - 1] is Node {
            seq![self.child(end - 1)] + self.nodes_before(end - 1)
        } else {
            self.nodes_before(end - 1)
        }
    }

    /// The place and all siblings after it that are nodes, in order.
    pub open spec fn node_siblings_after(self) -> Seq<Place> {
        if self.is_root() {
            seq![self]
        } else {
            seq![self] + self.parent().nodes_from(self.index() + 1)
        }
    }

    /// The place and all siblings before it that are nodes, the nearest first.
    pub open spec fn node_siblings_before(self) -> Seq<Place> {
        if self.is_root() {
            seq![self]
        } else {
            seq![self] + self.parent().nodes_before(self.index())
        }
    }

    /// `range` lies within the text of the place.
    pub open spec fn holds(self, range: TextRange) -> bool {
        range.within(self.start(), self.end())
    }

    /// The child with the given index is the one to look for `range` in: of all that hold it, the
    /// last that does not reach beyond its start, and where each does, the only one.
    pub open spec fn picks(self, range: TextRange, index: int) -> bool {
        &&& 0 <= index < self.children().len()
        &&& self.child(index).holds(range)
        &&& forall|j: int|
            index < j < self.children().len() && (#[trigger] self.child(j)).holds(range)
                ==> range.start.raw < self.child(j).end()
        &&& range.start.raw < self.child(index).end() ==> forall|j: int|
            0 <= j < index ==> !(#[trigger] self.child(j)).holds(range)
    }

    /// The child to look for `range` in, if there is one.
    pub open spec fn child_for(self, range: TextRange) -> Option<Place> {
        if exists|i: int| self.picks(range, i) {
            Some(self.child(choose|i: int| self.picks(range, i)))
        } else {
            None
        }
    }

    /// The place at which the search for `range` from here downwards ends.
    pub open spec fn covering(self, range: TextRange) -> Place
        decreases self.element()->0,
    {
        proof {
            if exists|i: int| self.wf() && self.picks(range, i) {
                self.lemma_child(choose|i: int| self.picks(range, i));
            }
        }
        if self.wf() && self.child_for(range) is Some {
            self.child_for(range)->0.covering(range)
        } else {
            self
        }
    }

    /// `result` is the tree with `new` at this place. Above it the kinds are the same, and so are
    /// all children that do not lead here.
    pub open spec fn replaced(self, new: GreenElement, result: GreenNode) -> bool {
        &&& Place { root: result, path: self.path }.element() == Some(new)
        &&& forall|depth: int|
            0 <= depth < self.path.len() ==> {
                let before = Place { root: self.root, path: #[trigger] self.path.take(depth) };
                let after = Place { root: result, path: self.path.take(depth) };
                &&& after.element() matches Some(NodeOrToken::Node(node))
                &&& node@.kind == before.kind()
                &&& node@.children.len() == before.children().len()
                &&& forall|i: int|
                    0 <= i < node@.children.len() && i != self.path[depth] ==> node@.children[i]
                        == before.children()[i]
            }
    }

    /// To replace a place is to replace its parent by a node with the new child.
    pub proof fn lemma_replaced_through_parent(
        self,
        new: GreenElement,
        parent: GreenNode,
        result: GreenNode,
    )
        requires
            self.wf(),
            !self.is_root(),
            parent@.kind == self.parent().kind(),
            parent@.children == self.parent().children().update(self.index(), new),
            self.parent().replaced(GreenElement::Node(parent), result),
        ensures
            self.replaced(new, result),
    {
        self.lemma_bounds();
        let place = Place { root: result, path: self.path };
        let last = self.path.len() - 1;
        assert(place.parent() == Place { root: result, path: self.parent().path });
        assert(place.element() == Some(new));
        assert forall|depth: int| 0 <= depth < self.path.len() implies {
            let before = Place { root: self.root, path: #[trigger] self.path.take(depth) };
            let after = Place { root: result, path: self.path.take(depth) };
            &&& after.element() matches Some(NodeOrToken::Node(node))
            &&& node@.kind == before.kind()
            &&& node@.children.len() == before.children().len()
            &&& forall|i: int|
                0 <= i < node@.children.len() && i != self.path[depth] ==> node@.children[i]
                    == before.children()[i]
        } by {
            if depth < last {
                assert(self.path.take(depth) =~= self.parent().path.take(depth));
                assert(self.path[depth] == self.parent().path[depth]);
            } else {
                assert(self.path.take(depth) =~= self.parent().path);
            }
        }
    }

    /// At most one child is the one to look for a range in.
    pub proof fn lemma_picks_one(self, range: TextRange)
        requires
            range.wf(),
        ensures
            forall|i: int, j: int|
                #[trigger] self.picks(range, i) && #[trigger] self.picks(range, j) ==> i == j,
            forall|i: int| #[trigger] self.picks(range, i) ==> self.child_for(range) == Some(
                self.child(i),
            ),
    {
    }

    /// The child to look for a range in is found from the lengths of the children alone. `start`
    /// and `end` are the range counted from the start of the place.
    pub proof fn lemma_child_for(self, range: TextRange, start: int, end: int)
        requires
            self.wf(),
            range.wf(),
            start == range.start.raw - self.start(),
            end == range.end.raw - self.start(),
        ensures
            forall|i: int|
                is_child_at(self.children(), start, end, i) ==> #[trigger] self.picks(range, i),
            (forall|i: int|
                0 <= i < self.children().len() ==> !covers(self.children(), start, end, i))
                ==> self.child_for(range) is None,
    {
        assert forall|i: int| 0 <= i < self.children().len() implies (#[trigger] self.child(
            i,
        )).holds(range) == covers(self.children(), start, end, i) && self.child(i).end()
            == self.start() + len_of(self.children(), i + 1) by {
            self.lemma_child(i);
        }
    }

    /// Where a child holds a range, there is one to look for it in.
    pub proof fn lemma_picks_some(self, range: TextRange, index: int)
        requires
            self.wf(),
            range.wf(),
            0 <= index < self.children().len(),
            self.child(index).holds(range),
        ensures
            self.child_for(range) is Some,
    {
        if exists|j: int|
            0 <= j < self.children().len() && (#[trigger] self.child(j)).holds(range)
                && self.child(j).end() <= range.start.raw {
            let j = choose|j: int|
                0 <= j < self.children().len() && (#[trigger] self.child(j)).holds(range)
                    && self.child(j).end() <= range.start.raw;
            self.lemma_picks_last(range, j);
        } else {
            assert forall|j: int| 0 <= j < index implies !(#[trigger] self.child(j)).holds(
                range,
            ) by {
                self.lemma_siblings_in_order(j, index);
            }
            assert(self.picks(range, index));
        }
    }

    /// Of the children that hold a range and do not reach beyond its start, the last is picked.
    proof fn lemma_picks_last(self, range: TextRange, index: int)
        requires
            0 <= index < self.children().len(),
            self.child(index).holds(range),
            self.child(index).end() <= range.start.raw,
        ensures
            self.child_for(range) is Some,
        decreases self.children().len() - index,
    {
        if exists|j: int|
            index < j < self.children().len() && (#[trigger] self.child(j)).holds(range)
                && self.child(j).end() <= range.start.raw {
            let j = choose|j: int|
                index < j < self.children().len() && (#[trigger] self.child(j)).holds(range)
                    && self.child(j).end() <= range.start.raw;
            self.lemma_picks_last(range, j);
        } else {
            assert(self.picks(range, index));
        }
    }

    /// A child ends before or where a later one starts.
    pub proof fn lemma_siblings_in_order(self, former: int, latter: int)
        requires
            self.wf(),
            0 <= former < latter < self.children().len(),
        ensures
            self.child(former).start() <= self.child(former).end() <= self.child(latter).start()
                <= self.child(latter).end(),
    {
        self.lemma_child(former);
        self.lemma_child(latter);
        lemma_len_of_monotonic(self.children(), former + 1, latter);
    }

    /// A place with an element lies within the text of the whole tree, and all above it are nodes.
    pub proof fn lemma_bounds(self)
        requires
            self.wf(),
        ensures
            self.element()->0.wf(),
            0 <= self.start(),
            self.end() <= self.root@.text_len <= u32::MAX,
            !self.is_root() ==> {
                &&& self.parent().is_node()
                &&& 0 <= self.index() < self.parent().children().len()
                &&& self.parent().children().len() <= u32::MAX
                &&& self.parent().start() <= self.start()
                &&& self.end() <= self.parent().end()
            },
        decreases self.path.len(),
    {
        if !self.is_root() {
            let parent = self.parent();
            parent.lemma_bounds();
            let children = parent.children();
            lemma_len_of_monotonic(children, self.index() + 1, children.len() as int);
            assert(children[self.index()].wf());
        }
    }

    /// The children of a node stand side by side from its start to its end.
    pub proof fn lemma_child(self, index: int)
        requires
            self.wf(),
            0 <= index < self.children().len(),
        ensures
            self.is_node(),
            self.child(index).wf(),
            !self.child(index).is_root(),
            self.child(index).parent() == self,
            self.child(index).index() == index,
            self.child(index).element() == Some(self.children()[index]),
            self.child(index).start() == self.start() + len_of(self.children(), index),
            self.child(index).end() == self.start() + len_of(self.children(), index + 1),
            self.end() == self.start() + len_of(self.children(), self.children().len() as int),
            self.start() <= self.child(index).start(),
            self.child(index).end() <= self.end(),
            decreases_to!(self.element()->0 => self.child(index).element()->0),
    {
        let child = self.child(index);
        assert(child.parent() =~= self);
        self.lemma_bounds();
        self.node().lemma_children_smaller();
        lemma_len_of_monotonic(self.children(), index + 1, self.children().len() as int);
        assert(decreases_to!(self.element()->0 => self.node()));
        assert(decreases_to!(self.node() => self.children()[index]));
    }

    /// A place is a child of its parent.
    pub proof fn lemma_parent(self)
        requires
            !self.is_root(),
        ensures
            self.parent().child(self.index()) == self,
            self.sibling(self.index()) == self,
            forall|i: int| (#[trigger] self.sibling(i)).parent() == self.parent(),
    {
        assert(self.parent().child(self.index()) =~= self);
        assert forall|i: int| (#[trigger] self.sibling(i)).parent() == self.parent() by {
            assert(self.sibling(i).parent() =~= self.parent());
        }
    }
}

pub proof fn lemma_node_from(children: Seq<GreenElement>, start: int)
    requires
        0 <= start <= children.len(),
    ensures
        start <= node_from(children, start) <= children.len(),
        node_from(children, start) < children.len() ==> children[node_from(children, start)] is Node,
        forall|j: int| start <= j < node_from(children, start) ==> children[j] is Token,
    decreases children.len() - start,
{
    if start < children.len() && !(children[start] is Node) {
        lemma_node_from(children, start + 1);
    }
}

pub proof fn lemma_node_before(children: Seq<GreenElement>, end: int)
    requires
        0 <= end <= children.len(),
    ensures
        -1 <= node_before(children, end) < end,
        node_before(children, end) >= 0 ==> children[node_before(children, end)] is Node,
        forall|j: int| node_before(children, end) < j < end ==> children[j] is Token,
    decreases end,
{
    if end > 0 && !(children[end - 1] is Node) {
        lemma_node_before(children, end - 1);
    }
}

impl Place {
    /// The nodes from an index on are the first of them and those after it.
    pub proof fn lemma_nodes_from(self, start: int)
        requires
            0 <= start <= self.children().len(),
        ensures
            ({
                let first = node_from(self.children(), start);
                self.nodes_from(start) == if first < self.children().len() {
                    seq![self.child(first)] + self.nodes_from(first + 1)
                } else {
                    Seq::empty()
                }
            }),
        decreases self.children().len() - start,
    {
        if start < self.children().len() && !(self.children()[start] is Node) {
            self.lemma_nodes_from(start + 1);
        }
    }

    /// The nodes before an index are the last of them and those before it.
    pub proof fn lemma_nodes_before(self, end: int)
        requires
            0 <= end <= self.children().len(),
        ensures
            ({
                let last = node_before(self.children(), end);
                self.nodes_before(end) == if last >= 0 {
                    seq![self.child(last)] + self.nodes_before(last)
                } else {
                    Seq::empty()
                }
            }),
        decreases end,
    {
        if end > 0 && !(self.children()[end - 1] is Node) {
            self.lemma_nodes_before(end - 1);
        }
    }

    /// The siblings that are nodes from a node on are the node and those from the next node on.
    pub proof fn lemma_node_siblings(self)
        requires
            self.is_node(),
        ensures
            self.node_siblings_after() == match self.next_node() {
                Some(next) => seq![self] + next.node_siblings_after(),
                None => seq![self],
            },
            self.node_siblings_before() == match self.prev_node() {
                Some(prev) => seq![self] + prev.node_siblings_before(),
                None => seq![self],
            },
    {
        self.lemma_bounds();
        if !self.is_root() {
            let parent = self.parent();
            parent.lemma_nodes_from(self.index() + 1);
            parent.lemma_nodes_before(self.index());
            lemma_node_from(parent.children(), self.index() + 1);
            lemma_node_before(parent.children(), self.index());
            if let Some(next) = self.next_node() {
                parent.lemma_child(next.index());
            }
            if let Some(prev) = self.prev_node() {
                parent.lemma_child(prev.index());
            }
        }
        assert(self.node_siblings_after() =~= match self.next_node() {
            Some(next) => seq![self] + next.node_siblings_after(),
            None => seq![self],
        });
        assert(self.node_siblings_before() =~= match self.prev_node() {
            Some(prev) => seq![self] + prev.node_siblings_before(),
            None => seq![self],
        });
    }
}

} // verus!
