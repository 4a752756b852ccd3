//! Depth-first walks through a syntax tree, step by step.

use vstd::prelude::*;

use crate::cursor::{elements_found, nodes_found, SyntaxElement, SyntaxNode, SyntaxToken};
use crate::place::Place;
use crate::utility_types::{NodeOrToken, WalkEvent};
use crate::walk::{all_events, all_places, node_events, node_places, token_texts};
use crate::walk::{ends_at, event_after, event_place, node_event_after, walk_rest};
use crate::walk::{lemma_is_under, lemma_node_walk_step, lemma_walk_step};

verus! {

/// `event` is about a node that stands where the event of the model is, or there is neither.
pub open spec fn node_event_found(
    event: Option<WalkEvent<SyntaxNode>>,
    place: Option<WalkEvent<Place>>,
) -> bool {
    match event {
        Some(WalkEvent::Enter(node)) => node.wf() && place == Some(WalkEvent::Enter(node@)),
        Some(WalkEvent::Leave(node)) => node.wf() && place == Some(WalkEvent::Leave(node@)),
        None => place is None,
    }
}

/// `event` is about an element that stands where the event of the model is, or there is neither.
pub open spec fn element_event_found(
    event: Option<WalkEvent<SyntaxElement>>,
    place: Option<WalkEvent<Place>>,
) -> bool {
    match event {
        Some(WalkEvent::Enter(element)) => element.wf() && place == Some(
            WalkEvent::Enter(element@),
        ),
        Some(WalkEvent::Leave(element)) => element.wf() && place == Some(
            WalkEvent::Leave(element@),
        ),
        None => place is None,
    }
}

/// A walk to the nodes under `root`. What is below a node can be left out on the way.
pub struct Preorder {
    root: SyntaxNode,
    next: Option<WalkEvent<SyntaxNode>>,
    skip_subtree: bool,
}

/// The event that comes when the rest of what is being walked along is left out.
pub open spec fn event_when_skipping(event: Option<WalkEvent<Place>>) -> Option<WalkEvent<Place>> {
    match event {
        Some(WalkEvent::Enter(place)) => Some(WalkEvent::Leave(place.parent())),
        _ => event,
    }
}

impl Preorder {
    /// Where the walk starts and ends.
    pub closed spec fn top(&self) -> Place {
        self.root@
    }

    /// The event that comes next, as long as nothing is left out.
    pub closed spec fn pending(&self) -> Option<WalkEvent<Place>> {
        match self.next {
            Some(event) => Some(event@),
            None => None,
        }
    }

    /// Whether the rest of what is being walked along is to be left out.
    pub closed spec fn skipping(&self) -> bool {
        self.skip_subtree
    }

    pub closed spec fn consistent(&self) -> bool {
        self.root.wf() && node_event_found(self.next, self.pending())
    }

    /// The walk is somewhere in the tree in which it started.
    pub open spec fn wf(&self) -> bool {
        &&& self.consistent()
        &&& self.top().is_node()
        &&& self.pending() matches Some(event) ==> event_place(event).is_node() && event_place(
            event,
        ).root == self.top().root
    }

    /// The event that comes next.
    pub open spec fn current(&self) -> Option<WalkEvent<Place>> {
        if self.skipping() {
            event_when_skipping(self.pending())
        } else {
            self.pending()
        }
    }

    /// The walk does not have to go up from the root of the tree.
    pub open spec fn can_advance(&self) -> bool {
        &&& self.skipping() ==> (self.pending() matches Some(WalkEvent::Enter(place))
            ==> !place.is_root())
        &&& self.current() matches Some(WalkEvent::Leave(place)) ==> ends_at(self.top(), place)
            || !place.is_root()
    }

    /// The walk is under the place where it started, and does not leave that out itself.
    pub open spec fn is_under_top(&self) -> bool {
        &&& self.pending() matches Some(event) ==> event_place(event).is_under(self.top())
        &&& self.skipping() ==> self.pending() != Some(WalkEvent::Enter(self.top()))
    }

    /// The events still to come, as long as nothing more is left out.
    pub open spec fn remaining(&self) -> Seq<WalkEvent<Place>> {
        walk_rest(self.top(), self.current(), node_events())
    }

    /// A walk that is under the place where it started can go on, and stays there.
    pub proof fn lemma_under_top(&self)
        requires
            self.wf(),
            self.is_under_top(),
        ensures
            self.can_advance(),
            self.current() matches Some(event) ==> event_place(event).is_node() && event_place(
                event,
            ).is_under(self.top()),
    {
        if let Some(event) = self.pending() {
            let place = event_place(event);
            lemma_is_under(place, self.top());
            if self.skipping() && event is Enter {
                place.lemma_bounds();
                lemma_is_under(place.parent(), self.top());
            }
        }
    }

    /// A walk to the nodes under `root`, before its first event.
    pub fn new(root: SyntaxNode) -> (walk: Preorder)
        requires
            root.wf(),
        ensures
            walk.wf(),
            walk.is_under_top(),
            walk.top() == root@,
            walk.pending() == Some(WalkEvent::Enter(root@)),
            !walk.skipping(),
            walk.remaining() == root@.walk(node_events()),
    {
        let next = Some(WalkEvent::Enter(root.clone()));
        Preorder { root, next, skip_subtree: false }
    }

    /// Leaves out the rest of what is being walked along: after a node has been entered, all that
    /// is below it; after a node has been left, all its siblings that follow.
    pub fn skip_subtree(&mut self)
        requires
            old(self).wf(),
        ensures
            final(self).wf(),
            final(self).top() == old(self).top(),
            final(self).pending() == old(self).pending(),
            final(self).skipping(),
    {
        self.skip_subtree = true;
    }

    fn do_skip(&mut self)
        requires
            old(self).wf(),
            old(self).pending() matches Some(WalkEvent::Enter(place)) ==> !place.is_root(),
        ensures
            final(self).wf(),
            final(self).top() == old(self).top(),
            final(self).pending() == event_when_skipping(old(self).pending()),
            final(self).skipping() == old(self).skipping(),
    {
        let next = self.next.take();
        self.next = match next {
            Some(WalkEvent::Enter(first_child)) => {
                proof {
                    first_child@.lemma_bounds();
                }
                match first_child.parent() {
                    Some(parent) => Some(WalkEvent::Leave(parent)),
                    None => None,
                }
            },
            Some(WalkEvent::Leave(parent)) => Some(WalkEvent::Leave(parent)),
            None => None,
        };
    }

    /// Whether the walk can go on. One that has been told to leave out the place where it started
    /// goes on above it, and cannot go on above the root of the tree.
    pub fn is_able_to_advance(&self) -> (able: bool)
        requires
            self.wf(),
        ensures
            able == self.can_advance(),
    {
        match &self.next {
            Some(WalkEvent::Enter(node)) => {
                proof {
                    node@.lemma_bounds();
                    self.root@.lemma_bounds();
                }
                if self.skip_subtree {
                    match node.parent() {
                        Some(parent) => {
                            match parent.parent() {
                                Some(_) => true,
                                None => parent.ends_walk_under(&self.root),
                            }
                        },
                        None => false,
                    }
                } else {
                    true
                }
            },
            Some(WalkEvent::Leave(node)) => {
                match node.parent() {
                    Some(_) => true,
                    None => node.ends_walk_under(&self.root),
                }
            },
            None => true,
        }
    }

    /// Takes the next event.
    pub fn next(&mut self) -> (event: Option<WalkEvent<SyntaxNode>>)
        requires
            old(self).wf(),
            old(self).can_advance(),
        ensures
            final(self).wf(),
            final(self).top() == old(self).top(),
            !final(self).skipping(),
            node_event_found(event, old(self).current()),
            final(self).pending() == (match old(self).current() {
                Some(current) => node_event_after(old(self).top(), current),
                None => None,
            }),
            old(self).is_under_top() ==> {
                &&& final(self).is_under_top()
                &&& old(self).remaining() == match old(self).current() {
                    Some(current) => seq![current] + final(self).remaining(),
                    None => Seq::empty(),
                }
            },
    {
        proof {
            if self.is_under_top() {
                self.lemma_under_top();
                if let Some(current) = self.current() {
                    lemma_node_walk_step(self.top(), current, node_events());
                }
            }
        }
        if self.skip_subtree {
            self.do_skip();
            self.skip_subtree = false;
        }
        let next = self.next.take();
        self.next = match &next {
            Some(WalkEvent::Enter(node)) => match node.first_child() {
                Some(child) => Some(WalkEvent::Enter(child)),
                None => Some(WalkEvent::Leave(node.clone())),
            },
            Some(WalkEvent::Leave(node)) => {
                if node.ends_walk_under(&self.root) {
                    None
                } else {
                    match node.next_sibling() {
                        Some(sibling) => Some(WalkEvent::Enter(sibling)),
                        None => match node.parent() {
                            Some(parent) => Some(WalkEvent::Leave(parent)),
                            None => None,
                        },
                    }
                }
            },
            None => None,
        };
        next
    }
}

/// A walk to the nodes and tokens under a node.
pub struct PreorderWithTokens {
    start: SyntaxNode,
    next: Option<WalkEvent<SyntaxElement>>,
}

impl PreorderWithTokens {
    /// Where the walk starts and ends.
    pub closed spec fn top(&self) -> Place {
        self.start@
    }

    /// The event that comes next.
    pub closed spec fn pending(&self) -> Option<WalkEvent<Place>> {
        match self.next {
            Some(event) => Some(event@),
            None => None,
        }
    }

    pub closed spec fn consistent(&self) -> bool {
        self.start.wf() && element_event_found(self.next, self.pending())
    }

    /// The walk is under the place where it started.
    pub open spec fn wf(&self) -> bool {
        &&& self.consistent()
        &&& self.top().is_node()
        &&& self.pending() matches Some(event) ==> event_place(event).wf() && event_place(
            event,
        ).is_under(self.top())
    }

    /// The events still to come.
    pub open spec fn remaining(&self) -> Seq<WalkEvent<Place>> {
        walk_rest(self.top(), self.pending(), all_events())
    }

    /// A walk to the nodes and tokens under `start`, before its first event.
    pub fn new(start: SyntaxNode) -> (walk: PreorderWithTokens)
        requires
            start.wf(),
        ensures
            walk.wf(),
            walk.top() == start@,
            walk.pending() == Some(WalkEvent::Enter(start@)),
            walk.remaining() == start@.walk(all_events()),
    {
        let next: Option<WalkEvent<SyntaxElement>> = Some(
            WalkEvent::Enter(NodeOrToken::Node(start.clone())),
        );
        PreorderWithTokens { start, next }
    }

    /// Takes the next event.
    pub fn next(&mut self) -> (event: Option<WalkEvent<SyntaxElement>>)
        requires
            old(self).wf(),
        ensures
            final(self).wf(),
            final(self).top() == old(self).top(),
            element_event_found(event, old(self).pending()),
            final(self).pending() == (match old(self).pending() {
                Some(current) => event_after(old(self).top(), current),
                None => None,
            }),
            old(self).remaining() == match old(self).pending() {
                Some(current) => seq![current] + final(self).remaining(),
                None => Seq::empty(),
            },
    {
        let next = self.next.take();
        proof {
            if let Some(event) = old(self).pending() {
                lemma_walk_step(self.start@, event, all_events());
                lemma_is_under(event_place(event), self.start@);
            }
        }
        self.next = match &next {
            Some(WalkEvent::Enter(NodeOrToken::Node(node))) => match node.first_child_or_token() {
                Some(child) => Some(WalkEvent::Enter(child)),
                None => Some(WalkEvent::Leave(NodeOrToken::Node(node.clone()))),
            },
            Some(WalkEvent::Enter(NodeOrToken::Token(token))) => Some(
                WalkEvent::Leave(NodeOrToken::Token(token.clone())),
            ),
            Some(WalkEvent::Leave(element)) => {
                let at_start = match element {
                    NodeOrToken::Node(node) => node.is_at(&self.start),
                    NodeOrToken::Token(_) => false,
                };
                if at_start {
                    None
                } else {
                    match element.next_sibling_or_token() {
                        Some(sibling) => Some(WalkEvent::Enter(sibling)),
                        None => match element.parent() {
                            Some(parent) => Some(WalkEvent::Leave(NodeOrToken::Node(parent))),
                            None => None,
                        },
                    }
                }
            },
            None => None,
        };
        next
    }
}

impl SyntaxNode {
    /// A walk to this node and to all nodes below it.
    pub fn preorder(&self) -> (walk: Preorder)
        requires
            self.wf(),
        ensures
            walk.wf(),
            walk.is_under_top(),
            walk.top() == self@,
            walk.pending() == Some(WalkEvent::Enter(self@)),
            !walk.skipping(),
            walk.remaining() == self@.walk(node_events()),
    {
        Preorder::new(self.clone())
    }

    /// A walk to this node and to all nodes and tokens below it.
    pub fn preorder_with_tokens(&self) -> (walk: PreorderWithTokens)
        requires
            self.wf(),
        ensures
            walk.wf(),
            walk.top() == self@,
            walk.pending() == Some(WalkEvent::Enter(self@)),
            walk.remaining() == self@.walk(all_events()),
    {
        PreorderWithTokens::new(self.clone())
    }

    /// This node and all nodes below it, each before those below it.
    pub fn descendants(&self) -> (nodes: Vec<SyntaxNode>)
        requires
            self.wf(),
        ensures
            nodes_found(nodes@, self@.descendants()),
    {
        let mut walk = self.preorder();
        let mut nodes: Vec<SyntaxNode> = Vec::new();
        let ghost mut done: Seq<Place> = Seq::empty();
        loop
            invariant
                walk.wf(),
                walk.is_under_top(),
                walk.top() == self@,
                !walk.skipping(),
                nodes_found(nodes@, done),
                self@.descendants() =~= done + walk_rest(self@, walk.pending(), node_places()),
            decreases walk_rest(self@, walk.pending(), node_events()).len(),
        {
            proof {
                walk.lemma_under_top();
                if let Some(event) = walk.pending() {
                    lemma_node_walk_step(self@, event, node_places());
                    lemma_node_walk_step(self@, event, node_events());
                    done = done + node_places().of(event);
                }
            }
            match walk.next() {
                Some(WalkEvent::Enter(node)) => {
                    nodes.push(node);
                },
                Some(WalkEvent::Leave(_)) => {},
                None => {
                    return nodes;
                },
            }
        }
    }

    /// This node and all nodes and tokens below it, each before those below it.
    pub fn descendants_with_tokens(&self) -> (elements: Vec<SyntaxElement>)
        requires
            self.wf(),
        ensures
            elements_found(elements@, self@.descendants_with_tokens()),
    {
        let mut walk = self.preorder_with_tokens();
        let mut elements: Vec<SyntaxElement> = Vec::new();
        let ghost mut done: Seq<Place> = Seq::empty();
        loop
            invariant
                walk.wf(),
                walk.top() == self@,
                elements_found(elements@, done),
                self@.descendants_with_tokens() =~= done + walk_rest(
                    self@,
                    walk.pending(),
                    all_places(),
                ),
            decreases walk_rest(self@, walk.pending(), all_events()).len(),
        {
            proof {
                if let Some(event) = walk.pending() {
                    lemma_walk_step(self@, event, all_places());
                    lemma_walk_step(self@, event, all_events());
                    done = done + all_places().of(event);
                }
            }
            match walk.next() {
                Some(WalkEvent::Enter(element)) => {
                    elements.push(element);
                },
                Some(WalkEvent::Leave(_)) => {},
                None => {
                    return elements;
                },
            }
        }
    }

    /// The text of the node.
    pub fn to_string(&self) -> (text: String)
        requires
            self.wf(),
        ensures
            text@ == self@.text(),
    {
        let mut walk = self.preorder_with_tokens();
        let mut text = String::new();
        loop
            invariant
                walk.wf(),
                walk.top() == self@,
                self@.text() =~= text@ + walk_rest(self@, walk.pending(), token_texts()),
            decreases walk_rest(self@, walk.pending(), all_events()).len(),
        {
            proof {
                if let Some(event) = walk.pending() {
                    lemma_walk_step(self@, event, token_texts());
                    lemma_walk_step(self@, event, all_events());
                }
            }
            match walk.next() {
                Some(WalkEvent::Enter(NodeOrToken::Token(token))) => {
                    text.append(token.text());
                },
                Some(_) => {},
                None => {
                    return text;
                },
            }
        }
    }
}

impl SyntaxToken {
    /// The text of the token.
    pub fn to_string(&self) -> (text: String)
        requires
            self.wf(),
        ensures
            text@ == self@.text(),
    {
        assert(self@.text() =~= self@.token()@.text);
        self.text().to_owned()
    }
}

impl SyntaxElement {
    /// The text of the element.
    pub fn to_string(&self) -> (text: String)
        requires
            self.wf(),
        ensures
            text@ == self@.text(),
    {
        match self {
            NodeOrToken::Node(node) => node.to_string(),
            NodeOrToken::Token(token) => token.to_string(),
        }
    }
}

} // verus!
