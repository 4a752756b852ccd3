//! Depth-first walks through a tree, as sequences.

use vstd::prelude::*;

use crate::place::{lemma_node_from, node_from, Place};
use crate::utility_types::WalkEvent;

verus! {

/// What a walk notes down when it enters or leaves a place.
pub struct Notes<A> {
    pub on_enter: spec_fn(Place) -> Seq<A>,
    pub on_leave: spec_fn(Place) -> Seq<A>,
}

impl<A> Notes<A> {
    pub open spec fn of(self, event: WalkEvent<Place>) -> Seq<A> {
        match event {
            WalkEvent::Enter(place) => (self.on_enter)(place),
            WalkEvent::Leave(place) => (self.on_leave)(place),
        }
    }

    /// Tokens leave no trace.
    pub open spec fn pass_over_tokens(self) -> bool {
        forall|place: Place| #[trigger]
            place.is_token() ==> (self.on_enter)(place).len() == 0 && (self.on_leave)(place).len()
                == 0
    }
}

/// The events of a walk to nodes and tokens.
pub open spec fn all_events() -> Notes<WalkEvent<Place>> {
    Notes {
        on_enter: |place: Place| seq![WalkEvent::Enter(place)],
        on_leave: |place: Place| seq![WalkEvent::Leave(place)],
    }
}

/// The events of a walk to nodes.
pub open spec fn node_events() -> Notes<WalkEvent<Place>> {
    Notes {
        on_enter: |place: Place|
            if place.is_node() {
                seq![WalkEvent::Enter(place)]
            } else {
                Seq::empty()
            },
        on_leave: |place: Place|
            if place.is_node() {
                seq![WalkEvent::Leave(place)]
            } else {
                Seq::empty()
            },
    }
}

/// All nodes and tokens.
pub open spec fn all_places() -> Notes<Place> {
    Notes { on_enter: |place: Place| seq![place], on_leave: |place: Place| Seq::empty() }
}

/// All nodes.
pub open spec fn node_places() -> Notes<Place> {
    Notes {
        on_enter: |place: Place|
            if place.is_node() {
                seq![place]
            } else {
                Seq::empty()
            },
        on_leave: |place: Place| Seq::empty(),
    }
}

/// All tokens.
pub open spec fn token_places() -> Notes<Place> {
    Notes {
        on_enter: |place: Place|
            if place.is_token() {
                seq![place]
            } else {
                Seq::empty()
            },
        on_leave: |place: Place| Seq::empty(),
    }
}

/// The text of all tokens.
pub open spec fn token_texts() -> Notes<char> {
    Notes {
        on_enter: |place: Place|
            if place.is_token() {
                place.token()@.text
            } else {
                Seq::empty()
            },
        on_leave: |place: Place| Seq::empty(),
    }
}

impl Place {
    /// What a walk through all at and below the place notes down.
    pub open spec fn walk<A>(self, notes: Notes<A>) -> Seq<A>
        decreases self.element()->0, self.children().len() + 1,
    {
        if self.wf() {
            (notes.on_enter)(self) + self.walk_from(0, notes) + (notes.on_leave)(self)
        } else {
            Seq::empty()
        }
    }

    /// What a walk through the children from the index `start` on notes down.
    pub open spec fn walk_from<A>(self, start: int, notes: Notes<A>) -> Seq<A>
        decreases self.element()->0, self.children().len() - start,
    {
        proof {
            if self.wf() && 0 <= start < self.children().len() {
                self.lemma_child(start);
            }
        }
        if self.wf() && 0 <= start < self.children().len() {
            self.child(start).walk(notes) + self.walk_from(start + 1, notes)
        } else {
            Seq::empty()
        }
    }

    /// All nodes at and below the place, each before those below it.
    pub open spec fn descendants(self) -> Seq<Place> {
        self.walk(node_places())
    }

    /// All nodes and tokens at and below the place, each before those below it.
    pub open spec fn descendants_with_tokens(self) -> Seq<Place> {
        self.walk(all_places())
    }

    /// All tokens at and below the place, in the order of the text.
    pub open spec fn tokens(self) -> Seq<Place> {
        self.walk(token_places())
    }

    /// The text of the place.
    pub open spec fn text(self) -> Seq<char> {
        self.walk(token_texts())
    }

    /// The place is `top` or below it.
    pub open spec fn is_under(self, top: Place) -> bool {
        self.root == top.root && top.path.is_prefix_of(self.path)
    }

    /// The nodes at both places are equal: they are of one green node, at one offset.
    pub open spec fn is_same_node(self, other: Place) -> bool {
        self.node().spec_address() == other.node().spec_address() && self.start() == other.start()
    }

    /// What a walk under `top` notes down after it has left the place.
    pub open spec fn walk_after<A>(self, top: Place, notes: Notes<A>) -> Seq<A>
        decreases self.path.len(),
    {
        if self.path.len() <= top.path.len() {
            Seq::empty()
        } else {
            self.parent().walk_from(self.index() + 1, notes) + (notes.on_leave)(self.parent())
                + self.parent().walk_after(top, notes)
        }
    }
}

/// The place that an event is about.
pub open spec fn event_place(event: WalkEvent<Place>) -> Place {
    match event {
        WalkEvent::Enter(place) => place,
        WalkEvent::Leave(place) => place,
    }
}

/// What a walk under `top` notes down from `event` on.
pub open spec fn walk_on<A>(top: Place, event: WalkEvent<Place>, notes: Notes<A>) -> Seq<A> {
    match event {
        WalkEvent::Enter(place) => place.walk(notes) + place.walk_after(top, notes),
        WalkEvent::Leave(place) => (notes.on_leave)(place) + place.walk_after(top, notes),
    }
}

/// What a walk notes down from its next event on, which may be none.
pub open spec fn walk_rest<A>(
    top: Place,
    event: Option<WalkEvent<Place>>,
    notes: Notes<A>,
) -> Seq<A> {
    match event {
        Some(event) => walk_on(top, event, notes),
        None => Seq::empty(),
    }
}

/// The event after `event` in a walk under `top` to nodes and tokens.
pub open spec fn event_after(top: Place, event: WalkEvent<Place>) -> Option<WalkEvent<Place>> {
    match event {
        WalkEvent::Enter(place) => match place.child_at(0) {
            Some(child) => Some(WalkEvent::Enter(child)),
            None => Some(WalkEvent::Leave(place)),
        },
        WalkEvent::Leave(place) => if place == top {
            None
        } else {
            match place.next() {
                Some(sibling) => Some(WalkEvent::Enter(sibling)),
                None => Some(WalkEvent::Leave(place.parent())),
            }
        },
    }
}

/// A walk under `top` to nodes ends when it leaves `place`. One that has been led out of `top` ends
/// at any node that is equal to `top`.
pub open spec fn ends_at(top: Place, place: Place) -> bool {
    place == top || !place.is_under(top) && place.is_same_node(top)
}

/// The event after `event` in a walk under `top` to nodes.
pub open spec fn node_event_after(top: Place, event: WalkEvent<Place>) -> Option<WalkEvent<Place>> {
    match event {
        WalkEvent::Enter(place) => match place.first_node() {
            Some(child) => Some(WalkEvent::Enter(child)),
            None => Some(WalkEvent::Leave(place)),
        },
        WalkEvent::Leave(place) => if ends_at(top, place) {
            None
        } else {
            match place.next_node() {
                Some(sibling) => Some(WalkEvent::Enter(sibling)),
                None => Some(WalkEvent::Leave(place.parent())),
            }
        },
    }
}

/// A place under another is that one or has its parent under it too.
pub proof fn lemma_is_under(place: Place, top: Place)
    requires
        place.is_under(top),
    ensures
        place.path.len() == top.path.len() ==> place == top,
        place.path.len() > top.path.len() ==> place != top && !place.is_root()
            && place.parent().is_under(top),
        forall|i: int| (#[trigger] place.child(i)).is_under(top),
{
    if place.path.len() == top.path.len() {
        assert(place =~= top);
    }
}

/// A walk goes on from one event to the next: what it notes down from `event` on is what it notes
/// for `event`, and then what it notes down from the event after it.
pub proof fn lemma_walk_step<A>(top: Place, event: WalkEvent<Place>, notes: Notes<A>)
    requires
        event_place(event).wf(),
        event_place(event).is_under(top),
    ensures
        walk_on(top, event, notes) == notes.of(event) + walk_rest(
            top,
            event_after(top, event),
            notes,
        ),
        event_after(top, event) matches Some(next) ==> event_place(next).wf() && event_place(
            next,
        ).is_under(top),
{
    let place = event_place(event);
    lemma_is_under(place, top);
    match event {
        WalkEvent::Enter(_) => {
            if place.children().len() > 0 {
                place.lemma_child(0);
            }
        },
        WalkEvent::Leave(_) => {
            if place != top {
                let parent = place.parent();
                lemma_is_under(parent, top);
                place.lemma_bounds();
                if place.index() + 1 < parent.children().len() {
                    parent.lemma_child(place.index() + 1);
                }
            }
        },
    }
    assert(walk_on(top, event, notes) =~= notes.of(event) + walk_rest(
        top,
        event_after(top, event),
        notes,
    ));
}

/// A walk that passes over tokens finds the same from an index on as from the next node on.
proof fn lemma_walk_from_next_node<A>(place: Place, start: int, notes: Notes<A>)
    requires
        place.wf(),
        notes.pass_over_tokens(),
        0 <= start <= place.children().len(),
    ensures
        place.walk_from(start, notes) == place.walk_from(
            node_from(place.children(), start),
            notes,
        ),
    decreases place.children().len() - start,
{
    if start < place.children().len() && !(place.children()[start] is Node) {
        let child = place.child(start);
        place.lemma_child(start);
        lemma_walk_from_next_node(place, start + 1, notes);
        assert(child.is_token());
        assert(child.walk(notes) =~= Seq::empty());
        assert(place.walk_from(start, notes) =~= place.walk_from(start + 1, notes));
    }
}

/// [`lemma_walk_step`] for a walk to nodes, which passes over tokens.
pub proof fn lemma_node_walk_step<A>(top: Place, event: WalkEvent<Place>, notes: Notes<A>)
    requires
        notes.pass_over_tokens(),
        event_place(event).is_node(),
        event_place(event).is_under(top),
    ensures
        walk_on(top, event, notes) == notes.of(event) + walk_rest(
            top,
            node_event_after(top, event),
            notes,
        ),
        node_event_after(top, event) matches Some(next) ==> event_place(next).is_node()
            && event_place(next).is_under(top),
{
    let place = event_place(event);
    lemma_is_under(place, top);
    match event {
        WalkEvent::Enter(_) => {
            let first = node_from(place.children(), 0);
            lemma_node_from(place.children(), 0);
            lemma_walk_from_next_node(place, 0, notes);
            if first < place.children().len() {
                place.lemma_child(first);
            }
        },
        WalkEvent::Leave(_) => {
            if place != top {
                let parent = place.parent();
                lemma_is_under(parent, top);
                place.lemma_bounds();
                let next = node_from(parent.children(), place.index() + 1);
                lemma_node_from(parent.children(), place.index() + 1);
                lemma_walk_from_next_node(parent, place.index() + 1, notes);
                if next < parent.children().len() {
                    parent.lemma_child(next);
                }
            }
        },
    }
    assert(walk_on(top, event, notes) =~= notes.of(event) + walk_rest(
        top,
        node_event_after(top, event),
        notes,
    ));
}

} // verus!
