//! Laws of the events of walks.
//!
//! Each takes calls that have returned: what they were given, and what came back.

use vstd::prelude::*;

use crate::cursor::{SyntaxElement, SyntaxNode};
use crate::laws::lists::comes_before;
use crate::laws::walks::{law_skip_subtree, lemma_under_child};
use crate::place::{lemma_node_from, Place};
use crate::preorder::{event_when_skipping, Preorder, PreorderWithTokens};
use crate::utility_types::WalkEvent;
use crate::walk::{all_events, event_place, node_event_after, node_events, walk_on, walk_rest};
use crate::walk::{lemma_is_under, lemma_node_walk_step, Notes};

verus! {

/// The walk notes down that it enters and that it leaves the places to keep, and no others.
spec fn notes_events(notes: Notes<WalkEvent<Place>>, keep: spec_fn(Place) -> bool) -> bool {
    &&& forall|p: Place| #[trigger]
        (notes.on_enter)(p) == if keep(p) {
            seq![WalkEvent::Enter(p)]
        } else {
            Seq::empty()
        }
    &&& forall|p: Place| #[trigger]
        (notes.on_leave)(p) == if keep(p) {
            seq![WalkEvent::Leave(p)]
        } else {
            Seq::empty()
        }
}

/// The place is entered at `enter` and left at `leave`, and never else. All that is about the place
/// or about what is below it lies between the two, and nothing else does.
pub open spec fn is_enclosed(
    events: Seq<WalkEvent<Place>>,
    place: Place,
    enter: int,
    leave: int,
) -> bool {
    &&& 0 <= enter < leave < events.len()
    &&& forall|i: int| 0 <= i < events.len() ==> (#[trigger] events[i] == WalkEvent::Enter(place)
        <==> i == enter)
    &&& forall|i: int| 0 <= i < events.len() ==> (#[trigger] events[i] == WalkEvent::Leave(place)
        <==> i == leave)
    &&& forall|i: int|
        0 <= i < events.len() ==> (event_place(#[trigger] events[i]).is_under(place) <==> enter
            <= i <= leave)
}

/// The events are those of a walk through the places under `top` that are to be kept: each is
/// entered and left once, around all that is below it, and they are entered in the order of their
/// paths.
pub open spec fn is_walk_through(
    top: Place,
    events: Seq<WalkEvent<Place>>,
    keep: spec_fn(Place) -> bool,
) -> bool {
    &&& forall|i: int|
        0 <= i < events.len() ==> {
            &&& event_place(#[trigger] events[i]).wf()
            &&& event_place(events[i]).is_under(top)
            &&& keep(event_place(events[i]))
        }
    &&& forall|i: int, j: int|
        0 <= i < j < events.len() && #[trigger] events[i] is Enter && #[trigger] events[j] is Enter
            ==> comes_before(event_place(events[i]).path, event_place(events[j]).path)
    &&& forall|place: Place| #[trigger]
        place.is_under(top) && place.wf() && keep(place) ==> exists|enter: int, leave: int|
            is_enclosed(events, place, enter, leave)
}

proof fn lemma_events_under(
    place: Place,
    notes: Notes<WalkEvent<Place>>,
    keep: spec_fn(Place) -> bool,
)
    requires
        place.wf(),
        notes_events(notes, keep),
    ensures
        forall|i: int|
            0 <= i < place.walk(notes).len() ==> {
                &&& event_place(#[trigger] place.walk(notes)[i]).wf()
                &&& event_place(place.walk(notes)[i]).is_under(place)
                &&& keep(event_place(place.walk(notes)[i]))
            },
    decreases place.element()->0, place.children().len() + 1,
{
    lemma_events_under_from(place, 0, notes, keep);
    let enter = (notes.on_enter)(place);
    let below = place.walk_from(0, notes);
    let events = place.walk(notes);
    assert(events =~= enter + below + (notes.on_leave)(place));
    assert forall|i: int| 0 <= i < events.len() implies {
        &&& event_place(#[trigger] events[i]).wf()
        &&& event_place(events[i]).is_under(place)
        &&& keep(event_place(events[i]))
    } by {
        if enter.len() <= i < enter.len() + below.len() {
            assert(events[i] == below[i - enter.len()]);
        }
    }
}

#[verifier::rlimit(40)]
proof fn lemma_events_under_from(
    place: Place,
    start: int,
    notes: Notes<WalkEvent<Place>>,
    keep: spec_fn(Place) -> bool,
)
    requires
        place.wf(),
        0 <= start <= place.children().len(),
        notes_events(notes, keep),
    ensures
        forall|i: int|
            0 <= i < place.walk_from(start, notes).len() ==> {
                let other = event_place(#[trigger] place.walk_from(start, notes)[i]);
                &&& other.wf()
                &&& other.is_under(place)
                &&& keep(other)
                &&& other.path.len() > place.path.len()
                &&& other.path[place.path.len() as int] >= start
            },
    decreases place.element()->0, place.children().len() - start,
{
    let depth = place.path.len() as int;
    let events = place.walk_from(start, notes);
    if start < place.children().len() {
        let child = place.child(start);
        let first = child.walk(notes);
        let rest = place.walk_from(start + 1, notes);
        place.lemma_child(start);
        lemma_events_under(child, notes, keep);
        lemma_events_under_from(place, start + 1, notes, keep);
        assert(events =~= first + rest);
        assert forall|i: int| 0 <= i < events.len() implies {
            let other = event_place(#[trigger] events[i]);
            &&& other.wf()
            &&& other.is_under(place)
            &&& keep(other)
            &&& other.path.len() > place.path.len()
            &&& other.path[depth] >= start
        } by {
            if i < first.len() {
                let other = event_place(first[i]);
                assert(events[i] == first[i]);
                lemma_is_under(place, place);
                assert(child.path[depth] == start);
                assert(other.path[depth] == start);
                assert(place.path =~= other.path.subrange(0, depth));
            } else {
                assert(events[i] == rest[i - first.len()]);
            }
        }
    }
}

/// Where a place is entered and left.
#[verifier::rlimit(40)]
proof fn lemma_enclosed(
    top: Place,
    place: Place,
    notes: Notes<WalkEvent<Place>>,
    keep: spec_fn(Place) -> bool,
) -> (span: (int, int))
    requires
        top.wf(),
        place.wf(),
        place.is_under(top),
        keep(place),
        notes_events(notes, keep),
    ensures
        is_enclosed(top.walk(notes), place, span.0, span.1),
    decreases top.element()->0, top.children().len() + 1,
{
    let enter = (notes.on_enter)(top);
    let below = top.walk_from(0, notes);
    let events = top.walk(notes);
    assert(events =~= enter + below + (notes.on_leave)(top));
    lemma_is_under(place, top);
    lemma_events_under_from(top, 0, notes, keep);
    if place == top {
        lemma_events_under(top, notes, keep);
        let last = events.len() - 1;
        assert forall|i: int| 0 < i < last implies event_place(#[trigger] events[i]) != top by {
            assert(events[i] == below[i - 1]);
        }
        assert(is_enclosed(events, place, 0, last));
        (0, last)
    } else {
        lemma_under_child(place, top);
        let (i, k) = lemma_enclosed_from(top, 0, place, notes, keep);
        let shift = enter.len() as int;
        assert forall|j: int| 0 <= j < events.len() && !(shift <= j < shift + below.len()) implies
            !event_place(#[trigger] events[j]).is_under(place) by {
            assert(event_place(events[j]) == top);
        }
        assert forall|j: int| shift <= j < shift + below.len() implies #[trigger] events[j]
            == below[j - shift] by {}
        assert(is_enclosed(events, place, i + shift, k + shift)) by {
            lemma_shifted(below, events, place, shift, i, k);
        }
        (i + shift, k + shift)
    }
}

/// A span that lies within part of the events lies within all of them.
proof fn lemma_shifted(
    part: Seq<WalkEvent<Place>>,
    events: Seq<WalkEvent<Place>>,
    place: Place,
    shift: int,
    enter: int,
    leave: int,
)
    requires
        is_enclosed(part, place, enter, leave),
        0 <= shift,
        shift + part.len() <= events.len(),
        forall|j: int|
            shift <= j < shift + part.len() ==> #[trigger] events[j] == part[j - shift],
        forall|j: int|
            0 <= j < events.len() && !(shift <= j < shift + part.len()) ==> !event_place(
                #[trigger] events[j],
            ).is_under(place),
    ensures
        is_enclosed(events, place, enter + shift, leave + shift),
{
    assert forall|j: int| 0 <= j < events.len() implies {
        &&& (#[trigger] events[j] == WalkEvent::Enter(place) <==> j == enter + shift)
        &&& (events[j] == WalkEvent::Leave(place) <==> j == leave + shift)
        &&& (event_place(events[j]).is_under(place) <==> enter + shift <= j <= leave + shift)
    } by {
        if shift <= j < shift + part.len() {
            let k = j - shift;
            assert(events[j] == part[k]);
            assert(part[k] == WalkEvent::Enter(place) <==> k == enter);
            assert(part[k] == WalkEvent::Leave(place) <==> k == leave);
            assert(event_place(part[k]).is_under(place) <==> enter <= k <= leave);
        } else {
            assert(place.is_under(place)) by {
                assert(place.path =~= place.path.subrange(0, place.path.len() as int));
            }
        }
    }
}

#[verifier::rlimit(40)]
proof fn lemma_enclosed_from(
    top: Place,
    start: int,
    place: Place,
    notes: Notes<WalkEvent<Place>>,
    keep: spec_fn(Place) -> bool,
) -> (span: (int, int))
    requires
        top.wf(),
        place.wf(),
        place.is_under(top),
        place.path.len() > top.path.len(),
        0 <= start <= place.path[top.path.len() as int] < top.children().len(),
        keep(place),
        notes_events(notes, keep),
    ensures
        is_enclosed(top.walk_from(start, notes), place, span.0, span.1),
    decreases top.element()->0, top.children().len() - start,
{
    let depth = top.path.len() as int;
    let index = place.path[depth];
    let child = top.child(start);
    let first = child.walk(notes);
    let rest = top.walk_from(start + 1, notes);
    let events = top.walk_from(start, notes);
    top.lemma_child(start);
    assert(events =~= first + rest);
    assert(place != top);
    lemma_under_child(place, top);
    lemma_events_under(child, notes, keep);
    lemma_events_under_from(top, start + 1, notes, keep);
    assert(child.path[depth] == start);
    if index == start {
        let (i, k) = lemma_enclosed(child, place, notes, keep);
        assert forall|j: int| first.len() <= j < events.len() implies !event_place(
            #[trigger] events[j],
        ).is_under(place) by {
            let other = event_place(rest[j - first.len()]);
            assert(events[j] == rest[j - first.len()]);
            if other.is_under(place) {
                assert(other.path[depth] == place.path[depth]);
            }
        }
        lemma_shifted(first, events, place, 0, i, k);
        (i, k)
    } else {
        let shift = first.len() as int;
        let (i, k) = lemma_enclosed_from(top, start + 1, place, notes, keep);
        assert forall|j: int| 0 <= j < shift implies !event_place(
            #[trigger] events[j],
        ).is_under(place) by {
            let other = event_place(first[j]);
            assert(events[j] == first[j]);
            assert(other.path[depth] == start);
            if other.is_under(place) {
                assert(other.path[depth] == place.path[depth]);
            }
        }
        lemma_shifted(rest, events, place, shift, i, k);
        (i + shift, k + shift)
    }
}

proof fn lemma_entered_in_order(
    place: Place,
    notes: Notes<WalkEvent<Place>>,
    keep: spec_fn(Place) -> bool,
)
    requires
        place.wf(),
        notes_events(notes, keep),
    ensures
        ({
            let events = place.walk(notes);
            forall|i: int, j: int|
                0 <= i < j < events.len() && #[trigger] events[i] is Enter
                    && #[trigger] events[j] is Enter ==> comes_before(
                    event_place(events[i]).path,
                    event_place(events[j]).path,
                )
        }),
    decreases place.element()->0, place.children().len() + 1,
{
    let enter = (notes.on_enter)(place);
    let below = place.walk_from(0, notes);
    let events = place.walk(notes);
    let depth = place.path.len() as int;
    assert(events =~= enter + below + (notes.on_leave)(place));
    lemma_events_under_from(place, 0, notes, keep);
    lemma_entered_in_order_from(place, 0, notes, keep);
    assert forall|i: int, j: int|
        0 <= i < j < events.len() && #[trigger] events[i] is Enter && #[trigger] events[j] is Enter
    implies comes_before(event_place(events[i]).path, event_place(events[j]).path) by {
        assert(events[j] == below[j - enter.len()]);
        if i < enter.len() {
            assert(event_place(events[i]) == place);
            assert(event_place(events[j]).is_under(place));
            assert(place.path.take(depth) =~= event_place(events[j]).path.take(depth));
        } else {
            assert(events[i] == below[i - enter.len()]);
        }
    }
}

#[verifier::rlimit(40)]
proof fn lemma_entered_in_order_from(
    place: Place,
    start: int,
    notes: Notes<WalkEvent<Place>>,
    keep: spec_fn(Place) -> bool,
)
    requires
        place.wf(),
        0 <= start <= place.children().len(),
        notes_events(notes, keep),
    ensures
        ({
            let events = place.walk_from(start, notes);
            forall|i: int, j: int|
                0 <= i < j < events.len() && #[trigger] events[i] is Enter
                    && #[trigger] events[j] is Enter ==> comes_before(
                    event_place(events[i]).path,
                    event_place(events[j]).path,
                )
        }),
    decreases place.element()->0, place.children().len() - start,
{
    let events = place.walk_from(start, notes);
    if start < place.children().len() {
        let child = place.child(start);
        let first = child.walk(notes);
        let rest = place.walk_from(start + 1, notes);
        let depth = place.path.len() as int;
        place.lemma_child(start);
        lemma_entered_in_order(child, notes, keep);
        lemma_entered_in_order_from(place, start + 1, notes, keep);
        lemma_events_under(child, notes, keep);
        lemma_events_under_from(place, start + 1, notes, keep);
        assert(events =~= first + rest);
        assert(child.path[depth] == start);
        assert forall|i: int, j: int|
            0 <= i < j < events.len() && #[trigger] events[i] is Enter
                && #[trigger] events[j] is Enter implies comes_before(
            event_place(events[i]).path,
            event_place(events[j]).path,
        ) by {
            if j < first.len() {
                assert(events[i] == first[i] && events[j] == first[j]);
            } else if i >= first.len() {
                assert(events[i] == rest[i - first.len()] && events[j] == rest[j - first.len()]);
            } else {
                let a = event_place(first[i]).path;
                let b = event_place(rest[j - first.len()]).path;
                assert(events[i] == first[i] && events[j] == rest[j - first.len()]);
                assert(a[depth] == start);
                assert(a.take(depth) =~= place.path);
                assert(b.take(depth) =~= place.path);
            }
        }
    }
}

proof fn lemma_is_walk_through(
    top: Place,
    notes: Notes<WalkEvent<Place>>,
    keep: spec_fn(Place) -> bool,
)
    requires
        top.wf(),
        notes_events(notes, keep),
    ensures
        is_walk_through(top, top.walk(notes), keep),
{
    lemma_events_under(top, notes, keep);
    lemma_entered_in_order(top, notes, keep);
    assert forall|place: Place| #[trigger]
        place.is_under(top) && place.wf() && keep(place) implies exists|enter: int, leave: int|
        is_enclosed(top.walk(notes), place, enter, leave) by {
        let (enter, leave) = lemma_enclosed(top, place, notes, keep);
        assert(is_enclosed(top.walk(notes), place, enter, leave));
    }
}

/// A walk to nodes and tokens enters and leaves each element under the node once, around all that
/// is below it, and enters them in the order of the text.
pub proof fn law_preorder_with_tokens(
    node: SyntaxNode,
    walk: PreorderWithTokens,
    made: PreorderWithTokens,
)
    requires
        node.wf(),
        call_ensures(SyntaxNode::preorder_with_tokens, (&node,), walk),
        call_ensures(PreorderWithTokens::new, (node,), made),
    ensures
        walk.wf(),
        walk.top() == node@,
        is_walk_through(node@, walk.remaining(), |p: Place| true),
        made.wf(),
        made.top() == node@,
        is_walk_through(node@, made.remaining(), |p: Place| true),
{
    lemma_is_walk_through(node@, all_events(), |p: Place| true);
}

/// A walk to nodes enters and leaves each node under the node once, around all that is below it,
/// and enters them in the order of the text.
pub proof fn law_preorder(node: SyntaxNode, walk: Preorder, made: Preorder)
    requires
        node.wf(),
        call_ensures(SyntaxNode::preorder, (&node,), walk),
        call_ensures(Preorder::new, (node,), made),
    ensures
        walk.wf(),
        walk.is_under_top(),
        !walk.skipping(),
        walk.top() == node@,
        walk.pending() == Some(WalkEvent::Enter(node@)),
        is_walk_through(node@, walk.remaining(), |p: Place| p.is_node()),
        made.wf(),
        made.is_under_top(),
        !made.skipping(),
        made.top() == node@,
        made.pending() == Some(WalkEvent::Enter(node@)),
        is_walk_through(node@, made.remaining(), |p: Place| p.is_node()),
{
    lemma_is_walk_through(node@, node_events(), |p: Place| p.is_node());
}

/// Each step of a walk to nodes and tokens hands out the first of the events to come, and then the
/// others are to come. Nothing comes when none is left.
pub proof fn law_next_with_tokens(
    walk: &mut PreorderWithTokens,
    event: Option<WalkEvent<SyntaxElement>>,
)
    requires
        old(walk).wf(),
        call_ensures(PreorderWithTokens::next, (walk,), event),
    ensures
        final(walk).wf(),
        final(walk).top() == old(walk).top(),
        match event {
            Some(WalkEvent::Enter(element)) => {
                &&& element.wf()
                &&& old(walk).remaining() == seq![WalkEvent::Enter(element@)]
                    + final(walk).remaining()
            },
            Some(WalkEvent::Leave(element)) => {
                &&& element.wf()
                &&& old(walk).remaining() == seq![WalkEvent::Leave(element@)]
                    + final(walk).remaining()
            },
            None => old(walk).remaining().len() == 0 && final(walk).remaining().len() == 0,
        },
{
}

/// Each step of a walk to nodes hands out the first of the events to come, and then the others are
/// to come. Nothing comes when none is left. Until it is told to leave something out, a walk can
/// always go on.
pub proof fn law_next(walk: &mut Preorder, event: Option<WalkEvent<SyntaxNode>>)
    requires
        old(walk).wf(),
        old(walk).is_under_top(),
        call_ensures(Preorder::next, (walk,), event),
    ensures
        call_requires(Preorder::next, (walk,)),
        final(walk).wf(),
        final(walk).is_under_top(),
        !final(walk).skipping(),
        final(walk).top() == old(walk).top(),
        match event {
            Some(WalkEvent::Enter(node)) => {
                &&& node.wf()
                &&& old(walk).remaining() == seq![WalkEvent::Enter(node@)]
                    + final(walk).remaining()
            },
            Some(WalkEvent::Leave(node)) => {
                &&& node.wf()
                &&& old(walk).remaining() == seq![WalkEvent::Leave(node@)]
                    + final(walk).remaining()
            },
            None => old(walk).remaining().len() == 0 && final(walk).remaining().len() == 0,
        },
{
    old(walk).lemma_under_top();
}

/// Where a walk that skips after an event goes on, and how many events it has passed by then.
#[verifier::rlimit(40)]
proof fn lemma_skipped(top: Place, current: WalkEvent<Place>) -> (index: int)
    requires
        event_place(current).is_node(),
        event_place(current).is_under(top),
    ensures
        ({
            let events = walk_on(top, current, node_events());
            let pending = node_event_after(top, current);
            let place = event_place(current);
            &&& pending != Some(WalkEvent::Enter(top))
            &&& pending matches Some(event) ==> event_place(event).is_under(top)
            &&& match event_when_skipping(pending) {
                Some(WalkEvent::Leave(other)) => {
                    &&& 0 < index < events.len()
                    &&& events[index] == WalkEvent::Leave(other)
                    &&& other.root == place.root
                    &&& if current is Enter {
                        other == place
                    } else {
                        place != top && place.path == other.path.push(place.path.last())
                    }
                    &&& walk_rest(
                        top,
                        node_event_after(top, WalkEvent::Leave(other)),
                        node_events(),
                    ) == events.skip(index + 1)
                },
                Some(WalkEvent::Enter(_)) => false,
                None => current == WalkEvent::Leave(top),
            }
        }),
{
    let place = event_place(current);
    let notes = node_events();
    let events = walk_on(top, current, notes);
    lemma_is_under(place, top);
    lemma_node_walk_step(top, current, notes);
    law_skip_subtree(top, place);
    if let Some(WalkEvent::Enter(next)) = node_event_after(top, current) {
        lemma_is_under(next, top);
        if current is Leave {
            place.lemma_bounds();
            lemma_is_under(place.parent(), top);
        }
    }
    if let Some(WalkEvent::Leave(other)) = event_when_skipping(node_event_after(top, current)) {
        let leave = WalkEvent::Leave(other);
        let skipped = match current {
            WalkEvent::Enter(_) => place.walk_from(0, notes),
            WalkEvent::Leave(_) => place.parent().walk_from(place.index() + 1, notes),
        };
        if current is Leave {
            place.lemma_bounds();
            place.lemma_parent();
            lemma_is_under(place.parent(), top);
        }
        let rest = walk_on(top, leave, notes);
        let after = walk_rest(top, node_event_after(top, leave), notes);
        lemma_node_walk_step(top, leave, notes);
        assert(rest =~= seq![leave] + after);
        assert(events =~= seq![current] + skipped + rest);
        let index = 1 + skipped.len() as int;
        assert(after =~= events.skip(index + 1));
        index
    } else {
        0
    }
}

/// A walk that is told to skip after it has entered a node leaves that node next, and after it has
/// left a node the parent of that node. What comes then is what would have come after that without
/// skipping.
#[verifier::rlimit(40)]
pub proof fn law_skip(
    first: &mut Preorder,
    told: &mut Preorder,
    second: &mut Preorder,
    before: Option<WalkEvent<SyntaxNode>>,
    after: Option<WalkEvent<SyntaxNode>>,
)
    requires
        old(first).wf(),
        old(first).is_under_top(),
        call_ensures(Preorder::next, (first,), before),
        *old(told) == *final(first),
        call_ensures(Preorder::skip_subtree, (told,), ()),
        *old(second) == *final(told),
        call_ensures(Preorder::next, (second,), after),
    ensures
        call_requires(Preorder::next, (second,)),
        !final(second).skipping(),
        final(second).is_under_top(),
        match before {
            Some(WalkEvent::Enter(node)) => after matches Some(WalkEvent::Leave(other)) && other@
                == node@,
            Some(WalkEvent::Leave(node)) => if node@ == old(first).top() {
                after is None
            } else {
                after matches Some(WalkEvent::Leave(other)) && other@.root == node@.root
                    && node@.path == other@.path.push(node@.path.last())
            },
            None => after is None,
        },
        after matches Some(WalkEvent::Leave(other)) ==> exists|i: int|
            0 < i < old(first).remaining().len() && #[trigger] old(first).remaining()[i]
                == WalkEvent::Leave(other@) && final(second).remaining() == old(
                first,
            ).remaining().skip(i + 1),
{
    let top = old(first).top();
    old(first).lemma_under_top();
    if let Some(current) = old(first).current() {
        let i = lemma_skipped(top, current);
        old(second).lemma_under_top();
        if let Some(WalkEvent::Leave(other)) = after {
            assert(old(first).remaining()[i] == WalkEvent::Leave(other@));
        }
    }
}

/// One step leads on to the next. From a node that was entered it leads to the first child that is
/// a node, or else out of the node. From a node that was left it leads to the next sibling that is
/// a node, or else out of the parent, but to nothing from where the walk started, nor from a node
/// equal to that outside of it.
#[verifier::rlimit(40)]
pub proof fn law_next_after_next(
    first: &mut Preorder,
    second: &mut Preorder,
    before: Option<WalkEvent<SyntaxNode>>,
    after: Option<WalkEvent<SyntaxNode>>,
)
    requires
        old(first).wf(),
        old(first).can_advance(),
        call_ensures(Preorder::next, (first,), before),
        *old(second) == *final(first),
        call_ensures(Preorder::next, (second,), after),
    ensures
        match before {
            Some(WalkEvent::Enter(node)) => match after {
                Some(WalkEvent::Enter(child)) => {
                    let index = child@.path.last();
                    &&& child.wf()
                    &&& child@.root == node@.root
                    &&& child@.path == node@.path.push(index)
                    &&& 0 <= index < node@.children().len()
                    &&& node@.children()[index] is Node
                    &&& forall|i: int| 0 <= i < index ==> node@.children()[i] is Token
                },
                Some(WalkEvent::Leave(same)) => {
                    &&& same.wf()
                    &&& same@ == node@
                    &&& forall|i: int|
                        0 <= i < node@.children().len() ==> node@.children()[i] is Token
                },
                None => false,
            },
            Some(WalkEvent::Leave(node)) => {
                let top = old(first).top();
                let parent = Place { root: node@.root, path: node@.path.drop_last() };
                if node@ == top || !node@.is_under(top) && node@.node().spec_address()
                    == top.node().spec_address() && node@.start() == top.start() {
                    after is None
                } else {
                    match after {
                        Some(WalkEvent::Enter(sibling)) => {
                            let index = sibling@.path.last();
                            &&& sibling.wf()
                            &&& sibling@.root == node@.root
                            &&& sibling@.path == parent.path.push(index)
                            &&& node@.path.last() < index < parent.children().len()
                            &&& parent.children()[index] is Node
                            &&& forall|i: int|
                                node@.path.last() < i < index ==> parent.children()[i] is Token
                        },
                        Some(WalkEvent::Leave(above)) => {
                            &&& above.wf()
                            &&& above@ == parent
                            &&& forall|i: int|
                                node@.path.last() < i < parent.children().len()
                                    ==> parent.children()[i] is Token
                        },
                        None => false,
                    }
                }
            },
            None => after is None,
        },
{
    if let Some(current) = old(first).current() {
        let place = event_place(current);
        match before {
            Some(WalkEvent::Enter(node)) => {
                lemma_node_from(node@.children(), 0);
            },
            Some(WalkEvent::Leave(node)) => {
                node@.lemma_bounds();
                if !node@.is_root() {
                    lemma_node_from(node@.parent().children(), node@.index() + 1);
                }
            },
            None => {},
        }
    }
}

/// To be told to skip changes nothing else of a walk.
pub proof fn law_told_to_skip(walk: &mut Preorder)
    requires
        old(walk).wf(),
        call_ensures(Preorder::skip_subtree, (walk,), ()),
    ensures
        final(walk).wf(),
        final(walk).top() == old(walk).top(),
        final(walk).pending() == old(walk).pending(),
        final(walk).skipping(),
{
}

/// A walk can go on unless it would have to go up from the root of the tree.
pub proof fn law_able_to_advance(walk: Preorder, able: bool)
    requires
        walk.wf(),
        call_ensures(Preorder::is_able_to_advance, (&walk,), able),
    ensures
        walk.is_under_top() ==> able,
        able <==> walk.can_advance(),
        able <==> match walk.pending() {
            None => true,
            Some(event) => {
                let top = walk.top();
                let at = event_place(event);
                let above = Place { root: at.root, path: at.path.drop_last() };
                let left = if event is Enter {
                    above
                } else {
                    at
                };
                let ends = left == top || !left.is_under(top) && left.node().spec_address()
                    == top.node().spec_address() && left.start() == top.start();
                if event is Enter && !walk.skipping() {
                    true
                } else if event is Enter && at.path.len() == 0 {
                    false
                } else {
                    ends || left.path.len() > 0
                }
            },
        },
{
    if walk.is_under_top() {
        walk.lemma_under_top();
    }
}

/// A walk hands out the event that is pending. If it was told to skip, and the event is to enter a
/// node, it hands out instead that the parent of that node is left.
pub proof fn law_next_event(walk: &mut Preorder, event: Option<WalkEvent<SyntaxNode>>)
    requires
        old(walk).wf(),
        old(walk).can_advance(),
        call_ensures(Preorder::next, (walk,), event),
    ensures
        final(walk).wf(),
        !final(walk).skipping(),
        final(walk).top() == old(walk).top(),
        match old(walk).pending() {
            Some(WalkEvent::Enter(place)) => if old(walk).skipping() {
                event matches Some(WalkEvent::Leave(node)) && node.wf() && node@.root == place.root
                    && place.path == node@.path.push(place.path.last())
            } else {
                event matches Some(WalkEvent::Enter(node)) && node.wf() && node@ == place
            },
            Some(WalkEvent::Leave(place)) => event matches Some(WalkEvent::Leave(node))
                && node.wf() && node@ == place,
            None => event is None,
        },
{
    if let Some(WalkEvent::Enter(place)) = old(walk).pending() {
        if old(walk).skipping() {
            place.lemma_parent();
        }
    }
}

/// An event is about the place that is entered or left.
pub proof fn law_event_place(place: Place)
    ensures
        event_place(WalkEvent::Enter(place)) == place,
        event_place(WalkEvent::Leave(place)) == place,
{
}

} // verus!
