//! Laws of walks.

use vstd::prelude::*;

use crate::green::len_of;
use crate::place::{lemma_node_from, Place};
use crate::preorder::event_when_skipping;
use crate::utility_types::WalkEvent;
use crate::walk::{all_events, all_places, node_events, node_places, token_places, Notes};
use crate::walk::{event_place, lemma_is_under, node_event_after};

verus! {

/// All above a place that has an element have one.
proof fn lemma_wf_above(place: Place, top: Place)
    requires
        place.wf(),
        place.is_under(top),
    ensures
        top.wf(),
    decreases place.path.len(),
{
    lemma_is_under(place, top);
    if place != top {
        place.lemma_bounds();
        lemma_wf_above(place.parent(), top);
    }
}

/// A place under another is that one or is under one of its children.
pub proof fn lemma_under_child(place: Place, top: Place)
    requires
        place.wf(),
        place.is_under(top),
        place != top,
    ensures
        top.wf(),
        place.path.len() > top.path.len(),
        0 <= place.path[top.path.len() as int] < top.children().len(),
        place.is_under(top.child(place.path[top.path.len() as int])),
{
    lemma_is_under(place, top);
    let child = top.child(place.path[top.path.len() as int]);
    assert(place.is_under(child));
    lemma_wf_above(place, child);
    child.lemma_bounds();
    assert(child.parent() =~= top);
}

proof fn lemma_contains_concat<A>(a: Seq<A>, b: Seq<A>, x: A)
    ensures
        (a + b).contains(x) <==> a.contains(x) || b.contains(x),
{
    if a.contains(x) {
        let i = choose|i: int| 0 <= i < a.len() && a[i] == x;
        assert((a + b)[i] == x);
    }
    if b.contains(x) {
        let i = choose|i: int| 0 <= i < b.len() && b[i] == x;
        assert((a + b)[a.len() + i] == x);
    }
}

/// The places at and below a place are those that the walk through it comes to, each once.
pub proof fn law_walk_visits_each_once(place: Place)
    requires
        place.wf(),
    ensures
        place.descendants_with_tokens().no_duplicates(),
        forall|other: Place| #[trigger]
            place.descendants_with_tokens().contains(other) <==> other.wf() && other.is_under(
                place,
            ),
    decreases place.element()->0, place.children().len() + 1,
{
    let below = place.walk_from(0, all_places());
    lemma_visits_each_once_from(place, 0);
    assert(place.descendants_with_tokens() =~= seq![place] + below);
    assert forall|other: Place| #[trigger]
        place.descendants_with_tokens().contains(other) <==> other.wf() && other.is_under(
            place,
        ) by {
        lemma_contains_concat(seq![place], below, other);
        assert(seq![place].contains(other) <==> other == place) by {
            assert(seq![place][0] == place);
        }
        if other.wf() && other.is_under(place) && other != place {
            lemma_under_child(other, place);
        }
    }
    assert(!below.contains(place));
    vstd::seq_lib::lemma_no_dup_in_concat(seq![place], below);
}

pub proof fn lemma_visits_each_once_from(place: Place, start: int)
    requires
        place.wf(),
        0 <= start <= place.children().len(),
    ensures
        place.walk_from(start, all_places()).no_duplicates(),
        forall|other: Place| #[trigger]
            place.walk_from(start, all_places()).contains(other) <==> {
                &&& other.wf()
                &&& other.is_under(place)
                &&& other.path.len() > place.path.len()
                &&& start <= other.path[place.path.len() as int]
            },
    decreases place.element()->0, place.children().len() - start,
{
    let all = place.walk_from(start, all_places());
    if start < place.children().len() {
        let child = place.child(start);
        let first = child.descendants_with_tokens();
        let rest = place.walk_from(start + 1, all_places());
        place.lemma_child(start);
        law_walk_visits_each_once(child);
        lemma_visits_each_once_from(place, start + 1);
        assert(all =~= first + rest);
        assert forall|other: Place| #[trigger] all.contains(other) <==> {
            &&& other.wf()
            &&& other.is_under(place)
            &&& other.path.len() > place.path.len()
            &&& start <= other.path[place.path.len() as int]
        } by {
            lemma_contains_concat(first, rest, other);
            if other.wf() && other.is_under(place) && other.path.len() > place.path.len() {
                lemma_under_child(other, place);
            }
            if other.is_under(child) {
                assert(child.path[place.path.len() as int] == start);
                assert(other.path[place.path.len() as int] == start);
                assert(other.is_under(place));
            }
        }
        assert forall|i: int, j: int| 0 <= i < first.len() && 0 <= j < rest.len() implies first[i]
            != rest[j] by {
            assert(first.contains(first[i]));
            assert(rest.contains(rest[j]));
            assert(first[i].is_under(child));
            assert(child.path[place.path.len() as int] == start);
            assert(first[i].path[place.path.len() as int] == start);
        }
        vstd::seq_lib::lemma_no_dup_in_concat(first, rest);
    } else {
        assert forall|other: Place| #[trigger] all.contains(other) <==> {
            &&& other.wf()
            &&& other.is_under(place)
            &&& other.path.len() > place.path.len()
            &&& start <= other.path[place.path.len() as int]
        } by {
            if other.wf() && other.is_under(place) && other.path.len() > place.path.len() {
                lemma_under_child(other, place);
            }
        }
    }
}

/// The nodes and the tokens that a walk comes to are told apart by what they are.
pub proof fn law_nodes_and_tokens(place: Place)
    requires
        place.wf(),
    ensures
        place.descendants() == place.descendants_with_tokens().filter(|p: Place| p.is_node()),
        place.tokens() == place.descendants_with_tokens().filter(|p: Place| p.is_token()),
{
    lemma_filtered_walk(place, node_places(), |p: Place| p.is_node());
    lemma_filtered_walk(place, token_places(), |p: Place| p.is_token());
}

/// What a filter makes of one item.
pub proof fn lemma_filter_one<A>(item: A, keep: spec_fn(A) -> bool)
    ensures
        seq![item].filter(keep) == if keep(item) {
            seq![item]
        } else {
            Seq::empty()
        },
{
    reveal_with_fuel(Seq::filter, 2);
    assert(seq![item].drop_last() =~= Seq::empty());
}

proof fn lemma_filtered_walk(place: Place, notes: Notes<Place>, keep: spec_fn(Place) -> bool)
    requires
        place.wf(),
        forall|p: Place| #[trigger]
            (notes.on_enter)(p) == if keep(p) {
                seq![p]
            } else {
                Seq::empty()
            },
        forall|p: Place| #[trigger] (notes.on_leave)(p) == Seq::<Place>::empty(),
    ensures
        place.walk(notes) == place.descendants_with_tokens().filter(keep),
    decreases place.element()->0, place.children().len() + 1,
{
    let below = place.walk_from(0, all_places());
    lemma_filtered_walk_from(place, 0, notes, keep);
    assert(place.descendants_with_tokens() =~= seq![place] + below);
    Seq::filter_distributes_over_add(seq![place], below, keep);
    lemma_filter_one(place, keep);
    assert(place.walk(notes) =~= (notes.on_enter)(place) + place.walk_from(0, notes));
}

proof fn lemma_filtered_walk_from(
    place: Place,
    start: int,
    notes: Notes<Place>,
    keep: spec_fn(Place) -> bool,
)
    requires
        place.wf(),
        0 <= start <= place.children().len(),
        forall|p: Place| #[trigger]
            (notes.on_enter)(p) == if keep(p) {
                seq![p]
            } else {
                Seq::empty()
            },
        forall|p: Place| #[trigger] (notes.on_leave)(p) == Seq::<Place>::empty(),
    ensures
        place.walk_from(start, notes) == place.walk_from(start, all_places()).filter(keep),
    decreases place.element()->0, place.children().len() - start,
{
    if start < place.children().len() {
        place.lemma_child(start);
        lemma_filtered_walk(place.child(start), notes, keep);
        lemma_filtered_walk_from(place, start + 1, notes, keep);
        Seq::filter_distributes_over_add(
            place.child(start).descendants_with_tokens(),
            place.walk_from(start + 1, all_places()),
            keep,
        );
    } else {
        reveal(Seq::filter);
    }
}

/// Each node that a walk enters it leaves again, and likewise each token.
pub proof fn law_entered_and_left(place: Place)
    requires
        place.wf(),
    ensures
        place.walk(node_events()).len() == 2 * place.descendants().len(),
        place.walk(all_events()).len() == 2 * place.descendants_with_tokens().len(),
    decreases place.element()->0, place.children().len() + 1,
{
    lemma_entered_and_left_from(place, 0);
}

proof fn lemma_entered_and_left_from(place: Place, start: int)
    requires
        place.wf(),
        0 <= start <= place.children().len(),
    ensures
        place.walk_from(start, node_events()).len() == 2 * place.walk_from(
            start,
            node_places(),
        ).len(),
        place.walk_from(start, all_events()).len() == 2 * place.walk_from(start, all_places()).len(),
    decreases place.element()->0, place.children().len() - start,
{
    if start < place.children().len() {
        place.lemma_child(start);
        law_entered_and_left(place.child(start));
        lemma_entered_and_left_from(place, start + 1);
    }
}

/// To skip after a node has been entered is to leave it at once. To skip after a node has been left
/// is to leave its parent.
pub proof fn law_skip_subtree(top: Place, place: Place)
    requires
        place.is_node(),
        place.is_under(top),
    ensures
        event_when_skipping(node_event_after(top, WalkEvent::Enter(place))) == Some(
            WalkEvent::Leave(place),
        ),
        event_when_skipping(node_event_after(top, WalkEvent::Leave(place))) == if place == top {
            None
        } else {
            Some(WalkEvent::Leave(place.parent()))
        },
{
    lemma_is_under(place, top);
    lemma_node_from(place.children(), 0);
    if let Some(child) = place.first_node() {
        place.lemma_child(child.index());
    }
    if place != top {
        place.lemma_bounds();
        lemma_node_from(place.parent().children(), place.index() + 1);
        if let Some(sibling) = place.next_node() {
            place.parent().lemma_child(sibling.index());
        }
    }
}

/// The places that are entered, in the order of the events.
pub open spec fn entered(events: Seq<WalkEvent<Place>>) -> Seq<Place> {
    events.filter(|event: WalkEvent<Place>| event is Enter).map_values(
        |event: WalkEvent<Place>| event_place(event),
    )
}

proof fn lemma_entered_concat(a: Seq<WalkEvent<Place>>, b: Seq<WalkEvent<Place>>)
    ensures
        entered(a + b) == entered(a) + entered(b),
{
    Seq::filter_distributes_over_add(a, b, |event: WalkEvent<Place>| event is Enter);
    assert(entered(a + b) =~= entered(a) + entered(b));
}

/// What a walk gives as descendants is what its events enter.
pub proof fn law_descendants_are_entered(place: Place)
    requires
        place.wf(),
    ensures
        entered(place.walk(node_events())) == place.descendants(),
        entered(place.walk(all_events())) == place.descendants_with_tokens(),
{
    let is_enter = |event: WalkEvent<Place>| event is Enter;
    let empty = Seq::<WalkEvent<Place>>::empty();
    assert(entered(empty) =~= Seq::empty()) by {
        reveal(Seq::filter);
    }
    assert forall|p: Place|
        #![trigger (node_places().on_enter)(p)]
        #![trigger (all_places().on_enter)(p)]
        entered((node_events().on_enter)(p)) == (node_places().on_enter)(p) && entered(
            (all_events().on_enter)(p),
        ) == (all_places().on_enter)(p) by {
        lemma_filter_one(WalkEvent::Enter(p), is_enter);
        assert(entered(seq![WalkEvent::Enter(p)]) =~= seq![p]);
    }
    assert forall|p: Place|
        #![trigger (node_places().on_leave)(p)]
        #![trigger (all_places().on_leave)(p)]
        entered((node_events().on_leave)(p)) == (node_places().on_leave)(p) && entered(
            (all_events().on_leave)(p),
        ) == (all_places().on_leave)(p) by {
        lemma_filter_one(WalkEvent::Leave(p), is_enter);
        assert(entered(seq![WalkEvent::Leave(p)]) =~= Seq::empty());
    }
    lemma_entered(place, node_events(), node_places());
    lemma_entered(place, all_events(), all_places());
}

proof fn lemma_entered(place: Place, events: Notes<WalkEvent<Place>>, places: Notes<Place>)
    requires
        place.wf(),
        forall|p: Place| entered((events.on_enter)(p)) == #[trigger] (places.on_enter)(p),
        forall|p: Place| entered((events.on_leave)(p)) == #[trigger] (places.on_leave)(p),
        entered(Seq::empty()) == Seq::<Place>::empty(),
    ensures
        entered(place.walk(events)) == place.walk(places),
    decreases place.element()->0, place.children().len() + 1,
{
    let enter = (events.on_enter)(place);
    let below = place.walk_from(0, events);
    lemma_entered_from(place, 0, events, places);
    lemma_entered_concat(enter + below, (events.on_leave)(place));
    lemma_entered_concat(enter, below);
    assert(entered(enter) == (places.on_enter)(place));
    assert(entered((events.on_leave)(place)) == (places.on_leave)(place));
}

proof fn lemma_entered_from(
    place: Place,
    start: int,
    events: Notes<WalkEvent<Place>>,
    places: Notes<Place>,
)
    requires
        place.wf(),
        0 <= start <= place.children().len(),
        forall|p: Place| entered((events.on_enter)(p)) == #[trigger] (places.on_enter)(p),
        forall|p: Place| entered((events.on_leave)(p)) == #[trigger] (places.on_leave)(p),
        entered(Seq::empty()) == Seq::<Place>::empty(),
    ensures
        entered(place.walk_from(start, events)) == place.walk_from(start, places),
    decreases place.element()->0, place.children().len() - start,
{
    if start < place.children().len() {
        place.lemma_child(start);
        lemma_entered(place.child(start), events, places);
        lemma_entered_from(place, start + 1, events, places);
        lemma_entered_concat(
            place.child(start).walk(events),
            place.walk_from(start + 1, events),
        );
    }
}

/// The events of a walk to nodes and tokens, without those of tokens, are those of a walk to nodes.
pub proof fn law_events_without_tokens(place: Place)
    requires
        place.wf(),
    ensures
        place.walk(all_events()).filter(|event: WalkEvent<Place>| event_place(event).is_node())
            == place.walk(node_events()),
    decreases place.element()->0, place.children().len() + 1,
{
    let keep = |event: WalkEvent<Place>| event_place(event).is_node();
    let enter = seq![WalkEvent::Enter(place)];
    let leave = seq![WalkEvent::Leave(place)];
    let below = place.walk_from(0, all_events());
    lemma_events_without_tokens_from(place, 0);
    lemma_filter_one(WalkEvent::Enter(place), keep);
    lemma_filter_one(WalkEvent::Leave(place), keep);
    Seq::filter_distributes_over_add(enter + below, leave, keep);
    Seq::filter_distributes_over_add(enter, below, keep);
}

proof fn lemma_events_without_tokens_from(place: Place, start: int)
    requires
        place.wf(),
        0 <= start <= place.children().len(),
    ensures
        place.walk_from(start, all_events()).filter(
            |event: WalkEvent<Place>| event_place(event).is_node(),
        ) == place.walk_from(start, node_events()),
    decreases place.element()->0, place.children().len() - start,
{
    let keep = |event: WalkEvent<Place>| event_place(event).is_node();
    if start < place.children().len() {
        place.lemma_child(start);
        law_events_without_tokens(place.child(start));
        lemma_events_without_tokens_from(place, start + 1);
        Seq::filter_distributes_over_add(
            place.child(start).walk(all_events()),
            place.walk_from(start + 1, all_events()),
            keep,
        );
    } else {
        reveal(Seq::filter);
    }
}

/// The places stand side by side from one offset to another.
pub open spec fn tile(places: Seq<Place>, start: int, end: int) -> bool {
    if places.len() == 0 {
        start == end
    } else {
        &&& places[0].start() == start
        &&& places.last().end() == end
        &&& forall|i: int, j: int|
            0 <= i < places.len() && j == i + 1 && j < places.len() ==> (#[trigger] places[i]).end()
                == (#[trigger] places[j]).start()
    }
}

proof fn lemma_tile_concat(a: Seq<Place>, b: Seq<Place>, start: int, middle: int, end: int)
    requires
        tile(a, start, middle),
        tile(b, middle, end),
    ensures
        tile(a + b, start, end),
{
    let all = a + b;
    if a.len() == 0 {
        assert(all =~= b);
    } else if b.len() == 0 {
        assert(all =~= a);
    } else {
        assert forall|i: int, j: int| 0 <= i < all.len() && j == i + 1 && j < all.len() implies (
        #[trigger] all[i]).end() == (#[trigger] all[j]).start() by {
            if j < a.len() {
                assert(a[i].end() == a[j].start());
            } else if i >= a.len() {
                assert(b[i - a.len()].end() == b[j - a.len()].start());
            }
        }
    }
}

/// The tokens of a place stand side by side from its start to its end.
pub proof fn law_tokens_tile_the_range(place: Place)
    requires
        place.wf(),
    ensures
        tile(place.tokens(), place.start(), place.end()),
    decreases place.element()->0, place.children().len() + 1,
{
    place.lemma_bounds();
    if place.is_node() {
        lemma_tokens_tile_from(place, 0);
        assert(place.tokens() =~= place.walk_from(0, token_places()));
    } else {
        assert(place.tokens() =~= seq![place]);
    }
}

proof fn lemma_tokens_tile_from(place: Place, start: int)
    requires
        place.is_node(),
        0 <= start <= place.children().len(),
    ensures
        tile(
            place.walk_from(start, token_places()),
            place.start() + len_of(place.children(), start),
            place.end(),
        ),
    decreases place.element()->0, place.children().len() - start,
{
    place.lemma_bounds();
    if start < place.children().len() {
        let child = place.child(start);
        place.lemma_child(start);
        law_tokens_tile_the_range(child);
        lemma_tokens_tile_from(place, start + 1);
        lemma_tile_concat(
            child.tokens(),
            place.walk_from(start + 1, token_places()),
            child.start(),
            child.end(),
            place.end(),
        );
    }
}

/// In a walk nothing comes before what it is under. In particular no element comes before its
/// parent.
pub proof fn law_parents_come_first(place: Place, earlier: int, later: int)
    requires
        place.wf(),
        0 <= earlier < later < place.descendants_with_tokens().len(),
    ensures
        !place.descendants_with_tokens()[earlier].is_under(place.descendants_with_tokens()[later]),
        !place.descendants_with_tokens()[earlier].is_root()
            ==> place.descendants_with_tokens()[later]
            != place.descendants_with_tokens()[earlier].parent(),
    decreases place.element()->0, place.children().len() + 1,
{
    let all = place.descendants_with_tokens();
    let below = place.walk_from(0, all_places());
    law_walk_visits_each_once(place);
    assert(all =~= seq![place] + below);
    assert(all.contains(all[earlier]));
    assert(all.contains(all[later]));
    if earlier == 0 {
        if place.is_under(all[later]) {
            assert(place =~= all[later]);
        }
    } else {
        lemma_parents_come_first_from(place, 0, earlier - 1, later - 1);
    }
    if !all[earlier].is_root() && all[later] == all[earlier].parent() {
        assert(all[earlier].is_under(all[later]));
    }
}

proof fn lemma_parents_come_first_from(place: Place, start: int, earlier: int, later: int)
    requires
        place.wf(),
        0 <= start <= place.children().len(),
        0 <= earlier < later < place.walk_from(start, all_places()).len(),
    ensures
        ({
            let all = place.walk_from(start, all_places());
            !all[earlier].is_under(all[later])
        }),
    decreases place.element()->0, place.children().len() - start,
{
    let all = place.walk_from(start, all_places());
    let child = place.child(start);
    let first = child.descendants_with_tokens();
    let rest = place.walk_from(start + 1, all_places());
    let depth = place.path.len() as int;
    place.lemma_child(start);
    assert(all =~= first + rest);
    if later < first.len() {
        law_parents_come_first(child, earlier, later);
    } else if earlier >= first.len() {
        lemma_parents_come_first_from(
            place,
            start + 1,
            earlier - first.len(),
            later - first.len(),
        );
    } else {
        law_walk_visits_each_once(child);
        lemma_visits_each_once_from(place, start + 1);
        assert(first.contains(first[earlier]));
        assert(rest.contains(rest[later - first.len()]));
        assert(child.path[depth] == start);
        assert(all[earlier].path[depth] == start);
        assert(all[later].path[depth] > start);
    }
}

} // verus!
