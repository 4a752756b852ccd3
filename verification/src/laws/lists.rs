//! Laws of the functions that list nodes and tokens.
//!
//! Each takes a call that has returned: what it was given, and what came back.

use vstd::prelude::*;

use crate::cursor::{SyntaxElement, SyntaxElementChildren, SyntaxNode, SyntaxNodeChildren};
use crate::cursor::SyntaxToken;
use crate::laws::steps::is_neighbour;
use crate::laws::walks::{law_nodes_and_tokens, law_walk_visits_each_once};
use crate::laws::walks::lemma_visits_each_once_from;
use crate::place::{lemma_node_before, lemma_node_from, Place};
use crate::utility_types::Direction;
use crate::walk::all_places;

verus! {

/// By how much the index changes from one sibling to the next in a direction.
pub open spec fn step_of(direction: Direction) -> int {
    match direction {
        Direction::Next => 1,
        Direction::Prev => -1,
    }
}

/// A list that starts with the place, goes on from each item to its neighbour, and ends where there
/// is no further neighbour.
pub open spec fn lists_neighbours(place: Place, found: Seq<SyntaxElement>, step: int) -> bool {
    &&& found.len() > 0
    &&& found[0].wf()
    &&& found[0]@ == place
    &&& forall|i: int, j: int|
        0 <= i && j == i + 1 && j < found.len() ==> is_neighbour(
            (#[trigger] found[i])@,
            Some(#[trigger] found[j]),
            step,
        )
    &&& is_neighbour(found.last()@, None, step)
}

/// The siblings of a node and of a token are listed from itself on, one after the other, as far as
/// there are any.
pub proof fn law_siblings_with_tokens(
    node: SyntaxNode,
    token: SyntaxToken,
    direction: Direction,
    of_node: Vec<SyntaxElement>,
    of_token: Vec<SyntaxElement>,
)
    requires
        node.wf(),
        token.wf(),
        call_ensures(SyntaxNode::siblings_with_tokens, (&node, direction), of_node),
        call_ensures(SyntaxToken::siblings_with_tokens, (&token, direction), of_token),
    ensures
        lists_neighbours(node@, of_node@, step_of(direction)),
        lists_neighbours(token@, of_token@, step_of(direction)),
{
    lemma_lists_neighbours(node@, of_node@, direction);
    lemma_lists_neighbours(token@, of_token@, direction);
}

proof fn lemma_lists_neighbours(place: Place, found: Seq<SyntaxElement>, direction: Direction)
    requires
        place.wf(),
        crate::cursor::elements_found(
            found,
            match direction {
                Direction::Next => place.siblings_after(),
                Direction::Prev => place.siblings_before(),
            },
        ),
    ensures
        lists_neighbours(place, found, step_of(direction)),
{
    place.lemma_bounds();
    let step = step_of(direction);
    if place.is_root() {
        assert(found[0]@ == place);
    } else {
        let parent = place.parent();
        place.lemma_parent();
        assert(found[0]@ == place);
        assert forall|i: int| 0 <= i < found.len() implies (#[trigger] found[i])@.root
            == place.root && found[i]@.path == place.path.drop_last().push(
            place.path.last() + step * i,
        ) by {
            assert(step * i == if step == 1 { i } else { -i }) by (nonlinear_arith)
                requires
                    step == 1 || step == -1,
            ;
        }
        assert forall|i: int, j: int| 0 <= i && j == i + 1 && j < found.len() implies is_neighbour(
            (#[trigger] found[i])@,
            Some(#[trigger] found[j]),
            step,
        ) by {
            assert(step * j == step * i + step) by (nonlinear_arith)
                requires
                    j == i + 1,
            ;
            assert(found[i]@.path.drop_last() =~= place.path.drop_last());
        }
        let last = found.len() - 1;
        assert(found[last]@.path.drop_last() =~= place.path.drop_last());
        assert(step * last == if step == 1 { last } else { -last }) by (nonlinear_arith)
            requires
                step == 1 || step == -1,
        ;
    }
}

/// `later` is a child of the same parent after `earlier`, a node, and no node is between.
pub open spec fn are_adjacent_nodes(earlier: Place, later: Place) -> bool {
    let children = (Place { root: earlier.root, path: earlier.path.drop_last() }).children();
    &&& later.root == earlier.root
    &&& earlier.path.len() > 0
    &&& later.path.len() > 0
    &&& later.path.drop_last() == earlier.path.drop_last()
    &&& earlier.path.last() < later.path.last() < children.len()
    &&& children[later.path.last()] is Node
    &&& children[earlier.path.last()] is Node
    &&& forall|i: int| earlier.path.last() < i < later.path.last() ==> children[i] is Token
}

/// The place is the root, or all siblings after it are tokens.
pub open spec fn no_node_after(place: Place) -> bool {
    let children = (Place { root: place.root, path: place.path.drop_last() }).children();
    place.path.len() == 0 || forall|i: int|
        place.path.last() < i < children.len() ==> children[i] is Token
}

/// The place is the root, or all siblings before it are tokens.
pub open spec fn no_node_before(place: Place) -> bool {
    let children = (Place { root: place.root, path: place.path.drop_last() }).children();
    place.path.len() == 0 || forall|i: int| 0 <= i < place.path.last() ==> children[i] is Token
}

/// The siblings of a node that are nodes are listed from itself on, each after or before the last
/// with no node between, as far as there are any.
pub proof fn law_siblings(
    node: SyntaxNode,
    forwards: Vec<SyntaxNode>,
    backwards: Vec<SyntaxNode>,
)
    requires
        node.wf(),
        call_ensures(SyntaxNode::siblings, (&node, Direction::Next), forwards),
        call_ensures(SyntaxNode::siblings, (&node, Direction::Prev), backwards),
    ensures
        forwards@.len() > 0,
        forwards@[0]@ == node@,
        forall|i: int| 0 <= i < forwards@.len() ==> (#[trigger] forwards@[i]).wf(),
        forall|i: int, j: int|
            0 <= i && j == i + 1 && j < forwards@.len() ==> are_adjacent_nodes(
                (#[trigger] forwards@[i])@,
                (#[trigger] forwards@[j])@,
            ),
        no_node_after(forwards@.last()@),
        backwards@.len() > 0,
        backwards@[0]@ == node@,
        forall|i: int| 0 <= i < backwards@.len() ==> (#[trigger] backwards@[i]).wf(),
        forall|i: int, j: int|
            0 <= i && j == i + 1 && j < backwards@.len() ==> are_adjacent_nodes(
                (#[trigger] backwards@[j])@,
                (#[trigger] backwards@[i])@,
            ),
        no_node_before(backwards@.last()@),
{
    lemma_nodes_forwards(node@);
    lemma_nodes_backwards(node@);
}

proof fn lemma_nodes_forwards(place: Place)
    requires
        place.is_node(),
    ensures
        ({
            let all = place.node_siblings_after();
            &&& all.len() > 0
            &&& all[0] == place
            &&& forall|i: int, j: int|
                0 <= i && j == i + 1 && j < all.len() ==> are_adjacent_nodes(
                    #[trigger] all[i],
                    #[trigger] all[j],
                )
            &&& no_node_after(all.last())
        }),
    decreases place.node_siblings_after().len(),
{
    let all = place.node_siblings_after();
    place.lemma_node_siblings();
    place.lemma_bounds();
    if !place.is_root() {
        let children = place.parent().children();
        lemma_node_from(children, place.index() + 1);
        if let Some(next) = place.next_node() {
            place.parent().lemma_child(next.index());
            let rest = next.node_siblings_after();
            lemma_nodes_forwards(next);
            assert(all =~= seq![place] + rest);
            assert(next.path.drop_last() =~= place.path.drop_last());
            assert(are_adjacent_nodes(place, next));
            assert forall|i: int, j: int|
                0 <= i && j == i + 1 && j < all.len() implies are_adjacent_nodes(
                #[trigger] all[i],
                #[trigger] all[j],
            ) by {
                if i > 0 {
                    assert(are_adjacent_nodes(rest[i - 1], rest[j - 1]));
                }
            }
            assert(all.last() == rest.last());
        } else {
            assert(all =~= seq![place]);
        }
    }
}

proof fn lemma_nodes_backwards(place: Place)
    requires
        place.is_node(),
    ensures
        ({
            let all = place.node_siblings_before();
            &&& all.len() > 0
            &&& all[0] == place
            &&& forall|i: int, j: int|
                0 <= i && j == i + 1 && j < all.len() ==> are_adjacent_nodes(
                    #[trigger] all[j],
                    #[trigger] all[i],
                )
            &&& no_node_before(all.last())
        }),
    decreases place.node_siblings_before().len(),
{
    let all = place.node_siblings_before();
    place.lemma_node_siblings();
    place.lemma_bounds();
    if !place.is_root() {
        let children = place.parent().children();
        lemma_node_before(children, place.index());
        if let Some(prev) = place.prev_node() {
            place.parent().lemma_child(prev.index());
            let rest = prev.node_siblings_before();
            lemma_nodes_backwards(prev);
            assert(all =~= seq![place] + rest);
            assert(prev.path.drop_last() =~= place.path.drop_last());
            assert(are_adjacent_nodes(prev, place));
            assert forall|i: int, j: int|
                0 <= i && j == i + 1 && j < all.len() implies are_adjacent_nodes(
                #[trigger] all[j],
                #[trigger] all[i],
            ) by {
                if i > 0 {
                    assert(are_adjacent_nodes(rest[j - 1], rest[i - 1]));
                }
            }
            assert(all.last() == rest.last());
        } else {
            assert(all =~= seq![place]);
        }
    }
}

/// The list holds, in the order of their indices, the children that are nodes, and nothing else.
pub open spec fn lists_node_children(place: Place, start: int, found: Seq<Place>) -> bool {
    &&& forall|i: int|
        0 <= i < found.len() ==> {
            &&& (#[trigger] found[i]).root == place.root
            &&& found[i].path == place.path.push(found[i].path.last())
            &&& start <= found[i].path.last() < place.children().len()
            &&& place.children()[found[i].path.last()] is Node
        }
    &&& forall|i: int, j: int|
        0 <= i < j < found.len() ==> (#[trigger] found[i]).path.last() < (
        #[trigger] found[j]).path.last()
    &&& forall|k: int|
        start <= k < place.children().len() && place.children()[k] is Node ==> found.contains(
            #[trigger] place.child(k),
        )
}

/// A walk along the children that are nodes comes to all of them in their order.
pub proof fn law_children(node: SyntaxNode, walk: SyntaxNodeChildren)
    requires
        node.wf(),
        call_ensures(SyntaxNode::children, (&node,), walk),
    ensures
        walk.wf(),
        lists_node_children(node@, 0, walk.remaining()),
{
    lemma_lists_node_children(node@, 0);
}

proof fn lemma_lists_node_children(place: Place, start: int)
    requires
        0 <= start <= place.children().len(),
    ensures
        lists_node_children(place, start, place.nodes_from(start)),
    decreases place.children().len() - start,
{
    let found = place.nodes_from(start);
    if start < place.children().len() {
        let rest = place.nodes_from(start + 1);
        lemma_lists_node_children(place, start + 1);
        if place.children()[start] is Node {
            assert(found =~= seq![place.child(start)] + rest);
            assert(found[0] == place.child(start));
            assert forall|k: int|
                start <= k < place.children().len()
                    && place.children()[k] is Node implies found.contains(
                #[trigger] place.child(k),
            ) by {
                if k > start {
                    let i = choose|i: int| 0 <= i < rest.len() && rest[i] == place.child(k);
                    assert(found[i + 1] == place.child(k));
                }
            }
            assert forall|i: int| 0 <= i < found.len() implies {
                &&& (#[trigger] found[i]).root == place.root
                &&& found[i].path == place.path.push(found[i].path.last())
                &&& start <= found[i].path.last() < place.children().len()
                &&& place.children()[found[i].path.last()] is Node
            } by {
                if i > 0 {
                    assert(found[i] == rest[i - 1]);
                }
            }
            assert forall|i: int, j: int| 0 <= i < j < found.len() implies (
            #[trigger] found[i]).path.last() < (#[trigger] found[j]).path.last() by {
                assert(found[j] == rest[j - 1]);
                if i > 0 {
                    assert(found[i] == rest[i - 1]);
                }
            }
        } else {
            assert forall|k: int|
                start <= k < place.children().len()
                    && place.children()[k] is Node implies found.contains(
                #[trigger] place.child(k),
            ) by {
                assert(k != start);
            }
        }
    }
}

/// A walk along the children comes to each of them in their order.
pub proof fn law_children_with_tokens(node: SyntaxNode, walk: SyntaxElementChildren)
    requires
        node.wf(),
        call_ensures(SyntaxNode::children_with_tokens, (&node,), walk),
    ensures
        walk.wf(),
        walk.remaining().len() == node@.children().len(),
        forall|i: int|
            0 <= i < walk.remaining().len() ==> {
                &&& (#[trigger] walk.remaining()[i]).root == node@.root
                &&& walk.remaining()[i].path == node@.path.push(i)
            },
{
}

/// Each step of a walk along the children that are nodes hands out the first of those to come, and
/// then the others are to come. Nothing comes when none is left. A clone goes on as the walk itself
/// does.
pub proof fn law_next_of_children(
    walk: &mut SyntaxNodeChildren,
    found: Option<SyntaxNode>,
    copy: SyntaxNodeChildren,
)
    requires
        old(walk).wf(),
        call_ensures(SyntaxNodeChildren::next, (walk,), found),
        call_ensures(<SyntaxNodeChildren as Clone>::clone, (old(walk),), copy),
    ensures
        final(walk).wf(),
        copy.wf(),
        copy.remaining() == old(walk).remaining(),
        match found {
            Some(node) => {
                &&& node.wf()
                &&& old(walk).remaining() == seq![node@] + final(walk).remaining()
            },
            None => old(walk).remaining().len() == 0 && final(walk).remaining().len() == 0,
        },
{
    if let Some(node) = found {
        assert(old(walk).remaining() =~= seq![node@] + final(walk).remaining());
    }
}

/// [`law_next_of_children`] for a walk along all children.
pub proof fn law_next_of_children_with_tokens(
    walk: &mut SyntaxElementChildren,
    found: Option<SyntaxElement>,
    copy: SyntaxElementChildren,
)
    requires
        old(walk).wf(),
        call_ensures(SyntaxElementChildren::next, (walk,), found),
        call_ensures(<SyntaxElementChildren as Clone>::clone, (old(walk),), copy),
    ensures
        final(walk).wf(),
        copy.wf(),
        copy.remaining() == old(walk).remaining(),
        match found {
            Some(element) => {
                &&& element.wf()
                &&& old(walk).remaining() == seq![element@] + final(walk).remaining()
            },
            None => old(walk).remaining().len() == 0 && final(walk).remaining().len() == 0,
        },
{
    if let Some(element) = found {
        assert(old(walk).remaining() =~= seq![element@] + final(walk).remaining());
    }
}

/// The path `a` comes before the path `b` in the order of the text: they part at a step where `a`
/// ends or takes an earlier child.
pub open spec fn comes_before(a: Seq<int>, b: Seq<int>) -> bool {
    exists|depth: int|
        0 <= depth <= a.len() && depth < b.len() && #[trigger] a.take(depth) == b.take(depth) && (
        depth < a.len() ==> a[depth] < b[depth])
}

/// A walk comes to places in the order of their paths.
proof fn lemma_in_order(place: Place)
    requires
        place.wf(),
    ensures
        forall|i: int, j: int|
            0 <= i < j < place.descendants_with_tokens().len() ==> comes_before(
                (#[trigger] place.descendants_with_tokens()[i]).path,
                (#[trigger] place.descendants_with_tokens()[j]).path,
            ),
    decreases place.element()->0, place.children().len() + 1,
{
    let all = place.descendants_with_tokens();
    let below = place.walk_from(0, all_places());
    let depth = place.path.len() as int;
    lemma_in_order_from(place, 0);
    lemma_visits_each_once_from(place, 0);
    assert(all =~= seq![place] + below);
    assert forall|i: int, j: int| 0 <= i < j < all.len() implies comes_before(
        (#[trigger] all[i]).path,
        (#[trigger] all[j]).path,
    ) by {
        assert(all[j] == below[j - 1]);
        if i == 0 {
            assert(below.contains(below[j - 1]));
            assert(all[j].is_under(place));
            assert(all[i].path.take(depth) =~= all[j].path.take(depth));
        } else {
            assert(all[i] == below[i - 1]);
        }
    }
}

proof fn lemma_in_order_from(place: Place, start: int)
    requires
        place.wf(),
        0 <= start <= place.children().len(),
    ensures
        forall|i: int, j: int|
            0 <= i < j < place.walk_from(start, all_places()).len() ==> comes_before(
                (#[trigger] place.walk_from(start, all_places())[i]).path,
                (#[trigger] place.walk_from(start, all_places())[j]).path,
            ),
    decreases place.element()->0, place.children().len() - start,
{
    let all = place.walk_from(start, all_places());
    if start < place.children().len() {
        let child = place.child(start);
        let first = child.descendants_with_tokens();
        let rest = place.walk_from(start + 1, all_places());
        let depth = place.path.len() as int;
        place.lemma_child(start);
        lemma_in_order(child);
        lemma_in_order_from(place, start + 1);
        law_walk_visits_each_once(child);
        lemma_visits_each_once_from(place, start + 1);
        assert(all =~= first + rest);
        assert forall|i: int, j: int| 0 <= i < j < all.len() implies comes_before(
            (#[trigger] all[i]).path,
            (#[trigger] all[j]).path,
        ) by {
            if j < first.len() {
                assert(all[i] == first[i] && all[j] == first[j]);
            } else if i >= first.len() {
                assert(all[i] == rest[i - first.len()] && all[j] == rest[j - first.len()]);
            } else {
                assert(all[i] == first[i] && all[j] == rest[j - first.len()]);
                assert(first.contains(first[i]));
                assert(rest.contains(rest[j - first.len()]));
                assert(child.path[depth] == start);
                assert(all[i].path[depth] == start);
                assert(all[i].path.take(depth) =~= place.path);
                assert(all[j].path.take(depth) =~= place.path);
            }
        }
    }
}

/// The elements at and below a node are listed in the order of their paths, and none is left out.
pub proof fn law_descendants_with_tokens(node: SyntaxNode, found: Vec<SyntaxElement>)
    requires
        node.wf(),
        call_ensures(SyntaxNode::descendants_with_tokens, (&node,), found),
    ensures
        forall|i: int|
            0 <= i < found@.len() ==> (#[trigger] found@[i]).wf() && found@[i]@.is_under(node@),
        forall|i: int, j: int|
            0 <= i < j < found@.len() ==> comes_before(
                (#[trigger] found@[i])@.path,
                (#[trigger] found@[j])@.path,
            ),
        forall|place: Place| #[trigger]
            place.is_under(node@) && place.wf() ==> exists|i: int|
                0 <= i < found@.len() && (#[trigger] found@[i])@ == place,
{
    let all = node@.descendants_with_tokens();
    law_walk_visits_each_once(node@);
    lemma_in_order(node@);
    assert forall|i: int| 0 <= i < found@.len() implies (#[trigger] found@[i])@.is_under(
        node@,
    ) by {
        assert(all.contains(all[i]));
    }
    assert forall|i: int, j: int| 0 <= i < j < found@.len() implies comes_before(
        (#[trigger] found@[i])@.path,
        (#[trigger] found@[j])@.path,
    ) by {
        assert(comes_before(all[i].path, all[j].path));
    }
    assert forall|place: Place| #[trigger] place.is_under(node@) && place.wf() implies exists|
        i: int,
    |
        0 <= i < found@.len() && (#[trigger] found@[i])@ == place by {
        assert(all.contains(place));
        let i = choose|i: int| 0 <= i < all.len() && all[i] == place;
        assert(found@[i]@ == place);
    }
}

/// What a filter keeps of places that are in order is in order.
proof fn lemma_filtered_in_order(all: Seq<Place>, keep: spec_fn(Place) -> bool)
    requires
        forall|i: int, j: int|
            0 <= i < j < all.len() ==> comes_before(
                (#[trigger] all[i]).path,
                (#[trigger] all[j]).path,
            ),
    ensures
        forall|i: int, j: int|
            0 <= i < j < all.filter(keep).len() ==> comes_before(
                (#[trigger] all.filter(keep)[i]).path,
                (#[trigger] all.filter(keep)[j]).path,
            ),
        forall|place: Place| #[trigger]
            all.filter(keep).contains(place) <==> all.contains(place) && keep(place),
    decreases all.len(),
{
    reveal(Seq::filter);
    let kept = all.filter(keep);
    if all.len() > 0 {
        let fewer = all.drop_last();
        let last = all.last();
        lemma_filtered_in_order(fewer, keep);
        assert(all =~= fewer.push(last));
        assert forall|place: Place| all.contains(place) <==> fewer.contains(place) || place
            == last by {
            if fewer.contains(place) {
                let i = choose|i: int| 0 <= i < fewer.len() && fewer[i] == place;
                assert(all[i] == place);
            }
            if place == last {
                assert(all[all.len() - 1] == place);
            }
        }
        if keep(last) {
            let before = fewer.filter(keep);
            assert(kept =~= before.push(last));
            assert forall|place: Place| #[trigger]
                kept.contains(place) <==> all.contains(place) && keep(place) by {
                if before.contains(place) {
                    let i = choose|i: int| 0 <= i < before.len() && before[i] == place;
                    assert(kept[i] == place);
                }
                if place == last {
                    assert(kept[kept.len() - 1] == place);
                }
                assert(before.contains(place) <==> fewer.contains(place) && keep(place));
            }
            assert forall|i: int, j: int| 0 <= i < j < kept.len() implies comes_before(
                (#[trigger] kept[i]).path,
                (#[trigger] kept[j]).path,
            ) by {
                if j == kept.len() - 1 {
                    assert(before.contains(before[i]));
                    let k = choose|k: int| 0 <= k < fewer.len() && fewer[k] == before[i];
                    assert(all[k] == kept[i]);
                    assert(comes_before(all[k].path, all[all.len() - 1].path));
                } else {
                    assert(comes_before(before[i].path, before[j].path));
                }
            }
        } else {
            assert(kept =~= fewer.filter(keep));
            assert forall|place: Place| #[trigger]
                kept.contains(place) <==> all.contains(place) && keep(place) by {
                assert(fewer.filter(keep).contains(place) <==> fewer.contains(place) && keep(
                    place,
                ));
            }
        }
    } else {
        assert(kept =~= Seq::empty());
    }
}

/// The nodes at and below a node are listed in the order of their paths, and none is left out.
pub proof fn law_descendants(node: SyntaxNode, found: Vec<SyntaxNode>)
    requires
        node.wf(),
        call_ensures(SyntaxNode::descendants, (&node,), found),
    ensures
        forall|i: int|
            0 <= i < found@.len() ==> (#[trigger] found@[i]).wf() && found@[i]@.is_under(node@),
        forall|i: int, j: int|
            0 <= i < j < found@.len() ==> comes_before(
                (#[trigger] found@[i])@.path,
                (#[trigger] found@[j])@.path,
            ),
        forall|place: Place| #[trigger]
            place.is_under(node@) && place.is_node() ==> exists|i: int|
                0 <= i < found@.len() && (#[trigger] found@[i])@ == place,
{
    let every = node@.descendants_with_tokens();
    let all = node@.descendants();
    let keep = |p: Place| p.is_node();
    law_walk_visits_each_once(node@);
    law_nodes_and_tokens(node@);
    lemma_in_order(node@);
    lemma_filtered_in_order(every, keep);
    assert forall|i: int| 0 <= i < found@.len() implies (#[trigger] found@[i])@.is_under(
        node@,
    ) by {
        assert(every.filter(keep).contains(all[i]));
    }
    assert forall|i: int, j: int| 0 <= i < j < found@.len() implies comes_before(
        (#[trigger] found@[i])@.path,
        (#[trigger] found@[j])@.path,
    ) by {
        assert(comes_before(every.filter(keep)[i].path, every.filter(keep)[j].path));
    }
    assert forall|place: Place| #[trigger] place.is_under(node@) && place.is_node() implies exists|
        i: int,
    |
        0 <= i < found@.len() && (#[trigger] found@[i])@ == place by {
        assert(every.contains(place));
        assert(every.filter(keep).contains(place));
        let i = choose|i: int| 0 <= i < all.len() && all[i] == place;
        assert(found@[i]@ == place);
    }
}

/// The tokens of a place are in the order of their paths, and none is left out.
pub proof fn law_tokens(place: Place)
    requires
        place.wf(),
    ensures
        forall|i: int, j: int|
            0 <= i < j < place.tokens().len() ==> comes_before(
                (#[trigger] place.tokens()[i]).path,
                (#[trigger] place.tokens()[j]).path,
            ),
        forall|token: Place| #[trigger]
            place.tokens().contains(token) <==> token.is_token() && token.is_under(place),
{
    let every = place.descendants_with_tokens();
    let keep = |p: Place| p.is_token();
    law_walk_visits_each_once(place);
    law_nodes_and_tokens(place);
    lemma_in_order(place);
    lemma_filtered_in_order(every, keep);
    assert forall|token: Place| #[trigger]
        place.tokens().contains(token) <==> token.is_token() && token.is_under(place) by {
        assert(every.filter(keep).contains(token) <==> every.contains(token) && keep(token));
    }
}

} // verus!
