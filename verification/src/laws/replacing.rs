//! Laws of trees in which one element has been replaced.

use vstd::prelude::*;
use vstd::utf8::encode_utf8;

use crate::cursor::{SyntaxNode, SyntaxToken};
use crate::green::{len_of, GreenElement, GreenNode, GreenToken};
use crate::laws::text::{law_length_of_text, lemma_encode_concat, lemma_text_among, text_among};
use crate::place::Place;
use crate::utility_types::NodeOrToken;
use crate::walk::{lemma_is_under, token_texts};

verus! {

/// Where an element has been replaced, its parent has been replaced too.
proof fn lemma_replaced_parent(place: Place, new: GreenElement, result: GreenNode)
    requires
        place.wf(),
        !place.is_root(),
        result.wf(),
        place.replaced(new, result),
    ensures
        ({
            let parent = Place { root: result, path: place.parent().path };
            &&& parent.is_node()
            &&& place.parent().replaced(parent.element()->0, result)
            &&& parent.children() == place.parent().children().update(place.index(), new)
            &&& parent.child(place.index()) == Place { root: result, path: place.path }
        }),
{
    let old_parent = place.parent();
    let parent = Place { root: result, path: old_parent.path };
    let last = place.path.len() - 1;
    place.lemma_bounds();
    assert(place.path.take(last) =~= old_parent.path);
    assert(parent.child(place.index()) =~= Place { root: result, path: place.path });
    assert(parent.child(place.index()).parent() =~= parent);
    assert(parent.children() =~= old_parent.children().update(place.index(), new));
    assert forall|depth: int| 0 <= depth < old_parent.path.len() implies {
        let path = #[trigger] old_parent.path.take(depth);
        path == place.path.take(depth) && old_parent.path[depth] == place.path[depth]
    } by {
        assert(old_parent.path.take(depth) =~= place.path.take(depth));
    }
}

/// To replace an element leaves all that is neither above it nor below it as it was.
pub proof fn law_replaced_elsewhere(
    place: Place,
    new: GreenElement,
    result: GreenNode,
    other: Place,
)
    requires
        place.wf(),
        other.wf(),
        other.root == place.root,
        !other.is_under(place),
        !place.is_under(other),
        place.replaced(new, result),
    ensures
        (Place { root: result, path: other.path }).element() == other.element(),
    decreases other.path.len(),
{
    let moved = Place { root: result, path: other.path };
    let parent = other.parent();
    assert(moved.parent() == Place { root: result, path: parent.path });
    other.lemma_bounds();
    other.lemma_parent();
    if place.is_under(parent) {
        let depth = parent.path.len() as int;
        assert(place.path.len() > depth) by {
            lemma_is_under(place, parent);
            lemma_is_under(parent, parent);
        }
        assert(place.path.take(depth) =~= parent.path);
        assert(place.path[depth] != other.index()) by {
            if place.path[depth] == other.index() {
                assert(other.path =~= place.path.take(depth + 1));
                assert(place.is_under(other));
            }
        }
    } else {
        law_replaced_elsewhere(place, new, result, parent);
    }
}

/// What stands below the place where a node was put is what stands below the root of that node.
pub proof fn law_replaced_below(
    place: Place,
    new: GreenNode,
    result: GreenNode,
    path: Seq<int>,
)
    requires
        place.replaced(GreenElement::Node(new), result),
    ensures
        (Place { root: result, path: place.path + path }).element() == (Place {
            root: new,
            path,
        }).element(),
    decreases path.len(),
{
    let inner = Place { root: new, path };
    let outer = Place { root: result, path: place.path + path };
    if path.len() == 0 {
        assert(outer.path =~= place.path);
    } else {
        law_replaced_below(place, new, result, path.drop_last());
        assert(outer.parent().path =~= place.path + path.drop_last());
        assert(outer.index() == inner.index());
    }
}

/// The text of a place is that of its element.
proof fn lemma_text_of_element(a: Place, b: Place)
    requires
        a.wf(),
        b.wf(),
        a.element() == b.element(),
    ensures
        a.text() == b.text(),
    decreases a.element()->0, a.children().len() + 1,
{
    lemma_text_of_element_from(a, b, 0);
    assert(a.text() =~= b.text());
}

/// The text of the children from an index on is that of their elements.
proof fn lemma_text_of_element_from(a: Place, b: Place, start: int)
    requires
        a.wf(),
        b.wf(),
        0 <= start <= a.children().len(),
        a.children().len() == b.children().len(),
        forall|i: int| start <= i < a.children().len() ==> a.children()[i] == b.children()[i],
    ensures
        a.walk_from(start, token_texts()) == b.walk_from(start, token_texts()),
    decreases a.element()->0, a.children().len() - start,
{
    if start < a.children().len() {
        a.lemma_child(start);
        b.lemma_child(start);
        lemma_text_of_element(a.child(start), b.child(start));
        lemma_text_of_element_from(a, b, start + 1);
    }
}

/// The text of the children before an index is that of their elements.
proof fn lemma_text_up_to(a: Place, b: Place, start: int, index: int)
    requires
        a.wf(),
        b.wf(),
        0 <= start <= index < a.children().len(),
        a.children().len() == b.children().len(),
        forall|i: int| start <= i < index ==> a.children()[i] == b.children()[i],
    ensures
        text_among(a, start, index) == text_among(b, start, index),
    decreases index - start,
{
    if start < index {
        a.lemma_child(start);
        b.lemma_child(start);
        lemma_text_of_element(a.child(start), b.child(start));
        lemma_text_up_to(a, b, start + 1, index);
    }
}

/// What comes before and after an element in the whole text stays the same when it is replaced.
proof fn lemma_text_around(
    place: Place,
    new: GreenElement,
    result: GreenNode,
    root: Place,
    new_root: Place,
) -> (around: (Seq<char>, Seq<char>))
    requires
        place.wf(),
        result.wf(),
        place.replaced(new, result),
        root == (Place { root: place.root, path: Seq::empty() }),
        new_root == (Place { root: result, path: Seq::empty() }),
    ensures
        root.text() == around.0 + place.text() + around.1,
        new_root.text() == around.0 + (Place { root: result, path: place.path }).text() + around.1,
        encode_utf8(around.0).len() == place.start(),
    decreases place.path.len(),
{
    let new_place = Place { root: result, path: place.path };
    let empty = Seq::<char>::empty();
    if place.is_root() {
        assert(place =~= root);
        assert(new_place =~= new_root);
        assert(root.text() =~= empty + place.text() + empty);
        assert(new_root.text() =~= empty + new_place.text() + empty);
        (empty, empty)
    } else {
        let parent = place.parent();
        let new_parent = Place { root: result, path: parent.path };
        let index = place.index();
        place.lemma_bounds();
        place.lemma_parent();
        lemma_replaced_parent(place, new, result);
        let (before, after) = lemma_text_around(
            parent,
            new_parent.element()->0,
            result,
            root,
            new_root,
        );
        let among = text_among(parent, 0, index);
        let rest = parent.walk_from(index + 1, token_texts());
        lemma_text_among(parent, 0, index);
        lemma_text_among(new_parent, 0, index);
        lemma_text_up_to(parent, new_parent, 0, index);
        lemma_text_of_element_from(parent, new_parent, index + 1);
        lemma_encode_concat(before, among);
        assert(parent.text() =~= among + place.text() + rest);
        assert(new_parent.text() =~= among + new_place.text() + rest);
        assert(root.text() =~= (before + among) + place.text() + (rest + after));
        assert(new_root.text() =~= (before + among) + new_place.text() + (rest + after));
        (before + among, rest + after)
    }
}

/// To replace an element is to replace its range of the whole text by the text of the new one.
pub proof fn law_replaced_text(place: Place, new: GreenElement, result: GreenNode)
    requires
        place.wf(),
        result.wf(),
        place.replaced(new, result),
    ensures
        ({
            let old_text = encode_utf8((Place { root: place.root, path: Seq::empty() }).text());
            let new_text = encode_utf8((Place { root: result, path: Seq::empty() }).text());
            let inserted = encode_utf8((Place { root: result, path: place.path }).text());
            new_text == old_text.take(place.start()) + inserted + old_text.skip(place.end())
        }),
        (Place { root: result, path: place.path }).text() == match new {
            NodeOrToken::Node(node) => (Place { root: node, path: Seq::empty() }).text(),
            NodeOrToken::Token(token) => token@.text,
        },
{
    let root = Place { root: place.root, path: Seq::empty() };
    let new_root = Place { root: result, path: Seq::empty() };
    let new_place = Place { root: result, path: place.path };
    let (before, after) = lemma_text_around(place, new, result, root, new_root);
    law_length_of_text(place);
    lemma_encode_concat(before + place.text(), after);
    lemma_encode_concat(before, place.text());
    lemma_encode_concat(before + new_place.text(), after);
    lemma_encode_concat(before, new_place.text());
    let old_text = encode_utf8(root.text());
    assert(old_text.take(place.start()) =~= encode_utf8(before));
    assert(old_text.skip(place.end()) =~= encode_utf8(after));
    law_replaced_read_back(place, new, result);
    new_place.lemma_bounds();
    match new {
        NodeOrToken::Node(node) => {
            lemma_text_of_element(new_place, Place { root: node, path: Seq::empty() });
        },
        NodeOrToken::Token(token) => {
            assert(new_place.text() =~= token@.text);
        },
    }
}

/// An element that is read at the place where it was put is the one that was put there, and it starts
/// where the old one did. To replace an element by itself leaves the text as it was.
pub proof fn law_replaced_read_back(place: Place, new: GreenElement, result: GreenNode)
    requires
        place.wf(),
        result.wf(),
        place.replaced(new, result),
    ensures
        (Place { root: result, path: place.path }).wf(),
        (Place { root: result, path: place.path }).element() == Some(new),
        (Place { root: result, path: place.path }).start() == place.start(),
        place.element() == Some(new) ==> (Place { root: result, path: Seq::empty() }).text() == (
        Place { root: place.root, path: Seq::empty() }).text(),
    decreases place.path.len(),
{
    let root = Place { root: place.root, path: Seq::empty() };
    let new_root = Place { root: result, path: Seq::empty() };
    let new_place = Place { root: result, path: place.path };
    if !place.is_root() {
        let new_parent = Place { root: result, path: place.parent().path };
        place.lemma_bounds();
        lemma_replaced_parent(place, new, result);
        law_replaced_read_back(place.parent(), new_parent.element()->0, result);
        assert(new_place.parent() =~= new_parent);
        lemma_same_length(place.parent().children(), new_parent.children(), place.index());
    }
    let (before, after) = lemma_text_around(place, new, result, root, new_root);
    if place.element() == Some(new) {
        lemma_text_of_element(place, new_place);
    }
}

/// The length of some elements is found from these elements alone.
proof fn lemma_same_length(a: Seq<GreenElement>, b: Seq<GreenElement>, count: int)
    requires
        0 <= count <= a.len(),
        count <= b.len(),
        forall|i: int| 0 <= i < count ==> a[i] == b[i],
    ensures
        len_of(a, count) == len_of(b, count),
    decreases count,
{
    if count > 0 {
        lemma_same_length(a, b, count - 1);
    }
}

/// The elements are made up in the same way: of the same kinds and texts in the same order, shared
/// or not.
pub open spec fn alike(a: GreenElement, b: GreenElement) -> bool
    decreases a,
{
    match (a, b) {
        (NodeOrToken::Node(m), NodeOrToken::Node(n)) => {
            proof {
                m.lemma_children_smaller();
            }
            &&& m@.kind == n@.kind
            &&& m@.children.len() == n@.children.len()
            &&& forall|i: int|
                0 <= i < m@.children.len() ==> alike(#[trigger] m@.children[i], n@.children[i])
        },
        (NodeOrToken::Token(s), NodeOrToken::Token(t)) => s@ == t@,
        _ => false,
    }
}

/// An element is made up as itself.
proof fn lemma_alike(a: GreenElement)
    ensures
        alike(a, a),
    decreases a,
{
    if let NodeOrToken::Node(node) = a {
        node.lemma_children_smaller();
        assert forall|i: int| 0 <= i < node@.children.len() implies alike(
            #[trigger] node@.children[i],
            node@.children[i],
        ) by {
            lemma_alike(node@.children[i]);
        }
    }
}

/// To replace an element by one that is made up in the same way gives a tree that is made up in the
/// same way.
pub proof fn law_replaced_by_alike(place: Place, new: GreenElement, result: GreenNode)
    requires
        place.wf(),
        result.wf(),
        place.replaced(new, result),
        alike(place.element()->0, new),
    ensures
        alike(GreenElement::Node(place.root), GreenElement::Node(result)),
    decreases place.path.len(),
{
    if !place.is_root() {
        let parent = place.parent();
        let new_parent = Place { root: result, path: parent.path };
        let last = place.path.len() - 1;
        place.lemma_bounds();
        lemma_replaced_parent(place, new, result);
        assert(place.path.take(last) =~= parent.path);
        assert forall|i: int| 0 <= i < parent.children().len() implies alike(
            #[trigger] parent.children()[i],
            new_parent.children()[i],
        ) by {
            lemma_alike(parent.children()[i]);
        }
        assert(alike(parent.element()->0, new_parent.element()->0));
        law_replaced_by_alike(parent, new_parent.element()->0, result);
    }
}

/// Above the place where an element was put stand nodes of the same kinds as before, with as many
/// children.
pub proof fn law_replaced_above(place: Place, new: GreenElement, result: GreenNode, above: Place)
    requires
        place.wf(),
        result.wf(),
        place.replaced(new, result),
        place.is_under(above),
        place != above,
    ensures
        (Place { root: result, path: above.path }).is_node(),
        (Place { root: result, path: above.path }).kind() == above.kind(),
        (Place { root: result, path: above.path }).children().len() == above.children().len(),
{
    lemma_is_under(place, above);
    assert(place.path.take(above.path.len() as int) =~= above.path);
    assert(above.root == place.root);
}

/// The tree `result` is the tree of `place` with `new` at that place: `new` is read there, what is
/// not above or below it is as it was, above it are nodes of the same kinds with as many children,
/// and of the text nothing but the range of the place has changed. `other` stands for any place.
pub open spec fn is_put(
    place: Place,
    new: GreenElement,
    text: Seq<char>,
    result: GreenNode,
    other: Place,
) -> bool {
    let moved = Place { root: result, path: other.path };
    let old_text = encode_utf8((Place { root: place.root, path: Seq::empty() }).text());
    let new_text = encode_utf8((Place { root: result, path: Seq::empty() }).text());
    &&& result.wf()
    &&& (Place { root: result, path: place.path }).element() == Some(new)
    &&& (Place { root: result, path: place.path }).text() == text
    &&& other.wf() && other.root == place.root && !other.is_under(place) && !place.is_under(other)
        ==> moved.element() == other.element()
    &&& place.is_under(other) && place != other ==> {
        &&& moved.is_node()
        &&& moved.kind() == other.kind()
        &&& moved.children().len() == other.children().len()
    }
    &&& new_text == old_text.take(place.start()) + encode_utf8(text) + old_text.skip(place.end())
}

/// The tree that comes from replacing a node is the old one with the new node at its place.
pub proof fn law_replacing_a_node(
    node: SyntaxNode,
    replacement: GreenNode,
    result: GreenNode,
    other: Place,
)
    requires
        node.wf(),
        replacement.wf(),
        call_ensures(SyntaxNode::replace_with, (&node, replacement), result),
    ensures
        is_put(
            node@,
            GreenElement::Node(replacement),
            (Place { root: replacement, path: Seq::empty() }).text(),
            result,
            other,
        ),
        result@.text_len == node@.root@.text_len - node@.len() + replacement@.text_len,
{
    let new = GreenElement::Node(replacement);
    law_replaced_text(node@, new, result);
    if other.wf() && other.root == node@.root && !other.is_under(node@) && !node@.is_under(other) {
        law_replaced_elsewhere(node@, new, result, other);
    }
    if node@.is_under(other) && node@ != other {
        law_replaced_above(node@, new, result, other);
    }
}

/// The tree that comes from replacing a token is the old one with the new token at its place.
pub proof fn law_replacing_a_token(
    token: SyntaxToken,
    replacement: GreenToken,
    result: GreenNode,
    other: Place,
)
    requires
        token.wf(),
        replacement.wf(),
        call_ensures(SyntaxToken::replace_with, (&token, replacement), result),
    ensures
        is_put(token@, GreenElement::Token(replacement), replacement@.text, result, other),
        result@.text_len == token@.root@.text_len - token@.len() + replacement.bytes().len(),
{
    let new = GreenElement::Token(replacement);
    law_replaced_text(token@, new, result);
    if other.wf() && other.root == token@.root && !other.is_under(token@) && !token@.is_under(
        other,
    ) {
        law_replaced_elsewhere(token@, new, result, other);
    }
    if token@.is_under(other) && token@ != other {
        law_replaced_above(token@, new, result, other);
    }
}

} // verus!
