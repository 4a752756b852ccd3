//! Laws of texts and their ranges.

use vstd::prelude::*;
use vstd::utf8::encode_utf8;

use crate::green::len_of;
use crate::place::Place;
use crate::walk::{lemma_is_under, token_texts};

verus! {

/// The UTF-8 form of two texts, one after the other, is that of the first and that of the second.
pub proof fn lemma_encode_concat(a: Seq<char>, b: Seq<char>)
    ensures
        encode_utf8(a + b) == encode_utf8(a) + encode_utf8(b),
    decreases a.len(),
{
    if a.len() == 0 {
        assert(a + b =~= b);
        assert(encode_utf8(a) + encode_utf8(b) =~= encode_utf8(b));
    } else {
        assert((a + b).drop_first() =~= a.drop_first() + b);
        lemma_encode_concat(a.drop_first(), b);
        assert(encode_utf8(a + b) =~= encode_utf8(a) + encode_utf8(b));
    }
}

/// The length of a place is the length of its text in bytes.
pub proof fn law_length_of_text(place: Place)
    requires
        place.wf(),
    ensures
        encode_utf8(place.text()).len() == place.len(),
    decreases place.element()->0, place.children().len() + 1,
{
    place.lemma_bounds();
    if place.is_node() {
        lemma_length_of_text_from(place, 0);
        assert(place.text() =~= place.walk_from(0, token_texts()));
    } else {
        assert(place.text() =~= place.token()@.text);
    }
}

proof fn lemma_length_of_text_from(place: Place, start: int)
    requires
        place.is_node(),
        0 <= start <= place.children().len(),
    ensures
        len_of(place.children(), start) + encode_utf8(
            place.walk_from(start, token_texts()),
        ).len() == len_of(place.children(), place.children().len() as int),
    decreases place.element()->0, place.children().len() - start,
{
    if start < place.children().len() {
        place.lemma_child(start);
        law_length_of_text(place.child(start));
        lemma_length_of_text_from(place, start + 1);
        lemma_encode_concat(
            place.child(start).text(),
            place.walk_from(start + 1, token_texts()),
        );
    }
}

/// The text of a place is the part of the whole text that its range gives.
pub proof fn law_range_of_text(place: Place)
    requires
        place.wf(),
    ensures
        encode_utf8(place.ancestor(place.path.len() as int).text()).subrange(
            place.start(),
            place.end(),
        ) == encode_utf8(place.text()),
{
    let root = place.ancestor(place.path.len() as int);
    assert(root.path =~= Seq::empty());
    let before = lemma_text_before(place, root);
    let after = place.walk_after(root, token_texts());
    law_length_of_text(place);
    lemma_encode_concat(before + place.text(), after);
    lemma_encode_concat(before, place.text());
    assert((encode_utf8(before) + encode_utf8(place.text()) + encode_utf8(after)).subrange(
        place.start(),
        place.end(),
    ) =~= encode_utf8(place.text()));
}

/// What comes before a place in the whole text is as long as the offset of the place.
proof fn lemma_text_before(place: Place, root: Place) -> (before: Seq<char>)
    requires
        place.wf(),
        root == (Place { root: place.root, path: Seq::empty() }),
    ensures
        root.text() == before + place.text() + place.walk_after(root, token_texts()),
        encode_utf8(before).len() == place.start(),
    decreases place.path.len(),
{
    assert(place.is_under(root));
    lemma_is_under(place, root);
    if place.is_root() {
        assert(root.text() =~= Seq::<char>::empty() + place.text() + place.walk_after(
            root,
            token_texts(),
        ));
        Seq::empty()
    } else {
        let parent = place.parent();
        place.lemma_bounds();
        place.lemma_parent();
        let ahead = lemma_text_before(parent, root);
        let among = text_among(parent, 0, place.index());
        lemma_text_among(parent, 0, place.index());
        lemma_encode_concat(ahead, among);
        assert(root.text() =~= ahead + among + place.text() + place.walk_after(
            root,
            token_texts(),
        ));
        ahead + among
    }
}

/// The text of the children from the index `start` up to the index `end`.
pub open spec fn text_among(place: Place, start: int, end: int) -> Seq<char>
    decreases end - start,
{
    if start >= end {
        Seq::empty()
    } else {
        place.child(start).text() + text_among(place, start + 1, end)
    }
}

/// The text of some children is that of those before one of them, that of the one, and that of
/// those after it.
pub proof fn lemma_text_among(place: Place, start: int, index: int)
    requires
        place.is_node(),
        0 <= start <= index < place.children().len(),
    ensures
        place.walk_from(start, token_texts()) == text_among(place, start, index) + place.child(
            index,
        ).text() + place.walk_from(index + 1, token_texts()),
        encode_utf8(text_among(place, start, index)).len() == len_of(place.children(), index)
            - len_of(place.children(), start),
    decreases index - start,
{
    if start < index {
        let after = text_among(place, start + 1, index);
        place.lemma_child(start);
        law_length_of_text(place.child(start));
        lemma_text_among(place, start + 1, index);
        lemma_encode_concat(place.child(start).text(), after);
    }
    assert(place.walk_from(start, token_texts()) =~= text_among(place, start, index) + place.child(
        index,
    ).text() + place.walk_from(index + 1, token_texts()));
}

} // verus!
