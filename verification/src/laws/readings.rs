//! Laws of the functions that tell what a node or a token is.
//!
//! Each takes a call that has returned: what it was given, and what came back.

use vstd::prelude::*;
use vstd::seq_lib::lemma_flatten_concat;
use vstd::utf8::encode_utf8;

use crate::cursor::{SyntaxElement, SyntaxNode, SyntaxToken};
use crate::green::{GreenElement, GreenNodeData, GreenToken, SyntaxKind};
use crate::laws::text::{law_length_of_text, law_range_of_text};
use crate::place::Place;
use crate::syntax_text::SyntaxText;
use crate::text_size::{TextRange, TextSize};
use crate::walk::{token_places, token_texts};

verus! {

/// The kind and the green node of a node are those of what stands at its place. Its range is as
/// long as its green node says.
pub proof fn law_reading_a_node(
    node: SyntaxNode,
    kind: SyntaxKind,
    range: TextRange,
    green: &GreenNodeData,
)
    requires
        node.wf(),
        call_ensures(SyntaxNode::kind, (&node,), kind),
        call_ensures(SyntaxNode::text_range, (&node,), range),
        call_ensures(SyntaxNode::green, (&node,), green),
    ensures
        node@.element() matches Some(GreenElement::Node(at)) && *green == at.data(),
        kind == green@.kind,
        range.start.raw == node@.start(),
        range.end.raw - range.start.raw == green@.text_len,
        node@.children() == green@.children,
{
}

/// The kind, the text and the green token of a token are those of what stands at its place. Its
/// range is as long as its text.
pub proof fn law_reading_a_token(
    token: SyntaxToken,
    kind: SyntaxKind,
    range: TextRange,
    text: &str,
    green: &GreenToken,
)
    requires
        token.wf(),
        call_ensures(SyntaxToken::kind, (&token,), kind),
        call_ensures(SyntaxToken::text_range, (&token,), range),
        call_ensures(SyntaxToken::text, (&token,), text),
        call_ensures(SyntaxToken::green, (&token,), green),
    ensures
        token@.element() == Some(GreenElement::Token(*green)),
        kind == green@.kind,
        text@ == green@.text,
        range.start.raw == token@.start(),
        range.end.raw - range.start.raw == encode_utf8(text@).len(),
{
}

/// The kind and the range of an element are those of what stands at its place.
pub proof fn law_reading_an_element(element: SyntaxElement, kind: SyntaxKind, range: TextRange)
    requires
        element.wf(),
        call_ensures(SyntaxElement::kind, (&element,), kind),
        call_ensures(SyntaxElement::text_range, (&element,), range),
    ensures
        match element@.element() {
            Some(GreenElement::Node(at)) => {
                &&& element is Node
                &&& kind == at@.kind
                &&& range.end.raw - range.start.raw == at@.text_len
            },
            Some(GreenElement::Token(at)) => {
                &&& element is Token
                &&& kind == at@.kind
                &&& range.end.raw - range.start.raw == encode_utf8(at@.text).len()
            },
            None => false,
        },
        range.start.raw == element@.start(),
{
}

/// The texts of tokens, one after the other.
pub open spec fn texts(tokens: Seq<Place>) -> Seq<char> {
    tokens.map_values(|token: Place| token.token()@.text).flatten()
}

proof fn lemma_texts_concat(a: Seq<Place>, b: Seq<Place>)
    ensures
        texts(a + b) == texts(a) + texts(b),
{
    let text = |token: Place| token.token()@.text;
    assert((a + b).map_values(text) =~= a.map_values(text) + b.map_values(text));
    lemma_flatten_concat(a.map_values(text), b.map_values(text));
}

/// The text of a place is made of the texts of its tokens, one after the other.
pub proof fn law_text_is_made_of_tokens(place: Place)
    requires
        place.wf(),
    ensures
        place.text() == texts(place.tokens()),
    decreases place.element()->0, place.children().len() + 1,
{
    if place.is_node() {
        lemma_text_is_made_of_tokens_from(place, 0);
        assert(place.text() =~= place.walk_from(0, token_texts()));
        assert(place.tokens() =~= place.walk_from(0, token_places()));
    } else {
        let one = seq![place.token()@.text];
        assert(place.tokens() =~= seq![place]);
        assert(place.text() =~= place.token()@.text);
        assert(seq![place].map_values(|token: Place| token.token()@.text) =~= one);
        assert(one.flatten() =~= place.token()@.text) by {
            reveal_with_fuel(Seq::flatten, 2);
            assert(one.drop_first() =~= Seq::empty());
        }
    }
}

proof fn lemma_text_is_made_of_tokens_from(place: Place, start: int)
    requires
        place.is_node(),
        0 <= start <= place.children().len(),
    ensures
        place.walk_from(start, token_texts()) == texts(place.walk_from(start, token_places())),
    decreases place.element()->0, place.children().len() - start,
{
    if start < place.children().len() {
        place.lemma_child(start);
        law_text_is_made_of_tokens(place.child(start));
        lemma_text_is_made_of_tokens_from(place, start + 1);
        lemma_texts_concat(
            place.child(start).tokens(),
            place.walk_from(start + 1, token_places()),
        );
    } else {
        reveal(Seq::flatten);
        assert(Seq::<Place>::empty().map_values(|token: Place| token.token()@.text)
            =~= Seq::empty());
    }
}

/// The text of a node is made of the texts of its tokens. It is the part of the text of the whole
/// tree that the range of the node gives.
pub proof fn law_text_of_node(node: SyntaxNode, root: SyntaxNode, text: String, whole: String)
    requires
        node.wf(),
        root.wf(),
        root@.root == node@.root,
        root@.path.len() == 0,
        call_ensures(SyntaxNode::to_string, (&node,), text),
        call_ensures(SyntaxNode::to_string, (&root,), whole),
    ensures
        text@ == texts(node@.tokens()),
        encode_utf8(text@).len() == node@.end() - node@.start(),
        encode_utf8(text@) == encode_utf8(whole@).subrange(node@.start(), node@.end()),
{
    law_text_is_made_of_tokens(node@);
    law_length_of_text(node@);
    law_range_of_text(node@);
    assert(node@.ancestor(node@.path.len() as int) =~= root@);
}

/// The text of a token is that of its green token. The text of an element is that of the node or
/// the token that it is.
pub proof fn law_text_of_token_and_element(
    token: SyntaxToken,
    element: SyntaxElement,
    of_token: String,
    of_element: String,
)
    requires
        token.wf(),
        element.wf(),
        call_ensures(SyntaxToken::to_string, (&token,), of_token),
        call_ensures(SyntaxElement::to_string, (&element,), of_element),
    ensures
        token@.element() matches Some(GreenElement::Token(green)) && of_token@ == green@.text,
        match element@.element() {
            Some(GreenElement::Token(green)) => of_element@ == green@.text,
            _ => of_element@ == texts(element@.tokens()),
        },
{
    assert(token@.text() =~= token@.token()@.text);
    law_text_is_made_of_tokens(element@);
    if element is Token {
        assert(element@.text() =~= element@.token()@.text);
    }
}

/// The text that a node hands out is its text, and its length is counted in bytes.
pub proof fn law_syntax_text(node: SyntaxNode, text: SyntaxText, whole: String, len: TextSize)
    requires
        node.wf(),
        call_ensures(SyntaxNode::text, (&node,), text),
        call_ensures(SyntaxText::to_string, (&text,), whole),
        call_ensures(SyntaxText::len, (&text,), len),
    ensures
        text.wf(),
        whole@ == texts(node@.tokens()),
        len.raw == encode_utf8(whole@).len(),
        len.raw == node@.end() - node@.start(),
{
    law_text_is_made_of_tokens(node@);
    law_length_of_text(node@);
}

} // verus!
