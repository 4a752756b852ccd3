//! Which tokens stand at an offset.

use vstd::prelude::*;

use crate::cursor::{tokens_found, SyntaxElement, SyntaxNode, SyntaxToken};
use crate::green::{len_of, lemma_len_of_monotonic};
use crate::place::Place;
use crate::text_size::TextSize;
use crate::utility_types::{NodeOrToken, TokenAtOffset};
use crate::walk::token_places;

verus! {

impl Place {
    /// The place has text, and the offset lies within it or at one of its ends.
    pub open spec fn touches(self, offset: int) -> bool {
        self.len() > 0 && self.start() <= offset <= self.end()
    }

    /// The tokens at and below the place that the offset touches, in the order of the text.
    pub open spec fn tokens_at(self, offset: int) -> Seq<Place> {
        self.tokens().filter(touched_at(offset))
    }

    /// The tokens at and below the place that the offset touches, told apart by their number.
    pub open spec fn token_at_offset(self, offset: int) -> TokenAtOffset<Place> {
        let tokens = self.tokens_at(offset);
        if tokens.len() == 0 {
            TokenAtOffset::Empty
        } else if tokens.len() == 1 {
            TokenAtOffset::Single(tokens[0])
        } else {
            TokenAtOffset::Between(tokens[0], tokens[1])
        }
    }

    /// The tokens below the children from the index `start` on that the offset touches.
    pub open spec fn tokens_at_from(self, start: int, offset: int) -> Seq<Place> {
        self.walk_from(start, token_places()).filter(touched_at(offset))
    }

    pub proof fn lemma_tokens_at(self, offset: int)
        requires
            self.wf(),
        ensures
            self.is_node() ==> self.tokens_at(offset) == self.tokens_at_from(0, offset),
            self.is_token() ==> self.tokens_at(offset) == if self.touches(offset) {
                seq![self]
            } else {
                Seq::empty()
            },
    {
        reveal(Seq::filter);
        if self.is_node() {
            assert(self.tokens() =~= self.walk_from(0, token_places()));
        } else {
            assert(self.tokens() =~= seq![self]);
            assert(seq![self].drop_last() =~= Seq::empty());
            assert(self.tokens_at(offset) =~= if self.touches(offset) {
                seq![self]
            } else {
                Seq::empty()
            });
        }
    }

    pub proof fn lemma_tokens_at_from(self, start: int, offset: int)
        requires
            self.wf(),
            0 <= start <= self.children().len(),
        ensures
            self.tokens_at_from(start, offset) == if start < self.children().len() {
                self.child(start).tokens_at(offset) + self.tokens_at_from(start + 1, offset)
            } else {
                Seq::empty()
            },
    {
        reveal(Seq::filter);
        if start < self.children().len() {
            Seq::filter_distributes_over_add(
                self.child(start).tokens(),
                self.walk_from(start + 1, token_places()),
                touched_at(offset),
            );
        }
    }

    /// An offset that does not touch a place touches no token of it.
    pub proof fn lemma_untouched(self, offset: int)
        requires
            self.wf(),
            !self.touches(offset),
        ensures
            self.tokens_at(offset).len() == 0,
        decreases self.element()->0, self.children().len() + 1,
    {
        self.lemma_tokens_at(offset);
        if self.is_node() {
            assert forall|i: int| 0 <= i < self.children().len() implies !(#[trigger] self.child(
                i,
            )).touches(offset) by {
                self.lemma_child(i);
                self.child(i).lemma_bounds();
            }
            self.lemma_untouched_from(0, offset);
        }
    }

    /// An offset that touches none of the children from an index on touches no token of them.
    pub proof fn lemma_untouched_from(self, start: int, offset: int)
        requires
            self.wf(),
            0 <= start <= self.children().len(),
            forall|i: int|
                start <= i < self.children().len() ==> !(#[trigger] self.child(i)).touches(offset),
        ensures
            self.tokens_at_from(start, offset).len() == 0,
        decreases self.element()->0, self.children().len() - start,
    {
        self.lemma_tokens_at_from(start, offset);
        if start < self.children().len() {
            self.lemma_child(start);
            self.child(start).lemma_untouched(offset);
            self.lemma_untouched_from(start + 1, offset);
        }
    }

    /// At the end of a place that has text there is one token.
    pub proof fn lemma_one_at_end(self)
        requires
            self.wf(),
            self.len() > 0,
        ensures
            self.tokens_at(self.end()).len() == 1,
            self.tokens_at(self.end())[0].end() == self.end(),
        decreases self.element()->0, self.children().len() + 1,
    {
        self.lemma_tokens_at(self.end());
        if self.is_node() {
            self.lemma_bounds();
            self.lemma_one_at_end_from(0);
        }
    }

    proof fn lemma_one_at_end_from(self, start: int)
        requires
            self.is_node(),
            0 <= start <= self.children().len(),
            len_of(self.children(), start) < len_of(
                self.children(),
                self.children().len() as int,
            ),
        ensures
            self.tokens_at_from(start, self.end()).len() == 1,
            self.tokens_at_from(start, self.end())[0].end() == self.end(),
        decreases self.element()->0, self.children().len() - start,
    {
        let end = self.end();
        let child = self.child(start);
        self.lemma_child(start);
        self.lemma_tokens_at_from(start, end);
        if len_of(self.children(), start + 1) < len_of(
            self.children(),
            self.children().len() as int,
        ) {
            child.lemma_untouched(end);
            self.lemma_one_at_end_from(start + 1);
        } else {
            child.lemma_one_at_end();
            assert forall|i: int| start + 1 <= i < self.children().len() implies !(
            #[trigger] self.child(i)).touches(end) by {
                self.lemma_child(i);
                lemma_len_of_monotonic(self.children(), start + 1, i);
                lemma_len_of_monotonic(self.children(), i + 1, self.children().len() as int);
            }
            self.lemma_untouched_from(start + 1, end);
        }
    }

    /// At the start of a place that has text there is one token.
    pub proof fn lemma_one_at_start(self)
        requires
            self.wf(),
            self.len() > 0,
        ensures
            self.tokens_at(self.start()).len() == 1,
            self.tokens_at(self.start())[0].start() == self.start(),
        decreases self.element()->0, self.children().len() + 1,
    {
        self.lemma_tokens_at(self.start());
        if self.is_node() {
            self.lemma_bounds();
            self.lemma_one_at_start_from(0, self.start());
        }
    }

    /// At the start of children that have text there is one token.
    pub proof fn lemma_one_at_start_from(self, start: int, offset: int)
        requires
            self.is_node(),
            0 <= start <= self.children().len(),
            offset == self.start() + len_of(self.children(), start),
            offset < self.end(),
        ensures
            self.tokens_at_from(start, offset).len() == 1,
            self.tokens_at_from(start, offset)[0].start() == offset,
        decreases self.element()->0, self.children().len() - start,
    {
        let child = self.child(start);
        self.lemma_bounds();
        self.lemma_child(start);
        self.lemma_tokens_at_from(start, offset);
        if child.len() == 0 {
            child.lemma_untouched(offset);
            self.lemma_one_at_start_from(start + 1, offset);
        } else {
            child.lemma_one_at_start();
            assert forall|i: int| start + 1 <= i < self.children().len() implies !(
            #[trigger] self.child(i)).touches(offset) by {
                self.lemma_child(i);
                lemma_len_of_monotonic(self.children(), start + 1, i);
            }
            self.lemma_untouched_from(start + 1, offset);
        }
    }

    /// An offset that touches a node touches one of its children.
    pub proof fn lemma_touched_child(self, offset: int) -> (index: int)
        requires
            self.is_node(),
            self.touches(offset),
        ensures
            0 <= index < self.children().len(),
            self.child(index).touches(offset),
    {
        self.lemma_bounds();
        self.lemma_touched_child_from(0, offset)
    }

    proof fn lemma_touched_child_from(self, start: int, offset: int) -> (index: int)
        requires
            self.is_node(),
            0 <= start <= self.children().len(),
            len_of(self.children(), start) < len_of(
                self.children(),
                self.children().len() as int,
            ),
            self.start() + len_of(self.children(), start) <= offset <= self.end(),
        ensures
            0 <= index < self.children().len(),
            self.child(index).touches(offset),
        decreases self.children().len() - start,
    {
        self.lemma_child(start);
        if self.child(start).touches(offset) {
            start
        } else {
            self.lemma_touched_child_from(start + 1, offset)
        }
    }
}

/// The places that an offset touches.
pub open spec fn touched_at(offset: int) -> spec_fn(Place) -> bool {
    |place: Place| place.touches(offset)
}

/// What an element holds of the tokens that an offset touches, if there is one.
spec fn tokens_of(element: Option<SyntaxElement>, offset: int) -> Seq<Place> {
    match element {
        Some(element) => element@.tokens_at(offset),
        None => Seq::empty(),
    }
}

/// The element is a child of the place, and the offset touches it.
spec fn is_touched_child(element: SyntaxElement, place: Place, offset: int) -> bool {
    &&& element.wf()
    &&& 0 <= element@.index() < place.children().len()
    &&& element@ == place.child(element@.index())
    &&& element@.touches(offset)
}

/// What stands at an offset that touches a child stands in that child alone, or, where a second
/// child is touched, at the end of the first and at the start of the second.
proof fn lemma_at_offset(place: Place, left: int, right: Option<int>, offset: int)
    requires
        place.is_node(),
        0 <= left < place.children().len(),
        place.child(left).touches(offset),
        match right {
            Some(right) => {
                &&& left < right < place.children().len()
                &&& place.child(right).touches(offset)
                &&& place.tokens_at(offset) == place.child(left).tokens_at(offset) + place.child(
                    right,
                ).tokens_at(offset)
            },
            None => place.tokens_at(offset) == place.child(left).tokens_at(offset),
        },
    ensures
        place.child(left).is_token() ==> place.child(left).token_at_offset(offset)
            == TokenAtOffset::Single(place.child(left)),
        decreases_to!(place.element()->0 => place.child(left).element()->0),
        match right {
            Some(right) => {
                &&& place.child(right).is_token() ==> place.child(right).token_at_offset(offset)
                    == TokenAtOffset::Single(place.child(right))
                &&& decreases_to!(place.element()->0 => place.child(right).element()->0)
                &&& place.child(left).token_at_offset(offset) matches TokenAtOffset::Single(a)
                &&& place.child(right).token_at_offset(offset) matches TokenAtOffset::Single(b)
                &&& place.token_at_offset(offset) == TokenAtOffset::Between(a, b)
            },
            None => place.token_at_offset(offset) == place.child(left).token_at_offset(offset),
        },
{
    place.lemma_child(left);
    place.child(left).lemma_tokens_at(offset);
    if let Some(right) = right {
        place.lemma_child(right);
        place.child(right).lemma_tokens_at(offset);
        place.lemma_siblings_in_order(left, right);
        place.child(left).lemma_one_at_end();
        place.child(right).lemma_one_at_start();
    }
}

impl SyntaxNode {
    /// The children that an offset touches: one, or two where one ends and the next one starts.
    fn children_at_offset(&self, offset: TextSize) -> (touched: (
        Option<SyntaxElement>,
        Option<SyntaxElement>,
    ))
        requires
            self.wf(),
            self@.touches(offset.raw as int),
        ensures
            touched.0 matches Some(left) && is_touched_child(left, self@, offset.raw as int),
            touched.1 matches Some(right) ==> {
                &&& is_touched_child(right, self@, offset.raw as int)
                &&& touched.0->0@.index() < right@.index()
            },
            self@.tokens_at(offset.raw as int) == tokens_of(touched.0, offset.raw as int)
                + tokens_of(touched.1, offset.raw as int),
    {
        let ghost place = self@;
        let ghost at = offset.raw as int;
        let mut children = self.children_with_tokens();
        let mut left: Option<SyntaxElement> = None;
        let mut right: Option<SyntaxElement> = None;
        let ghost mut index: int = 0;
        proof {
            place.lemma_tokens_at(at);
        }
        loop
            invariant
                place == self@,
                place.is_node(),
                place.touches(at),
                at == offset.raw,
                0 <= index <= place.children().len(),
                children.wf(),
                children.remaining() =~= place.children_from(index),
                place.tokens_at(at) =~= tokens_of(left, at) + tokens_of(right, at)
                    + place.tokens_at_from(index, at),
                left is None ==> forall|i: int|
                    0 <= i < index ==> !(#[trigger] place.child(i)).touches(at),
                right is Some ==> left is Some,
                left matches Some(element) ==> is_touched_child(element, place, at)
                    && element@.index() < index,
                right matches Some(element) ==> is_touched_child(element, place, at)
                    && left->0@.index() < element@.index() < index,
            decreases place.children().len() - index,
        {
            proof {
                place.lemma_tokens_at_from(index, at);
                if index < place.children().len() {
                    place.lemma_child(index);
                }
            }
            match children.next() {
                Some(child) => {
                    let range = child.text_range();
                    if !range.is_empty() && range.start().raw <= offset.raw && offset.raw
                        <= range.end().raw {
                        if left.is_none() {
                            left = Some(child);
                        } else {
                            proof {
                                // Two children touch the offset already: the first ends there, the
                                // second starts there, and any further one starts behind it.
                                if let Some(element) = right {
                                    place.lemma_siblings_in_order(
                                        left->0@.index(),
                                        element@.index(),
                                    );
                                    place.lemma_siblings_in_order(element@.index(), index);
                                }
                            }
                            right = Some(child);
                        }
                    } else {
                        proof {
                            child@.lemma_untouched(at);
                        }
                    }
                    proof {
                        index = index + 1;
                    }
                },
                None => {
                    proof {
                        if left is None {
                            let touched = place.lemma_touched_child(at);
                        }
                    }
                    return (left, right);
                },
            }
        }
    }

    /// The tokens at `offset`: none if the node has no text, two if one ends where the next one
    /// starts. Tokens without text are passed over.
    pub fn token_at_offset(&self, offset: TextSize) -> (tokens: TokenAtOffset<SyntaxToken>)
        requires
            self.wf(),
            self@.start() <= offset.raw <= self@.end(),
        ensures
            tokens_found(tokens, self@.token_at_offset(offset.raw as int)),
        decreases self@.element()->0, 0int,
    {
        let ghost place = self@;
        let ghost at = offset.raw as int;
        if self.text_range().is_empty() {
            proof {
                place.lemma_untouched(at);
            }
            return TokenAtOffset::Empty;
        }
        let (left, right) = self.children_at_offset(offset);
        match (left, right) {
            (Some(left), Some(right)) => {
                proof {
                    lemma_at_offset(place, left@.index(), Some(right@.index()), at);
                }
                match (left.token_at_offset(offset), right.token_at_offset(offset)) {
                    (TokenAtOffset::Single(left), TokenAtOffset::Single(right)) => {
                        TokenAtOffset::Between(left, right)
                    },
                    _ => vstd::pervasive::unreached(),
                }
            },
            (Some(left), None) => {
                proof {
                    assert(self@.tokens_at(at) =~= left@.tokens_at(at));
                    lemma_at_offset(place, left@.index(), None, at);
                }
                left.token_at_offset(offset)
            },
            _ => vstd::pervasive::unreached(),
        }
    }
}

impl SyntaxElement {
    fn token_at_offset(&self, offset: TextSize) -> (tokens: TokenAtOffset<SyntaxToken>)
        requires
            self.wf(),
            self@.start() <= offset.raw <= self@.end(),
        ensures
            tokens_found(
                tokens,
                if self@.is_token() {
                    TokenAtOffset::Single(self@)
                } else {
                    self@.token_at_offset(offset.raw as int)
                },
            ),
        decreases self@.element()->0, 1int,
    {
        match self {
            NodeOrToken::Token(token) => TokenAtOffset::Single(token.clone()),
            NodeOrToken::Node(node) => node.token_at_offset(offset),
        }
    }
}

} // verus!
