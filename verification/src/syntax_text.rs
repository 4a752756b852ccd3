//! The text of a node, not yet put together.

use vstd::prelude::*;
use vstd::utf8::encode_utf8;

use crate::cursor::SyntaxNode;
use crate::laws::text::law_length_of_text;
use crate::place::Place;
use crate::text_size::{TextRange, TextSize};

verus! {

/// The text of a node. It is held in pieces, as the texts of the tokens.
pub struct SyntaxText {
    node: SyntaxNode,
    range: TextRange,
}

impl View for SyntaxText {
    type V = Seq<char>;

    open spec fn view(&self) -> Seq<char> {
        self.place().text()
    }
}

impl SyntaxText {
    /// The place of the node whose text it is.
    pub closed spec fn place(&self) -> Place {
        self.node@
    }

    pub closed spec fn wf(&self) -> bool {
        &&& self.node.wf()
        &&& self.range.wf()
        &&& self.range.start.raw == self.node@.start()
        &&& self.range.end.raw == self.node@.end()
    }

    pub(crate) fn new(node: SyntaxNode) -> (text: SyntaxText)
        requires
            node.wf(),
        ensures
            text.wf(),
            text.place() == node@,
    {
        let range = node.text_range();
        SyntaxText { node, range }
    }

    /// The length of the text in bytes.
    pub fn len(&self) -> (len: TextSize)
        requires
            self.wf(),
        ensures
            len.raw == encode_utf8(self@).len(),
    {
        proof {
            law_length_of_text(self.node@);
        }
        self.range.len()
    }

    /// The text in one piece.
    pub fn to_string(&self) -> (text: String)
        requires
            self.wf(),
        ensures
            text@ == self@,
    {
        self.node.to_string()
    }
}

impl SyntaxNode {
    /// The text of the node.
    pub fn text(&self) -> (text: SyntaxText)
        requires
            self.wf(),
        ensures
            text.wf(),
            text.place() == self@,
    {
        SyntaxText::new(self.clone())
    }
}

} // verus!
