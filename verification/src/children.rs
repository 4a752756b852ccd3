//! Walks along the children of a green node that keep count of indices and offsets.

use vstd::prelude::*;

use crate::green::{len_of, lemma_len_of_monotonic};
use crate::green::{GreenElement, GreenElementRef, GreenNode, GreenNodeData};
use crate::place::{node_before, node_from};
use crate::text_size::TextSize;
use crate::utility_types::NodeOrToken;

verus! {

/// What a walk hands out for each child: its index and its offset.
pub type Placed = (usize, TextSize);

/// A walk that hands out elements one by one, each with what is known of it besides.
pub trait ElementWalk<'a, T> {
    /// What `next` needs and keeps.
    spec fn ready(&self) -> bool;

    /// The elements still to come.
    spec fn remaining(&self) -> Seq<(GreenElementRef<'a>, T)>;

    /// Takes the first of the remaining elements.
    fn next(&mut self) -> (item: Option<(GreenElementRef<'a>, T)>)
        requires
            old(self).ready(),
        ensures
            final(self).ready(),
            match item {
                Some(first) => {
                    &&& old(self).remaining().len() > 0
                    &&& first == old(self).remaining()[0]
                    &&& final(self).remaining() == old(self).remaining().drop_first()
                },
                None => {
                    &&& old(self).remaining().len() == 0
                    &&& final(self).remaining() == old(self).remaining()
                },
            },
    ;
}

/// The children from the index `start` on. The one at `start` is at `offset`.
pub open spec fn placed_from<'a>(
    children: Seq<GreenElement>,
    start: int,
    offset: int,
) -> Seq<(GreenElementRef<'a>, Placed)> {
    Seq::new(
        if start < children.len() { (children.len() - start) as nat } else { 0 },
        |k: int|
            (
                children[start + k].borrowed(),
                (
                    (start + k) as usize,
                    TextSize {
                        raw: (offset + len_of(children, start + k) - len_of(children, start))
                            as u32,
                    },
                ),
            ),
    )
}

/// The first `count` children, the last of them first. That one ends at `offset` and is given the
/// index `end - 1`.
pub open spec fn placed_to<'a>(
    children: Seq<GreenElement>,
    count: int,
    end: int,
    offset: int,
) -> Seq<(GreenElementRef<'a>, Placed)> {
    Seq::new(
        count as nat,
        |k: int|
            (
                children[count - 1 - k].borrowed(),
                (
                    (end - 1 - k) as usize,
                    TextSize {
                        raw: (offset - len_of(children, count) + len_of(children, count - 1 - k))
                            as u32,
                    },
                ),
            ),
    )
}

/// The walk that [`GreenNodeData::children_from`] starts.
pub struct ChildrenFrom<'a> {
    green: &'a GreenNodeData,
    index: usize,
    offset: TextSize,
}

impl<'a> ElementWalk<'a, Placed> for ChildrenFrom<'a> {
    closed spec fn ready(&self) -> bool {
        let children = self.green@.children;
        &&& self.green.wf()
        &&& self.index < children.len() ==> self.offset.raw + len_of(
            children,
            children.len() as int,
        ) - len_of(children, self.index as int) <= u32::MAX
    }

    closed spec fn remaining(&self) -> Seq<(GreenElementRef<'a>, Placed)> {
        placed_from(self.green@.children, self.index as int, self.offset.raw as int)
    }

    fn next(&mut self) -> (item: Option<(GreenElementRef<'a>, Placed)>) {
        if self.index < self.green.child_count() {
            let ghost children = self.green@.children;
            let index = self.index;
            let element_offset = self.offset;
            let element = self.green.child(index);
            proof {
                assert(children[index as int].wf());
                lemma_len_of_monotonic(children, index + 1, children.len() as int);
            }
            self.offset = TextSize { raw: element_offset.raw + element.text_len().raw };
            self.index = index + 1;
            assert(self.remaining() =~= old(self).remaining().drop_first());
            Some((element, (index, element_offset)))
        } else {
            None
        }
    }
}

/// The walk that [`GreenNodeData::children_to`] starts.
pub struct ChildrenTo<'a> {
    green: &'a GreenNodeData,
    count: usize,
    end: usize,
    offset: TextSize,
}

impl<'a> ElementWalk<'a, Placed> for ChildrenTo<'a> {
    closed spec fn ready(&self) -> bool {
        &&& self.green.wf()
        &&& self.count <= self.green@.children.len()
        &&& self.count <= self.end
        &&& len_of(self.green@.children, self.count as int) <= self.offset.raw
    }

    closed spec fn remaining(&self) -> Seq<(GreenElementRef<'a>, Placed)> {
        placed_to(
            self.green@.children,
            self.count as int,
            self.end as int,
            self.offset.raw as int,
        )
    }

    fn next(&mut self) -> (item: Option<(GreenElementRef<'a>, Placed)>) {
        if self.count > 0 {
            let index = self.end - 1;
            let element = self.green.child(self.count - 1);
            assert(self.green@.children[self.count - 1].wf());
            let offset = TextSize { raw: self.offset.raw - element.text_len().raw };
            self.offset = offset;
            self.count = self.count - 1;
            self.end = index;
            assert(self.remaining() =~= old(self).remaining().drop_first());
            Some((element, (index, offset)))
        } else {
            None
        }
    }
}

impl GreenNodeData {
    /// Walks along the children from the index `start_index` on. The first of them is at `offset`,
    /// each further one where the one before it ends.
    pub fn children_from(&self, start_index: usize, offset: TextSize) -> (walk: ChildrenFrom<'_>)
        requires
            self.wf(),
            start_index < self@.children.len() ==> offset.raw + self@.text_len - len_of(
                self@.children,
                start_index as int,
            ) <= u32::MAX,
        ensures
            walk.ready(),
            walk.remaining() == placed_from(
                self@.children,
                start_index as int,
                offset.raw as int,
            ),
    {
        ChildrenFrom { green: self, index: start_index, offset }
    }

    /// Walks backwards along the children before the index `end_index`. The first of them ends at
    /// `offset`, each further one where the one after it starts.
    ///
    /// Where the node has fewer than `end_index` children, the walk starts at the last one, and
    /// indices are counted down from `end_index` all the same.
    pub fn children_to(&self, end_index: usize, offset: TextSize) -> (walk: ChildrenTo<'_>)
        requires
            self.wf(),
            end_index <= self@.children.len() ==> len_of(self@.children, end_index as int)
                <= offset.raw,
            end_index > self@.children.len() ==> self@.text_len <= offset.raw,
        ensures
            walk.ready(),
            walk.remaining() == placed_to(
                self@.children,
                if end_index <= self@.children.len() {
                    end_index as int
                } else {
                    self@.children.len() as int
                },
                end_index as int,
                offset.raw as int,
            ),
    {
        let available = self.child_count();
        let count = if end_index <= available {
            end_index
        } else {
            available
        };
        ChildrenTo { green: self, count, end: end_index, offset }
    }
}

/// The number of elements before the first node.
pub open spec fn tokens_ahead<'a, T>(items: Seq<(GreenElementRef<'a>, T)>) -> nat
    decreases items.len(),
{
    if items.len() == 0 || items[0].0 is Node {
        0
    } else {
        1 + tokens_ahead(items.drop_first())
    }
}

/// A walk that hands out the nodes of another walk and passes over its tokens.
pub struct FilterNodes<W> {
    walk: W,
}

/// Drops the tokens from a walk.
pub fn filter_nodes<'a, T, W: ElementWalk<'a, T>>(walk: W) -> (nodes: FilterNodes<W>)
    ensures
        nodes.inner() == walk,
{
    FilterNodes { walk }
}

impl<W> FilterNodes<W> {
    /// The walk underneath.
    pub closed spec fn inner(&self) -> W {
        self.walk
    }

    /// Takes the first node of what remains, and all the tokens before it.
    pub fn next<'a, T>(&mut self) -> (item: Option<(&'a GreenNode, T)>) where
        W: ElementWalk<'a, T>,

        requires
            old(self).inner().ready(),
        ensures
            final(self).inner().ready(),
            ({
                let items = old(self).inner().remaining();
                let skipped = tokens_ahead(items) as int;
                match item {
                    Some((node, data)) => {
                        &&& skipped < items.len()
                        &&& items[skipped].0 == GreenElementRef::<'a>::Node(node)
                        &&& items[skipped].1 == data
                        &&& final(self).inner().remaining() == items.skip(skipped + 1)
                    },
                    None => {
                        &&& skipped == items.len()
                        &&& final(self).inner().remaining().len() == 0
                    },
                }
            }),
    {
        let ghost items = self.walk.remaining();
        let ghost mut seen: int = 0;
        loop
            invariant
                self.walk.ready(),
                items == old(self).walk.remaining(),
                0 <= seen <= items.len(),
                self.walk.remaining() == items.skip(seen),
                tokens_ahead(items) == seen + tokens_ahead(items.skip(seen)),
            decreases items.len() - seen,
        {
            match self.walk.next() {
                Some((element, data)) => {
                    assert(items.skip(seen).drop_first() =~= items.skip(seen + 1));
                    assert(items.skip(seen)[0] == items[seen]);
                    match element {
                        NodeOrToken::Node(node) => {
                            return Some((node, data));
                        },
                        NodeOrToken::Token(_) => {
                            proof {
                                seen = seen + 1;
                            }
                        },
                    }
                },
                None => {
                    return None;
                },
            }
        }
    }
}

/// The first node of a walk forwards is the first node among the children walked along.
pub proof fn lemma_tokens_ahead_from(children: Seq<GreenElement>, start: int, offset: int)
    requires
        0 <= start <= children.len(),
    ensures
        start + tokens_ahead(placed_from(children, start, offset)) == node_from(children, start),
    decreases children.len() - start,
{
    let items = placed_from(children, start, offset);
    if start < children.len() && !(children[start] is Node) {
        assert(items.drop_first() =~= placed_from(
            children,
            start + 1,
            offset + children[start].len(),
        ));
        lemma_tokens_ahead_from(children, start + 1, offset + children[start].len());
    }
}

/// The first node of a walk backwards is the last node among the children walked along.
pub proof fn lemma_tokens_ahead_to(children: Seq<GreenElement>, count: int, end: int, offset: int)
    requires
        0 <= count <= children.len(),
    ensures
        count - 1 - tokens_ahead(placed_to(children, count, end, offset)) == node_before(
            children,
            count,
        ),
    decreases count,
{
    let items = placed_to(children, count, end, offset);
    if count > 0 && !(children[count - 1] is Node) {
        assert(items.drop_first() =~= placed_to(
            children,
            count - 1,
            end - 1,
            offset - children[count - 1].len(),
        ));
        lemma_tokens_ahead_to(children, count - 1, end - 1, offset - children[count - 1].len());
    }
}

} // verus!
