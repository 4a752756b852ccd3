//! Laws of the walks along the children of a green node.

use vstd::prelude::*;

use crate::children::{placed_from, placed_to};
use crate::green::{len_of, GreenElement};

verus! {

/// The walk backwards from an index hands out what the walk forwards hands out before that index,
/// in the reverse order: the same elements, each with the same index and the same offset.
pub proof fn law_backwards_is_the_reverse(children: Seq<GreenElement>, count: int, offset: int)
    requires
        0 <= count <= children.len(),
        0 <= offset,
        offset + len_of(children, count) <= u32::MAX,
    ensures
        placed_to(children, count, count, offset + len_of(children, count)) == placed_from(
            children,
            0,
            offset,
        ).take(count).reverse(),
{
    assert(placed_to(children, count, count, offset + len_of(children, count)) =~= placed_from(
        children,
        0,
        offset,
    ).take(count).reverse());
}

} // verus!
