//! Lists that are kept in order, searched by bisection and sorted: the
//! searches are those of the `ordslice` crate, the sort is `std`'s. Nothing
//! here is proved: each function states what the call in its body returns
//! on a list that is in order.

use crate::adjacency::{grouped, links_view};
use crate::network::IdxLink;
use crate::pairing::parts_at;
use crate::shortcut::{sorted_by_start, CHContraction};
use ordslice::Ext;
use vstd::prelude::*;

verus! {

/// `ordslice::Ext::upper_bound_by_key` on the direction codes of a list in
/// which the `Forward` links (code 1) come before the `Backward` links
/// (code 2): the position of the first link whose code is above `code`, or
/// the length of the list.
#[verifier::external_body]
pub(crate) fn upper_bound_dir(links: &Vec<IdxLink>, code: u32) -> (p: usize)
    requires
        grouped(links_view(links@)),
    ensures
        parts_at(links_view(links@), code, p as int),
{
    links.as_slice().upper_bound_by_key(&code, |link| link.dir_code())
}

/// `ordslice::Ext::equal_range_by_key` on the start nodes of a list that is
/// sorted by them: the positions `r.0 .. r.1` hold the items that start at
/// `start`, those before start at lower nodes, those behind at higher ones.
#[verifier::external_body]
pub(crate) fn equal_range_start(list: &Vec<CHContraction>, start: u32) -> (r: (usize, usize))
    requires
        sorted_by_start(list@),
    ensures
        r.0 <= r.1 <= list@.len(),
        forall|i: int| 0 <= i < r.0 ==> (#[trigger] list@[i]).snode_idx.0 < start,
        forall|i: int| r.0 <= i < r.1 ==> (#[trigger] list@[i]).snode_idx.0 == start,
        forall|i: int| r.1 <= i < list@.len() ==> (#[trigger] list@[i]).snode_idx.0 > start,
{
    let r = list.as_slice().equal_range_by_key(&start, |c| c.start_code());
    (r.start, r.end)
}

/// `slice::sort_unstable_by_key` on the start nodes: afterwards the list
/// holds the same items, sorted by start node; items that start at the same
/// node may have changed places.
#[verifier::external_body]
pub(crate) fn sort_by_start(list: &mut Vec<CHContraction>)
    ensures
        sorted_by_start(final(list)@),
        final(list)@.to_multiset() == old(list)@.to_multiset(),
{
    list.sort_unstable_by_key(|c| c.start_code());
}

} // verus!
